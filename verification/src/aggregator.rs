//! The latency aggregator: a frequency distribution over millisecond
//! latencies, and the summary that is read from it once a run is over.

use crate::stats::{
    count_at_most, count_below, is_maximum, is_minimum, is_percentile, is_rank_value,
    lemma_count_all, lemma_count_bounded, lemma_count_gap, lemma_count_monotone,
    lemma_count_none, lemma_count_push, lemma_mean_within, lemma_percentile_monotonic,
    lemma_percentile_unique, lemma_percentile_within, lemma_permutation, lemma_rank_within,
    lemma_total_at_most, lemma_total_push, mean_of, nearest_rank, total,
};
use vstd::prelude::*;

verus! {

/// Why a statistic could not be given.
#[derive(Clone, Copy, Debug, PartialEq, Eq, Structural)]
pub enum AggregationError {
    /// No sample was recorded, so no statistic has a value.
    NoData,
    /// The percentile asked for lies above 100 %.
    OutOfRange,
}

/// The statistics of one run, all in milliseconds.
#[derive(Clone, Copy, Debug, PartialEq, Eq, Structural)]
pub struct Summary {
    pub count: u64,
    pub minimum: u64,
    pub maximum: u64,
    pub mean: u64,
    pub p50: u64,
    pub p90: u64,
    pub p99: u64,
    pub p999: u64,
}

/// `r` is the summary of the samples `s`: their number, smallest and largest
/// value, mean rounded up, and the nearest-rank percentiles at 50 %, 90 %,
/// 99 % and 99.9 %.
pub open spec fn summarizes(s: Seq<u64>, r: Summary) -> bool {
    &&& r.count == s.len()
    &&& is_minimum(s, r.minimum)
    &&& is_maximum(s, r.maximum)
    &&& r.mean == mean_of(s)
    &&& is_percentile(s, 500, r.p50)
    &&& is_percentile(s, 900, r.p90)
    &&& is_percentile(s, 990, r.p99)
    &&& is_percentile(s, 999, r.p999)
}

/// In every summary the statistics stand in their order: the percentiles
/// ascend from the minimum to the maximum, and the mean lies between the
/// minimum and the maximum too.
pub proof fn lemma_summary_ordered(s: Seq<u64>, r: Summary)
    requires
        summarizes(s, r),
    ensures
        r.minimum <= r.p50 <= r.p90 <= r.p99 <= r.p999 <= r.maximum,
        r.minimum <= r.mean <= r.maximum,
{
    lemma_percentile_within(s, 500, r.p50, r.minimum, r.maximum);
    lemma_percentile_within(s, 999, r.p999, r.minimum, r.maximum);
    lemma_percentile_monotonic(s, 500, 900, r.p50, r.p90);
    lemma_percentile_monotonic(s, 900, 990, r.p90, r.p99);
    lemma_percentile_monotonic(s, 990, 999, r.p99, r.p999);
    assert(s.len() > 0) by {
        if s.len() == 0 {
            assert(!s.contains(r.minimum));
        }
    }
    lemma_mean_within(s, r.minimum, r.maximum);
}

/// The samples determine their summary: in whatever order the same samples
/// arrive, the count, minimum, maximum, mean and percentiles are the same.
pub proof fn lemma_summary_order_independent(a: Seq<u64>, b: Seq<u64>, ra: Summary, rb: Summary)
    requires
        a.to_multiset() == b.to_multiset(),
        summarizes(a, ra),
        summarizes(b, rb),
    ensures
        ra == rb,
{
    lemma_permutation(a, b);
    a.to_multiset_ensures();
    b.to_multiset_ensures();
    assert(a.to_multiset().count(ra.minimum) > 0);
    assert(b.to_multiset().count(rb.minimum) > 0);
    assert(b.contains(ra.minimum));
    assert(a.contains(rb.minimum));
    let i = choose|i: int| 0 <= i < b.len() && b[i] == ra.minimum;
    assert(rb.minimum <= b[i]);
    let j = choose|j: int| 0 <= j < a.len() && a[j] == rb.minimum;
    assert(ra.minimum <= a[j]);
    assert(a.to_multiset().count(ra.maximum) > 0);
    assert(b.to_multiset().count(rb.maximum) > 0);
    assert(b.contains(ra.maximum));
    assert(a.contains(rb.maximum));
    let k = choose|k: int| 0 <= k < b.len() && b[k] == ra.maximum;
    assert(b[k] <= rb.maximum);
    let l = choose|l: int| 0 <= l < a.len() && a[l] == rb.maximum;
    assert(a[l] <= ra.maximum);
    assert(is_percentile(b, 500, ra.p50));
    assert(is_percentile(b, 900, ra.p90));
    assert(is_percentile(b, 990, ra.p99));
    assert(is_percentile(b, 999, ra.p999));
    lemma_percentile_unique(b, 500, ra.p50, rb.p50);
    lemma_percentile_unique(b, 900, ra.p90, rb.p90);
    lemma_percentile_unique(b, 990, ra.p99, rb.p99);
    lemma_percentile_unique(b, 999, ra.p999, rb.p999);
}

/// One value of the distribution and how often it was recorded.
struct Bucket {
    value: u64,
    count: u64,
}

/// The number of samples held by the first `i` buckets.
spec fn prefix(b: Seq<Bucket>, i: int) -> nat
    decreases i,
{
    if i <= 0 {
        0
    } else {
        prefix(b, i - 1) + b[i - 1].count as nat
    }
}

/// The values of the buckets ascend strictly.
spec fn ascending(b: Seq<Bucket>) -> bool {
    forall|i: int, j: int|
        0 <= i < j < b.len() ==> (#[trigger] b[i]).value < (#[trigger] b[j]).value
}

/// Bucket `i` is not empty, and up to its value the buckets hold as many
/// samples as `s` does.
spec fn holds(b: Seq<Bucket>, s: Seq<u64>, i: int) -> bool {
    &&& b[i].count >= 1
    &&& count_below(s, b[i].value as int) == prefix(b, i)
    &&& count_at_most(s, b[i].value as int) == prefix(b, i + 1)
}

/// The buckets `b` are the frequency distribution of the samples `s`.
spec fn tallies(b: Seq<Bucket>, s: Seq<u64>) -> bool {
    &&& ascending(b)
    &&& forall|i: int| 0 <= i < b.len() ==> #[trigger] holds(b, s, i)
    &&& s.len() == prefix(b, b.len() as int)
}

proof fn lemma_prefix_monotone(b: Seq<Bucket>, i: int, j: int)
    requires
        0 <= i <= j <= b.len(),
    ensures
        prefix(b, i) <= prefix(b, j),
    decreases j - i,
{
    if i < j {
        lemma_prefix_monotone(b, i, j - 1);
    }
}

proof fn lemma_prefix_update(b: Seq<Bucket>, k: int, nb: Bucket, i: int)
    requires
        0 <= k < b.len(),
        0 <= i <= b.len(),
    ensures
        prefix(b.update(k, nb), i) == if i <= k {
            prefix(b, i) as int
        } else {
            prefix(b, i) - b[k].count + nb.count
        },
    decreases i,
{
    if i > 0 {
        lemma_prefix_update(b, k, nb, i - 1);
    }
}

proof fn lemma_prefix_insert(b: Seq<Bucket>, k: int, nb: Bucket, i: int)
    requires
        0 <= k <= b.len(),
        0 <= i <= b.len() + 1,
    ensures
        prefix(b.insert(k, nb), i) == if i <= k {
            prefix(b, i)
        } else {
            prefix(b, i - 1) + nb.count as nat
        },
    decreases i,
{
    if i > 0 {
        lemma_prefix_insert(b, k, nb, i - 1);
        let b2 = b.insert(k, nb);
        if i - 1 < k {
            assert(b2[i - 1] == b[i - 1]);
        } else if i - 1 == k {
            assert(b2[i - 1] == nb);
        } else {
            assert(b2[i - 1] == b[i - 2]);
        }
    }
}

/// Recording a value that already has a bucket raises that bucket's count.
proof fn lemma_record_existing(b: Seq<Bucket>, s: Seq<u64>, k: int, nb: Bucket)
    requires
        tallies(b, s),
        0 <= k < b.len(),
        nb.value == b[k].value,
        nb.count == b[k].count + 1,
    ensures
        tallies(b.update(k, nb), s.push(nb.value)),
{
    let x = nb.value;
    let b2 = b.update(k, nb);
    let s2 = s.push(x);
    assert forall|i: int| 0 <= i < b2.len() implies #[trigger] holds(b2, s2, i) by {
        let v = b[i].value;
        assert(holds(b, s, i));
        assert(b2[i].value == v);
        lemma_count_push(s, x, v - 1);
        lemma_count_push(s, x, v as int);
        lemma_prefix_update(b, k, nb, i);
        lemma_prefix_update(b, k, nb, i + 1);
        if i < k {
            assert(b[i].value < b[k].value);
        } else if i > k {
            assert(b[k].value < b[i].value);
        }
    }
    lemma_prefix_update(b, k, nb, b.len() as int);
    assert(ascending(b2)) by {
        assert forall|i: int, j: int| 0 <= i < j < b2.len() implies (#[trigger] b2[i]).value < (
        #[trigger] b2[j]).value by {
            assert(b[i].value < b[j].value);
        }
    }
}

/// Where a value without a bucket belongs, the samples below it fill the
/// buckets before that place, and no sample equals it.
proof fn lemma_gap_counts(b: Seq<Bucket>, s: Seq<u64>, k: int, x: u64)
    requires
        tallies(b, s),
        0 <= k <= b.len(),
        forall|i: int| 0 <= i < k ==> (#[trigger] b[i]).value < x,
        forall|i: int| k <= i < b.len() ==> x < (#[trigger] b[i]).value,
    ensures
        count_below(s, x as int) == prefix(b, k),
        count_at_most(s, x as int) == prefix(b, k),
{
    lemma_count_monotone(s, x - 1, x as int);
    lemma_count_bounded(s, x as int);
    if k > 0 {
        let below = b[k - 1].value;
        assert(holds(b, s, k - 1));
        assert(below < x);
        lemma_count_monotone(s, below as int, x - 1);
    }
    if k < b.len() {
        let above = b[k].value;
        assert(holds(b, s, k));
        assert(x < above);
        lemma_count_monotone(s, x as int, above - 1);
    }
}

/// Recording a value that has no bucket yet puts a bucket of one sample in
/// its place among the others.
proof fn lemma_record_fresh(b: Seq<Bucket>, s: Seq<u64>, k: int, nb: Bucket)
    requires
        tallies(b, s),
        0 <= k <= b.len(),
        nb.count == 1,
        forall|i: int| 0 <= i < k ==> (#[trigger] b[i]).value < nb.value,
        forall|i: int| k <= i < b.len() ==> nb.value < (#[trigger] b[i]).value,
    ensures
        tallies(b.insert(k, nb), s.push(nb.value)),
{
    let x = nb.value;
    let b2 = b.insert(k, nb);
    let s2 = s.push(x);
    let n = b.len() as int;
    lemma_gap_counts(b, s, k, x);
    assert forall|i: int| 0 <= i < b2.len() implies #[trigger] holds(b2, s2, i) by {
        lemma_prefix_insert(b, k, nb, i);
        lemma_prefix_insert(b, k, nb, i + 1);
        let v = b2[i].value;
        lemma_count_push(s, x, v - 1);
        lemma_count_push(s, x, v as int);
        if i < k {
            assert(b2[i] == b[i]);
            assert(holds(b, s, i));
            assert(b[i].value < x);
        } else if i == k {
            assert(b2[i] == nb);
        } else {
            assert(b2[i] == b[i - 1]);
            assert(holds(b, s, i - 1));
            assert(x < b[i - 1].value);
        }
    }
    lemma_prefix_insert(b, k, nb, n + 1);
    assert(ascending(b2)) by {
        assert forall|i: int, j: int| 0 <= i < j < b2.len() implies (#[trigger] b2[i]).value < (
        #[trigger] b2[j]).value by {
            if j < k {
                assert(b2[i] == b[i] && b2[j] == b[j]);
            } else if j == k {
                assert(b2[i] == b[i] && b2[j] == nb);
            } else if i < k {
                assert(b2[i] == b[i] && b2[j] == b[j - 1]);
                assert(b[i].value < x < b[j - 1].value);
            } else if i == k {
                assert(b2[i] == nb && b2[j] == b[j - 1]);
            } else {
                assert(b2[i] == b[i - 1] && b2[j] == b[j - 1]);
            }
        }
    }
}

/// Collects latency samples into a frequency distribution and answers for
/// their statistics. Its view is the sequence of samples recorded so far, in
/// the order of their arrival; no statistic depends on that order.
pub struct Aggregator {
    buckets: Vec<Bucket>,
    entries: u64,
    sum: u128,
    recorded: Ghost<Seq<u64>>,
}

impl View for Aggregator {
    type V = Seq<u64>;

    closed spec fn view(&self) -> Seq<u64> {
        self.recorded@
    }
}

impl Aggregator {
    /// The distribution agrees with the samples recorded.
    pub closed spec fn wf(&self) -> bool {
        &&& tallies(self.buckets@, self.recorded@)
        &&& self.entries == self.recorded@.len()
        &&& self.sum == total(self.recorded@)
    }

    /// An aggregator that holds no sample.
    pub fn new() -> (a: Aggregator)
        ensures
            a.wf(),
            a@ == Seq::<u64>::empty(),
    {
        Aggregator { buckets: Vec::new(), entries: 0, sum: 0, recorded: Ghost(Seq::empty()) }
    }

    /// The number of samples recorded.
    pub fn count(&self) -> (n: u64)
        requires
            self.wf(),
        ensures
            n == self@.len(),
    {
        self.entries
    }

    /// The index of the first bucket whose value is not below `sample`.
    fn position(&self, sample: u64) -> (k: usize)
        requires
            self.wf(),
        ensures
            k <= self.buckets@.len(),
            forall|i: int| 0 <= i < k ==> (#[trigger] self.buckets@[i]).value < sample,
            forall|i: int|
                k <= i < self.buckets@.len() ==> sample <= (#[trigger] self.buckets@[i]).value,
    {
        let mut lo: usize = 0;
        let mut hi: usize = self.buckets.len();
        while lo < hi
            invariant
                lo <= hi <= self.buckets@.len(),
                ascending(self.buckets@),
                forall|i: int| 0 <= i < lo ==> (#[trigger] self.buckets@[i]).value < sample,
                forall|i: int|
                    hi <= i < self.buckets@.len() ==> sample <= (
                    #[trigger] self.buckets@[i]).value,
            decreases hi - lo,
        {
            let mid: usize = lo + (hi - lo) / 2;
            if self.buckets[mid].value < sample {
                proof {
                    assert forall|i: int| 0 <= i < mid + 1 implies (
                    #[trigger] self.buckets@[i]).value < sample by {
                        if i < mid {
                            assert(self.buckets@[i].value < self.buckets@[mid as int].value);
                        }
                    }
                }
                lo = mid + 1;
            } else {
                proof {
                    assert forall|i: int| mid <= i < self.buckets@.len() implies sample <= (
                    #[trigger] self.buckets@[i]).value by {
                        if mid < i {
                            assert(self.buckets@[mid as int].value < self.buckets@[i].value);
                        }
                    }
                }
                hi = mid;
            }
        }
        lo
    }

    /// Records one sample.
    pub fn record(&mut self, sample: u64)
        requires
            old(self).wf(),
            old(self)@.len() < u64::MAX,
        ensures
            final(self).wf(),
            final(self)@ == old(self)@.push(sample),
    {
        let k: usize = self.position(sample);
        let ghost b = self.buckets@;
        let ghost s = self.recorded@;
        if k < self.buckets.len() && self.buckets[k].value == sample {
            let held: u64 = self.buckets[k].count;
            proof {
                assert(holds(b, s, k as int));
                lemma_prefix_monotone(b, k + 1, b.len() as int);
            }
            let raised = Bucket { value: sample, count: held + 1 };
            proof {
                lemma_record_existing(b, s, k as int, raised);
            }
            self.buckets.set(k, raised);
        } else {
            let fresh = Bucket { value: sample, count: 1 };
            proof {
                lemma_record_fresh(b, s, k as int, fresh);
            }
            self.buckets.insert(k, fresh);
        }
        proof {
            lemma_total_push(s, sample);
            lemma_total_at_most(s, u64::MAX as int);
            assert(s.len() * u64::MAX <= (u64::MAX - 1) * u64::MAX) by (nonlinear_arith)
                requires
                    s.len() <= u64::MAX - 1,
            ;
        }
        self.entries = self.entries + 1;
        self.sum = self.sum + sample as u128;
        self.recorded = Ghost(s.push(sample));
    }

    /// The sample at position `rank`, counting from one, of the samples in
    /// ascending order.
    fn rank_value(&self, rank: u64) -> (v: u64)
        requires
            self.wf(),
            1 <= rank <= self@.len(),
        ensures
            is_rank_value(self@, rank as nat, v),
    {
        let mut i: usize = 0;
        let mut have: u64 = 0;
        let ghost b = self.buckets@;
        proof {
            if b.len() == 0 {
                assert(prefix(b, 0) == 0);
            }
        }
        while i < self.buckets.len() - 1 && rank - have > self.buckets[i].count
            invariant
                b == self.buckets@,
                i < b.len(),
                have == prefix(b, i as int),
                have < rank <= prefix(b, b.len() as int),
                prefix(b, b.len() as int) <= u64::MAX,
            decreases b.len() - i,
        {
            have = have + self.buckets[i].count;
            i = i + 1;
        }
        proof {
            assert(holds(b, self@, i as int));
        }
        self.buckets[i].value
    }

    /// The percentile at `tenths` tenths of a percent (500 for the median,
    /// 999 for 99.9 %), by the nearest-rank method: the sample at rank
    /// `count * tenths / 1000`, rounded up and at least one, of the samples in
    /// ascending order.
    pub fn percentile(&self, tenths: u16) -> (r: Result<u64, AggregationError>)
        requires
            self.wf(),
        ensures
            r == Err::<u64, AggregationError>(AggregationError::NoData) <==> self@.len() == 0,
            r == Err::<u64, AggregationError>(AggregationError::OutOfRange) <==> self@.len() > 0
                && tenths > 1000,
            r is Ok <==> self@.len() > 0 && tenths <= 1000,
            r matches Ok(v) ==> is_percentile(self@, tenths as nat, v),
    {
        if self.entries == 0 {
            return Err(AggregationError::NoData);
        }
        if tenths > 1000 {
            return Err(AggregationError::OutOfRange);
        }
        let n: u128 = self.entries as u128;
        proof {
            assert(n * tenths <= 0xFFFF_FFFF_FFFF_FFFF * 1000) by (nonlinear_arith)
                requires
                    n <= 0xFFFF_FFFF_FFFF_FFFF,
                    tenths <= 1000,
            ;
            lemma_rank_within(n as nat, tenths as nat);
        }
        let scaled: u128 = n * (tenths as u128);
        let mut rank: u128 = (scaled + 999) / 1000;
        if rank == 0 {
            rank = 1;
        }
        Ok(self.rank_value(rank as u64))
    }

    /// The smallest sample.
    pub fn minimum(&self) -> (r: Result<u64, AggregationError>)
        requires
            self.wf(),
        ensures
            r == Err::<u64, AggregationError>(AggregationError::NoData) <==> self@.len() == 0,
            r is Ok <==> self@.len() > 0,
            r matches Ok(v) ==> is_minimum(self@, v),
    {
        if self.entries == 0 {
            return Err(AggregationError::NoData);
        }
        proof {
            let b = self.buckets@;
            let s = self@;
            assert(b.len() > 0) by {
                if b.len() == 0 {
                    assert(prefix(b, 0) == 0);
                }
            }
            let v = b[0].value;
            assert(holds(b, s, 0));
            assert(prefix(b, 0) == 0);
            lemma_count_none(s, v - 1);
            lemma_count_gap(s, v - 1, v as int);
            let i = choose|i: int| 0 <= i < s.len() && v - 1 < #[trigger] s[i] <= v;
            assert(s[i] == v);
        }
        Ok(self.buckets[0].value)
    }

    /// The largest sample.
    pub fn maximum(&self) -> (r: Result<u64, AggregationError>)
        requires
            self.wf(),
        ensures
            r == Err::<u64, AggregationError>(AggregationError::NoData) <==> self@.len() == 0,
            r is Ok <==> self@.len() > 0,
            r matches Ok(v) ==> is_maximum(self@, v),
    {
        if self.entries == 0 {
            return Err(AggregationError::NoData);
        }
        proof {
            if self.buckets@.len() == 0 {
                assert(prefix(self.buckets@, 0) == 0);
            }
        }
        let last: usize = self.buckets.len() - 1;
        proof {
            let b = self.buckets@;
            let s = self@;
            let v = b[last as int].value;
            assert(holds(b, s, last as int));
            lemma_count_all(s, v as int);
            lemma_count_gap(s, v - 1, v as int);
            let i = choose|i: int| 0 <= i < s.len() && v - 1 < #[trigger] s[i] <= v;
            assert(s[i] == v);
        }
        Ok(self.buckets[last].value)
    }

    /// The arithmetic mean of the samples, rounded up to whole milliseconds.
    pub fn mean(&self) -> (r: Result<u64, AggregationError>)
        requires
            self.wf(),
        ensures
            r == Err::<u64, AggregationError>(AggregationError::NoData) <==> self@.len() == 0,
            r is Ok <==> self@.len() > 0,
            r matches Ok(v) ==> v == mean_of(self@),
    {
        let lo: u64 = match self.minimum() {
            Ok(v) => v,
            Err(e) => {
                return Err(e);
            },
        };
        let hi: u64 = match self.maximum() {
            Ok(v) => v,
            Err(e) => {
                return Err(e);
            },
        };
        proof {
            lemma_mean_within(self@, lo, hi);
            lemma_total_at_most(self@, u64::MAX as int);
            assert(self@.len() * u64::MAX <= u64::MAX * u64::MAX) by (nonlinear_arith)
                requires
                    self@.len() <= u64::MAX,
            ;
        }
        let n: u128 = self.entries as u128;
        let mean: u128 = (self.sum + (n - 1)) / n;
        Ok(mean as u64)
    }

    /// All statistics of the samples recorded, or `NoData` when there are
    /// none.
    pub fn summary(&self) -> (r: Result<Summary, AggregationError>)
        requires
            self.wf(),
        ensures
            r == Err::<Summary, AggregationError>(AggregationError::NoData) <==> self@.len() == 0,
            r is Ok <==> self@.len() > 0,
            r matches Ok(s) ==> summarizes(self@, s),
    {
        if self.entries == 0 {
            return Err(AggregationError::NoData);
        }
        let minimum: u64 = match self.minimum() {
            Ok(v) => v,
            Err(e) => {
                return Err(e);
            },
        };
        let maximum: u64 = match self.maximum() {
            Ok(v) => v,
            Err(e) => {
                return Err(e);
            },
        };
        let mean: u64 = match self.mean() {
            Ok(v) => v,
            Err(e) => {
                return Err(e);
            },
        };
        let p50: u64 = match self.percentile(500) {
            Ok(v) => v,
            Err(e) => {
                return Err(e);
            },
        };
        let p90: u64 = match self.percentile(900) {
            Ok(v) => v,
            Err(e) => {
                return Err(e);
            },
        };
        let p99: u64 = match self.percentile(990) {
            Ok(v) => v,
            Err(e) => {
                return Err(e);
            },
        };
        let p999: u64 = match self.percentile(999) {
            Ok(v) => v,
            Err(e) => {
                return Err(e);
            },
        };
        Ok(Summary { count: self.entries, minimum, maximum, mean, p50, p90, p99, p999 })
    }
}

/// Builds the distribution of `samples`.
pub fn aggregate(samples: &Vec<u64>) -> (a: Aggregator)
    ensures
        a.wf(),
        a@ == samples@,
{
    let mut a = Aggregator::new();
    let mut i: usize = 0;
    while i < samples.len()
        invariant
            i <= samples.len(),
            a.wf(),
            a@ == samples@.subrange(0, i as int),
        decreases samples.len() - i,
    {
        a.record(samples[i]);
        proof {
            assert(samples@.subrange(0, i + 1) =~= samples@.subrange(0, i as int).push(
                samples@[i as int],
            ));
        }
        i = i + 1;
    }
    proof {
        assert(samples@.subrange(0, samples.len() as int) =~= samples@);
    }
    a
}

/// The summary of `samples`, or `NoData` when there are none.
pub fn summarize(samples: &Vec<u64>) -> (r: Result<Summary, AggregationError>)
    ensures
        r == Err::<Summary, AggregationError>(AggregationError::NoData) <==> samples@.len() == 0,
        r is Ok <==> samples@.len() > 0,
        r matches Ok(s) ==> summarizes(samples@, s),
{
    aggregate(samples).summary()
}

} // verus!
