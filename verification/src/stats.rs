//! The mathematics of a latency distribution: counting, ranks, and what it
//! means for a value to be a minimum, a maximum, a mean or a percentile of a
//! sequence of samples. Every definition depends only on which samples occur
//! and how often, never on the order in which they arrived.

use vstd::prelude::*;

verus! {

/// How many samples of `s` are at most `bound`.
pub open spec fn count_at_most(s: Seq<u64>, bound: int) -> nat
    decreases s.len(),
{
    if s.len() == 0 {
        0
    } else {
        count_at_most(s.drop_last(), bound) + if s.last() <= bound {
            1nat
        } else {
            0nat
        }
    }
}

/// How many samples of `s` are strictly smaller than `v`.
pub open spec fn count_below(s: Seq<u64>, v: int) -> nat {
    count_at_most(s, v - 1)
}

/// The sum of all samples of `s`.
pub open spec fn total(s: Seq<u64>) -> nat
    decreases s.len(),
{
    if s.len() == 0 {
        0
    } else {
        total(s.drop_last()) + s.last() as nat
    }
}

/// The nearest rank for a percentile given in tenths of a percent, among `n`
/// samples: `n * tenths / 1000` rounded up, and never less than one.
pub open spec fn nearest_rank(n: nat, tenths: nat) -> nat {
    let r = (n * tenths + 999) / 1000;
    if r <= 0 {
        1
    } else {
        r as nat
    }
}

/// `v` is the sample that stands at position `rank` (counting from one) when
/// the samples are put in ascending order.
pub open spec fn is_rank_value(s: Seq<u64>, rank: nat, v: u64) -> bool {
    count_below(s, v as int) < rank <= count_at_most(s, v as int)
}

/// `v` is the percentile of `s` at `tenths` tenths of a percent, by the
/// nearest-rank method with the rank rounded up.
pub open spec fn is_percentile(s: Seq<u64>, tenths: nat, v: u64) -> bool {
    is_rank_value(s, nearest_rank(s.len(), tenths), v)
}

/// `v` occurs in `s` and no sample is smaller.
pub open spec fn is_minimum(s: Seq<u64>, v: u64) -> bool {
    &&& s.contains(v)
    &&& forall|i: int| 0 <= i < s.len() ==> v <= #[trigger] s[i]
}

/// `v` occurs in `s` and no sample is larger.
pub open spec fn is_maximum(s: Seq<u64>, v: u64) -> bool {
    &&& s.contains(v)
    &&& forall|i: int| 0 <= i < s.len() ==> #[trigger] s[i] <= v
}

/// The arithmetic mean of the samples, rounded up to a whole number.
pub open spec fn mean_of(s: Seq<u64>) -> nat
    recommends
        s.len() > 0,
{
    ((total(s) + s.len() - 1) / (s.len() as int)) as nat
}

pub proof fn lemma_count_push(s: Seq<u64>, x: u64, bound: int)
    ensures
        count_at_most(s.push(x), bound) == count_at_most(s, bound) + if x <= bound {
            1nat
        } else {
            0nat
        },
{
    assert(s.push(x).drop_last() =~= s);
}

pub proof fn lemma_total_push(s: Seq<u64>, x: u64)
    ensures
        total(s.push(x)) == total(s) + x,
{
    assert(s.push(x).drop_last() =~= s);
}

pub proof fn lemma_count_bounded(s: Seq<u64>, bound: int)
    ensures
        count_at_most(s, bound) <= s.len(),
    decreases s.len(),
{
    if s.len() > 0 {
        lemma_count_bounded(s.drop_last(), bound);
    }
}

pub proof fn lemma_count_monotone(s: Seq<u64>, a: int, b: int)
    requires
        a <= b,
    ensures
        count_at_most(s, a) <= count_at_most(s, b),
    decreases s.len(),
{
    if s.len() > 0 {
        lemma_count_monotone(s.drop_last(), a, b);
    }
}

/// When nothing is counted, every sample lies above the bound.
pub proof fn lemma_count_none(s: Seq<u64>, bound: int)
    requires
        count_at_most(s, bound) == 0,
    ensures
        forall|i: int| 0 <= i < s.len() ==> #[trigger] s[i] > bound,
    decreases s.len(),
{
    if s.len() > 0 {
        let front = s.drop_last();
        lemma_count_none(front, bound);
        assert forall|i: int| 0 <= i < s.len() implies #[trigger] s[i] > bound by {
            if i < s.len() - 1 {
                assert(front[i] == s[i]);
            }
        }
    }
}

/// When everything is counted, every sample lies within the bound.
pub proof fn lemma_count_all(s: Seq<u64>, bound: int)
    requires
        count_at_most(s, bound) == s.len(),
    ensures
        forall|i: int| 0 <= i < s.len() ==> #[trigger] s[i] <= bound,
    decreases s.len(),
{
    if s.len() > 0 {
        let front = s.drop_last();
        lemma_count_bounded(front, bound);
        lemma_count_all(front, bound);
        assert forall|i: int| 0 <= i < s.len() implies #[trigger] s[i] <= bound by {
            if i < s.len() - 1 {
                assert(front[i] == s[i]);
            }
        }
    }
}

/// When the count grows between two bounds, a sample lies between them.
pub proof fn lemma_count_gap(s: Seq<u64>, a: int, b: int)
    requires
        count_at_most(s, a) < count_at_most(s, b),
    ensures
        exists|i: int| 0 <= i < s.len() && a < #[trigger] s[i] <= b,
    decreases s.len(),
{
    if s.len() > 0 {
        let front = s.drop_last();
        if a < s.last() <= b {
            assert(a < s[s.len() - 1] <= b);
        } else {
            lemma_count_gap(front, a, b);
            let i = choose|i: int| 0 <= i < front.len() && a < #[trigger] front[i] <= b;
            assert(front[i] == s[i]);
        }
    }
}

pub proof fn lemma_count_remove(s: Seq<u64>, i: int, bound: int)
    requires
        0 <= i < s.len(),
    ensures
        count_at_most(s, bound) == count_at_most(s.remove(i), bound) + if s[i] <= bound {
            1nat
        } else {
            0nat
        },
    decreases s.len(),
{
    if i == s.len() - 1 {
        assert(s.remove(i) =~= s.drop_last());
    } else {
        lemma_count_remove(s.drop_last(), i, bound);
        assert(s.remove(i).drop_last() =~= s.drop_last().remove(i));
        assert(s.remove(i).last() == s.last());
    }
}

pub proof fn lemma_total_remove(s: Seq<u64>, i: int)
    requires
        0 <= i < s.len(),
    ensures
        total(s) == total(s.remove(i)) + s[i],
    decreases s.len(),
{
    if i == s.len() - 1 {
        assert(s.remove(i) =~= s.drop_last());
    } else {
        lemma_total_remove(s.drop_last(), i);
        assert(s.remove(i).drop_last() =~= s.drop_last().remove(i));
        assert(s.remove(i).last() == s.last());
    }
}

/// A sum of samples that are all at most `cap` is at most `cap` per sample.
pub proof fn lemma_total_at_most(s: Seq<u64>, cap: int)
    requires
        forall|i: int| 0 <= i < s.len() ==> #[trigger] s[i] <= cap,
    ensures
        total(s) <= s.len() * cap,
    decreases s.len(),
{
    if s.len() > 0 {
        let front = s.drop_last();
        assert forall|i: int| 0 <= i < front.len() implies #[trigger] front[i] <= cap by {
            assert(front[i] == s[i]);
        }
        lemma_total_at_most(front, cap);
        assert(s[s.len() - 1] <= cap);
        assert(front.len() * cap + cap == s.len() * cap) by (nonlinear_arith)
            requires
                front.len() + 1 == s.len(),
        ;
    }
}

/// A sum of samples that are all at least `floor` is at least `floor` per
/// sample.
pub proof fn lemma_total_at_least(s: Seq<u64>, floor: int)
    requires
        forall|i: int| 0 <= i < s.len() ==> #[trigger] s[i] >= floor,
    ensures
        total(s) >= s.len() * floor,
    decreases s.len(),
{
    if s.len() > 0 {
        let front = s.drop_last();
        assert forall|i: int| 0 <= i < front.len() implies #[trigger] front[i] >= floor by {
            assert(front[i] == s[i]);
        }
        lemma_total_at_least(front, floor);
        assert(s[s.len() - 1] >= floor);
        assert(front.len() * floor + floor == s.len() * floor) by (nonlinear_arith)
            requires
                front.len() + 1 == s.len(),
        ;
    }
}

/// Two sequences that hold the same samples equally often have the same
/// counts and the same sum.
pub proof fn lemma_permutation(a: Seq<u64>, b: Seq<u64>)
    requires
        a.to_multiset() == b.to_multiset(),
    ensures
        a.len() == b.len(),
        total(a) == total(b),
        forall|bound: int| count_at_most(a, bound) == count_at_most(b, bound),
    decreases a.len(),
{
    a.to_multiset_ensures();
    b.to_multiset_ensures();
    if a.len() > 0 {
        let x = a.last();
        assert(a[a.len() - 1] == x);
        assert(a.contains(x));
        assert(a.to_multiset().count(x) > 0);
        assert(b.to_multiset().count(x) > 0);
        assert(b.contains(x));
        let j = choose|j: int| 0 <= j < b.len() && b[j] == x;
        let a1 = a.drop_last();
        let b1 = b.remove(j);
        assert(a1 =~= a.remove(a.len() - 1));
        assert(a1.to_multiset() =~= b1.to_multiset());
        lemma_permutation(a1, b1);
        lemma_total_remove(b, j);
        assert forall|bound: int| count_at_most(a, bound) == count_at_most(b, bound) by {
            lemma_count_remove(b, j, bound);
        }
    }
}

pub proof fn lemma_rank_within(n: nat, tenths: nat)
    requires
        n >= 1,
        tenths <= 1000,
    ensures
        1 <= nearest_rank(n, tenths) <= n,
{
    assert(n * tenths <= n * 1000) by (nonlinear_arith)
        requires
            tenths <= 1000,
    ;
}

pub proof fn lemma_rank_monotone(n: nat, low: nat, high: nat)
    requires
        low <= high,
    ensures
        nearest_rank(n, low) <= nearest_rank(n, high),
{
    assert(n * low <= n * high) by (nonlinear_arith)
        requires
            low <= high,
    ;
}

/// The value at a rank occurs among the samples.
pub proof fn lemma_rank_value_occurs(s: Seq<u64>, rank: nat, v: u64)
    requires
        is_rank_value(s, rank, v),
    ensures
        s.contains(v),
{
    lemma_count_gap(s, v - 1, v as int);
    let i = choose|i: int| 0 <= i < s.len() && v - 1 < #[trigger] s[i] <= v;
    assert(s[i] == v);
}

/// A later rank never holds a smaller value.
pub proof fn lemma_rank_value_ordered(s: Seq<u64>, low: nat, high: nat, v: u64, w: u64)
    requires
        low <= high,
        is_rank_value(s, low, v),
        is_rank_value(s, high, w),
    ensures
        v <= w,
{
    if w < v {
        lemma_count_monotone(s, w as int, v - 1);
    }
}

/// Percentiles are monotonic: a higher percentile of the same samples is
/// never a smaller value. In particular p50 <= p90 <= p99 <= p99.9.
pub proof fn lemma_percentile_monotonic(s: Seq<u64>, low: nat, high: nat, v: u64, w: u64)
    requires
        low <= high,
        is_percentile(s, low, v),
        is_percentile(s, high, w),
    ensures
        v <= w,
{
    lemma_rank_monotone(s.len(), low, high);
    lemma_rank_value_ordered(s, nearest_rank(s.len(), low), nearest_rank(s.len(), high), v, w);
}

/// A percentile is determined by the samples: two values that both qualify
/// are equal.
pub proof fn lemma_percentile_unique(s: Seq<u64>, tenths: nat, v: u64, w: u64)
    requires
        is_percentile(s, tenths, v),
        is_percentile(s, tenths, w),
    ensures
        v == w,
{
    lemma_percentile_monotonic(s, tenths, tenths, v, w);
    lemma_percentile_monotonic(s, tenths, tenths, w, v);
}

/// Every percentile lies between the minimum and the maximum.
pub proof fn lemma_percentile_within(s: Seq<u64>, tenths: nat, v: u64, lo: u64, hi: u64)
    requires
        is_percentile(s, tenths, v),
        is_minimum(s, lo),
        is_maximum(s, hi),
    ensures
        lo <= v <= hi,
{
    lemma_rank_value_occurs(s, nearest_rank(s.len(), tenths), v);
    let i = choose|i: int| 0 <= i < s.len() && s[i] == v;
    assert(lo <= s[i] <= hi);
}

/// The mean, rounded up, lies between the minimum and the maximum.
pub proof fn lemma_mean_within(s: Seq<u64>, lo: u64, hi: u64)
    requires
        s.len() > 0,
        is_minimum(s, lo),
        is_maximum(s, hi),
    ensures
        lo <= mean_of(s) <= hi,
{
    lemma_total_at_least(s, lo as int);
    lemma_total_at_most(s, hi as int);
    let n = s.len() as int;
    let t = total(s) as int;
    assert((t + n - 1) / n <= hi) by (nonlinear_arith)
        requires
            n >= 1,
            t <= n * hi,
    ;
    assert((t + n - 1) / n >= lo) by (nonlinear_arith)
        requires
            n >= 1,
            t >= n * lo,
    ;
}

} // verus!
