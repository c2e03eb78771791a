//! Statistics of one 8-bit channel: histogram, sum, extremes and median.

use vstd::prelude::*;

use crate::grid::total;

verus! {

/// Number of entries of `s` equal to `v`.
pub open spec fn count_eq(s: Seq<u8>, v: int) -> nat
    decreases s.len(),
{
    if s.len() == 0 {
        0
    } else {
        count_eq(s.drop_last(), v) + if s.last() == v {
            1nat
        } else {
            0nat
        }
    }
}

/// Number of entries of `s` that are at most `v`.
pub open spec fn count_le(s: Seq<u8>, v: int) -> nat
    decreases s.len(),
{
    if s.len() == 0 {
        0
    } else {
        count_le(s.drop_last(), v) + if s.last() <= v {
            1nat
        } else {
            0nat
        }
    }
}

/// The sum of the entries of `s`.
pub open spec fn seq_sum(s: Seq<u8>) -> int
    decreases s.len(),
{
    if s.len() == 0 {
        0
    } else {
        seq_sum(s.drop_last()) + s.last()
    }
}

/// `b` is the median of `s`: the smallest value such that at least half of the
/// entries (rounded up) are at most `b`, i.e. the ⌈n/2⌉-th smallest entry of the
/// `n` entries (0 when there are none).
pub open spec fn is_median(s: Seq<u8>, b: int) -> bool {
    &&& 0 <= b <= 255
    &&& count_le(s, b) >= (s.len() + 1) / 2
    &&& forall|c: int| 0 <= c < b ==> #[trigger] count_le(s, c) < (s.len() + 1) / 2
}

/// Integer statistics of one channel.
pub struct ChannelStats {
    /// Number of values.
    pub count: u64,
    /// Sum of the values.
    pub sum: u64,
    /// The smallest value, or 0 when there is none.
    pub min: u8,
    /// The largest value, or 255 when there is none.
    pub max: u8,
    /// The median: the ⌈n/2⌉-th smallest value, or 0 when there is none.
    pub median: u8,
    /// 256 bins: how often each value occurs.
    pub histogram: Vec<u32>,
}

pub proof fn lemma_count_eq_bound(s: Seq<u8>, v: int)
    ensures
        count_eq(s, v) <= s.len(),
    decreases s.len(),
{
    if s.len() > 0 {
        lemma_count_eq_bound(s.drop_last(), v);
    }
}

/// Stepping the bound of `count_le` up by one adds the entries equal to the new bound.
pub proof fn lemma_count_le_step(s: Seq<u8>, v: int)
    ensures
        count_le(s, v) == count_le(s, v - 1) + count_eq(s, v),
    decreases s.len(),
{
    if s.len() > 0 {
        lemma_count_le_step(s.drop_last(), v);
    }
}

/// Below every entry the count is 0; at or above every entry it is the length.
pub proof fn lemma_count_le_extremes(s: Seq<u8>, v: int)
    ensures
        (forall|i: int| 0 <= i < s.len() ==> s[i] > v) ==> count_le(s, v) == 0,
        (forall|i: int| 0 <= i < s.len() ==> s[i] <= v) ==> count_le(s, v) == s.len(),
        count_le(s, v) <= s.len(),
    decreases s.len(),
{
    if s.len() > 0 {
        lemma_count_le_extremes(s.drop_last(), v);
        if forall|i: int| 0 <= i < s.len() ==> s[i] > v {
            assert forall|i: int| 0 <= i < s.drop_last().len() implies s.drop_last()[i] > v by {
                assert(s.drop_last()[i] == s[i]);
            }
        }
        if forall|i: int| 0 <= i < s.len() ==> s[i] <= v {
            assert forall|i: int| 0 <= i < s.drop_last().len() implies s.drop_last()[i] <= v by {
                assert(s.drop_last()[i] == s[i]);
            }
        }
    }
}

/// The first `b + 1` bins of a histogram with exact counts add up to the number of
/// entries that are at most `b`.
pub proof fn lemma_total(s: Seq<u8>, h: Seq<u32>, b: int)
    requires
        -1 <= b < h.len(),
        forall|c: int| 0 <= c < h.len() ==> #[trigger] h[c] == count_eq(s, c),
    ensures
        total(h, b + 1) == count_le(s, b),
    decreases b + 1,
{
    if b >= 0 {
        lemma_total(s, h, b - 1);
        lemma_count_le_step(s, b);
    } else {
        lemma_count_le_extremes(s, b);
    }
}

pub proof fn lemma_seq_sum_bound(s: Seq<u8>)
    ensures
        0 <= seq_sum(s) <= 255 * s.len(),
    decreases s.len(),
{
    if s.len() > 0 {
        lemma_seq_sum_bound(s.drop_last());
    }
}

/// Histogram, sum, extremes and median of a sequence of byte values.
pub fn channel_stats(vals: &[u8]) -> (st: ChannelStats)
    requires
        vals@.len() <= u32::MAX,
    ensures
        st.count == vals@.len(),
        st.sum == seq_sum(vals@),
        st.histogram@.len() == 256,
        forall|b: int| 0 <= b < 256 ==> #[trigger] st.histogram@[b] == count_eq(vals@, b),
        total(st.histogram@, 256) == vals@.len(),
        vals@.len() == 0 ==> st.min == 0 && st.max == 255,
        vals@.len() > 0 ==> vals@.contains(st.min) && vals@.contains(st.max),
        forall|i: int| 0 <= i < vals@.len() ==> st.min <= #[trigger] vals@[i] <= st.max,
        is_median(vals@, st.median as int),
        vals@.len() >= 1 ==> st.min <= st.median <= st.max,
{
    let n = vals.len();
    let mut hist: Vec<u32> = Vec::new();
    let mut b: usize = 0;
    while b < 256
        invariant
            b <= 256,
            hist@.len() == b,
            forall|c: int| 0 <= c < b ==> #[trigger] hist@[c] == 0,
        decreases 256 - b,
    {
        hist.push(0);
        b = b + 1;
    }
    let mut sum: u64 = 0;
    let mut k: usize = 0;
    proof {
        assert(vals@.take(0) =~= Seq::<u8>::empty());
    }
    while k < n
        invariant
            n == vals@.len(),
            n <= u32::MAX,
            k <= n,
            hist@.len() == 256,
            forall|c: int| 0 <= c < 256 ==> #[trigger] hist@[c] == count_eq(vals@.take(k as int), c),
            sum == seq_sum(vals@.take(k as int)),
        decreases n - k,
    {
        let v = vals[k];
        proof {
            let t = vals@.take(k as int + 1);
            assert(t.drop_last() =~= vals@.take(k as int));
            assert(t.last() == v);
            lemma_count_eq_bound(vals@.take(k as int), v as int);
            lemma_seq_sum_bound(vals@.take(k as int));
        }
        let old_count = hist[v as usize];
        hist.set(v as usize, old_count + 1);
        sum = sum + v as u64;
        k = k + 1;
    }
    proof {
        assert(vals@.take(n as int) =~= vals@);
        lemma_total(vals@, hist@, 255);
        lemma_count_le_extremes(vals@, 255);
    }
    // Extremes.
    let mut min: u8 = 0;
    let mut max: u8 = 255;
    if n > 0 {
        min = vals[0];
        max = vals[0];
        let mut min_at: usize = 0;
        let mut max_at: usize = 0;
        let mut i: usize = 1;
        while i < n
            invariant
                n == vals@.len(),
                1 <= i <= n,
                min_at < i,
                max_at < i,
                vals@[min_at as int] == min,
                vals@[max_at as int] == max,
                forall|j: int| 0 <= j < i ==> min <= #[trigger] vals@[j] <= max,
            decreases n - i,
        {
            if vals[i] < min {
                min = vals[i];
                min_at = i;
            }
            if vals[i] > max {
                max = vals[i];
                max_at = i;
            }
            i = i + 1;
        }
        proof {
            assert(vals@[min_at as int] == min);
            assert(vals@[max_at as int] == max);
        }
    }
    // Median from the cumulative histogram.
    let half: u64 = (n / 2 + n % 2) as u64;
    let mut cum: u64 = 0;
    let mut i: usize = 0;
    proof {
        lemma_count_le_extremes(vals@, -1);
        assert forall|c: int| 0 <= c < 256 implies #[trigger] hist@[c] <= n by {
            lemma_count_eq_bound(vals@, c);
        }
    }
    while i < 256 && cum + (hist[i] as u64) < half
        invariant
            n == vals@.len(),
            n <= u32::MAX,
            half == (n + 1) / 2,
            i <= 256,
            hist@.len() == 256,
            forall|c: int| 0 <= c < 256 ==> #[trigger] hist@[c] == count_eq(vals@, c),
            cum == count_le(vals@, i - 1),
            cum <= n,
            forall|c: int| 0 <= c < 256 ==> #[trigger] hist@[c] <= n,
            forall|c: int| 0 <= c < i ==> #[trigger] count_le(vals@, c) < (n + 1) / 2,
        decreases 256 - i,
    {
        proof {
            lemma_count_le_step(vals@, i as int);
        }
        cum = cum + hist[i] as u64;
        i = i + 1;
    }
    proof {
        lemma_count_le_extremes(vals@, 255);
        if i == 256 {
            assert(count_le(vals@, 255) < (n + 1) / 2);
            assert(false);
        }
        lemma_count_le_step(vals@, i as int);
    }
    let median = i as u8;
    proof {
        if n >= 1 {
            lemma_count_le_extremes(vals@, max as int);
            if median > max {
                assert(count_le(vals@, max as int) < (n + 1) / 2);
            }
        }
        if n >= 1 && median < min {
            lemma_count_le_extremes(vals@, median as int);
        }
    }
    ChannelStats { count: n as u64, sum, min, max, median, histogram: hist }
}

} // verus!
