//! Counting statistics over a range of bytes: how often each value occurs,
//! the extremes, the sum, how many distinct values, and the most common one.
//! The frontend derives the mean and the Shannon entropy from these counts.

use vstd::prelude::*;

verus! {

/// How many times `v` occurs in `s`.
pub open spec fn count_of(s: Seq<u8>, v: int) -> nat
    decreases s.len(),
{
    if s.len() == 0 { 0 } else { count_of(s.drop_last(), v) + if s.last() == v { 1nat } else { 0nat } }
}

/// The smallest byte of a non-empty sequence.
pub open spec fn seq_min(s: Seq<u8>) -> u8
    decreases s.len(),
{
    if s.len() <= 1 { s[0] } else if s.last() < seq_min(s.drop_last()) { s.last() } else { seq_min(s.drop_last()) }
}

/// The largest byte of a non-empty sequence.
pub open spec fn seq_max(s: Seq<u8>) -> u8
    decreases s.len(),
{
    if s.len() <= 1 { s[0] } else if s.last() > seq_max(s.drop_last()) { s.last() } else { seq_max(s.drop_last()) }
}

/// The sum of the bytes.
pub open spec fn seq_sum(s: Seq<u8>) -> nat
    decreases s.len(),
{
    if s.len() == 0 { 0 } else { seq_sum(s.drop_last()) + s.last() as nat }
}

/// How many of the first `k` histogram entries are non-zero.
pub open spec fn distinct_upto(h: Seq<u32>, k: int) -> nat
    decreases k,
{
    if k <= 0 { 0 } else { distinct_upto(h, k - 1) + if h[k - 1] > 0 { 1nat } else { 0nat } }
}

/// The most frequent value among the first `k` histogram entries and its
/// count; the smallest such value on a tie, `(0, 0)` when all are zero.
pub open spec fn most_common_upto(h: Seq<u32>, k: int) -> (u8, u32)
    decreases k,
{
    if k <= 0 {
        (0, 0)
    } else {
        let prev = most_common_upto(h, k - 1);
        if h[k - 1] > prev.1 { ((k - 1) as u8, h[k - 1]) } else { prev }
    }
}

/// How many bytes have a value below `k`.
pub open spec fn count_below(s: Seq<u8>, k: int) -> nat
    decreases k,
{
    if k <= 0 { 0 } else { count_below(s, k - 1) + count_of(s, k - 1) }
}

/// Whether no byte value occurs more than `u32::MAX` times.
pub open spec fn counts_fit_u32(s: Seq<u8>) -> bool {
    forall|v: int| 0 <= v < 256 ==> #[trigger] count_of(s, v) <= u32::MAX
}

/// Every byte has a value below 256, so the counts of all values add up to
/// the length.
proof fn lemma_count_below_len(s: Seq<u8>, k: int)
    requires
        0 <= k <= 256,
    ensures
        count_below(s, k) <= s.len(),
        k == 256 ==> count_below(s, k) == s.len(),
    decreases s.len(), k,
{
    if s.len() > 0 {
        let d = s.drop_last();
        lemma_count_below_split(s, k);
        lemma_count_below_len(d, k);
    } else {
        lemma_count_below_zero(s, k);
    }
}

/// With no bytes, no value is counted.
proof fn lemma_count_below_zero(s: Seq<u8>, k: int)
    requires
        s.len() == 0,
    ensures
        count_below(s, k) == 0,
    decreases k,
{
    if k > 0 {
        lemma_count_below_zero(s, k - 1);
    }
}

/// Counting below `k` splits into the bytes before the last and the last.
proof fn lemma_count_below_split(s: Seq<u8>, k: int)
    requires
        s.len() > 0,
    ensures
        count_below(s, k) == count_below(s.drop_last(), k) + if 0 <= s.last() < k { 1nat } else { 0nat },
    decreases k,
{
    if k > 0 {
        lemma_count_below_split(s, k - 1);
    }
}

/// When each value occurs at most `u32::MAX` times, values below `k` occur
/// at most `k * u32::MAX` times together.
proof fn lemma_count_below_bound(s: Seq<u8>, k: int)
    requires
        0 <= k <= 256,
        counts_fit_u32(s),
    ensures
        count_below(s, k) <= k * 0xFFFF_FFFF,
    decreases k,
{
    if k > 0 {
        lemma_count_below_bound(s, k - 1);
        assert(count_of(s, k - 1) <= u32::MAX);
    }
}

/// A prefix holds no more occurrences of a value than the whole.
proof fn lemma_count_prefix(s: Seq<u8>, i: int, v: int)
    requires
        0 <= i <= s.len(),
    ensures
        count_of(s.subrange(0, i), v) <= count_of(s, v),
    decreases s.len() - i,
{
    if i < s.len() {
        lemma_count_prefix(s, i + 1, v);
        let next = s.subrange(0, i + 1);
        assert(next.drop_last() =~= s.subrange(0, i));
    } else {
        assert(s.subrange(0, i) =~= s);
    }
}

/// Whether no byte value occurs more than `u32::MAX` times, so that
/// `byte_counts` can count them.
pub fn counts_fit(bytes: &[u8]) -> (r: bool)
    ensures
        r == counts_fit_u32(bytes@),
{
    let mut counts: Vec<u64> = Vec::new();
    let mut v: usize = 0;
    while v < 256
        invariant
            v <= 256,
            counts.len() == v,
            forall|w: int| 0 <= w < v ==> #[trigger] counts@[w] == 0,
        decreases 256 - v,
    {
        counts.push(0);
        v = v + 1;
    }
    let n = bytes.len();
    let mut i: usize = 0;
    while i < n
        invariant
            n == bytes.len(),
            i <= n,
            counts.len() == 256,
            forall|w: int| 0 <= w < 256 ==> #[trigger] counts@[w] == count_of(bytes@.subrange(0, i as int), w),
            forall|w: int| 0 <= w < 256 ==> #[trigger] counts@[w] <= i,
        decreases n - i,
    {
        let b = bytes[i];
        let ghost prev = bytes@.subrange(0, i as int);
        let ghost next = bytes@.subrange(0, i + 1);
        assert(next.drop_last() =~= prev);
        let c = counts[b as usize];
        counts.set(b as usize, c + 1);
        i = i + 1;
        assert forall|w: int| 0 <= w < 256 implies #[trigger] counts@[w] == count_of(bytes@.subrange(0, i as int), w) by {
            assert(count_of(next, w) == count_of(prev, w) + if b == w { 1nat } else { 0nat });
        }
    }
    assert(bytes@.subrange(0, n as int) =~= bytes@);
    let mut k: usize = 0;
    while k < 256
        invariant
            k <= 256,
            counts.len() == 256,
            forall|w: int| 0 <= w < 256 ==> #[trigger] counts@[w] == count_of(bytes@, w),
            forall|w: int| 0 <= w < k ==> #[trigger] count_of(bytes@, w) <= u32::MAX,
        decreases 256 - k,
    {
        if counts[k] > 0xFFFF_FFFF {
            return false;
        }
        k = k + 1;
    }
    true
}

/// Counting statistics for a non-empty range of bytes.
pub struct ByteCounts {
    pub count: usize,
    pub min: u8,
    pub max: u8,
    pub sum: u64,
    /// Number of distinct byte values present (1..=256).
    pub distinct: usize,
    /// Count of each byte value 0..=255.
    pub histogram: Vec<u32>,
    /// The most frequently occurring byte value (the smallest on a tie).
    pub most_common: u8,
    /// How many times `most_common` occurs.
    pub most_common_count: u32,
}

/// Count the bytes of a range. Returns `None` for an empty range.
pub fn byte_counts(bytes: &[u8]) -> (r: Option<ByteCounts>)
    requires
        counts_fit_u32(bytes@),
    ensures
        r is None <==> bytes.len() == 0,
        r matches Some(c) ==> {
            &&& c.count == bytes.len()
            &&& c.min == seq_min(bytes@)
            &&& c.max == seq_max(bytes@)
            &&& c.sum == seq_sum(bytes@)
            &&& c.histogram.len() == 256
            &&& forall|v: int| 0 <= v < 256 ==> #[trigger] c.histogram@[v] == count_of(bytes@, v)
            &&& c.distinct == distinct_upto(c.histogram@, 256)
            &&& (c.most_common, c.most_common_count) == most_common_upto(c.histogram@, 256)
        },
{
    let n = bytes.len();
    if n == 0 {
        return None;
    }
    proof {
        lemma_count_below_len(bytes@, 256);
        lemma_count_below_bound(bytes@, 256);
    }
    let mut histogram: Vec<u32> = Vec::new();
    let mut v: usize = 0;
    while v < 256
        invariant
            v <= 256,
            histogram.len() == v,
            forall|w: int| 0 <= w < v ==> #[trigger] histogram@[w] == 0,
        decreases 256 - v,
    {
        histogram.push(0);
        v = v + 1;
    }
    let mut sum: u64 = 0;
    let mut min: u8 = bytes[0];
    let mut max: u8 = bytes[0];
    let mut i: usize = 0;
    while i < n
        invariant
            n == bytes.len(),
            n <= 256 * 0xFFFF_FFFFnat,
            counts_fit_u32(bytes@),
            0 < n,
            i <= n,
            histogram.len() == 256,
            forall|w: int| 0 <= w < 256 ==> #[trigger] histogram@[w] == count_of(bytes@.subrange(0, i as int), w),
            forall|w: int| 0 <= w < 256 ==> #[trigger] histogram@[w] <= i,
            sum == seq_sum(bytes@.subrange(0, i as int)),
            sum <= 255 * i,
            i > 0 ==> min == seq_min(bytes@.subrange(0, i as int)),
            i > 0 ==> max == seq_max(bytes@.subrange(0, i as int)),
            i == 0 ==> min == bytes@[0] && max == bytes@[0],
        decreases n - i,
    {
        let b = bytes[i];
        let ghost prev = bytes@.subrange(0, i as int);
        let ghost next = bytes@.subrange(0, i + 1);
        assert(next.drop_last() =~= prev);
        assert(next.last() == b);
        proof {
            lemma_count_prefix(bytes@, i + 1, b as int);
            assert(count_of(next, b as int) == count_of(prev, b as int) + 1);
        }
        let old_count = histogram[b as usize];
        histogram.set(b as usize, old_count + 1);
        sum = sum + b as u64;
        if i > 0 {
            if b < min {
                min = b;
            }
            if b > max {
                max = b;
            }
        }
        i = i + 1;
        assert forall|w: int| 0 <= w < 256 implies #[trigger] histogram@[w] == count_of(bytes@.subrange(0, i as int), w) by {
            assert(count_of(next, w) == count_of(prev, w) + if b == w { 1nat } else { 0nat });
        }
    }
    assert(bytes@.subrange(0, n as int) =~= bytes@);
    let mut distinct: usize = 0;
    let mut most_common: u8 = 0;
    let mut most_common_count: u32 = 0;
    let mut k: usize = 0;
    while k < 256
        invariant
            k <= 256,
            histogram.len() == 256,
            distinct == distinct_upto(histogram@, k as int),
            distinct <= k,
            (most_common, most_common_count) == most_common_upto(histogram@, k as int),
        decreases 256 - k,
    {
        let c = histogram[k];
        if c > 0 {
            distinct = distinct + 1;
        }
        if c > most_common_count {
            most_common_count = c;
            most_common = k as u8;
        }
        k = k + 1;
    }
    Some(ByteCounts { count: n, min, max, sum, distinct, histogram, most_common, most_common_count })
}

} // verus!
