//! The least and the greatest sample of each of a number of buckets, for
//! plots of long series: no peak is lost, and the number of points is bounded.

use crate::bits;
use crate::slices;
use vstd::prelude::*;

verus! {

/// Where bucket `b` of `buckets` starts in a series of `n` samples; for the
/// number of buckets, the end of the series.
pub open spec fn bucket_start(b: int, n: int, buckets: int) -> int {
    (b * n) / buckets
}

/// The first least number from `from` up to `to`; positive infinity where
/// there is none below it.
pub open spec fn lowest(data: Seq<u64>, from: int, to: int) -> u64
    decreases to - from,
{
    if to <= from {
        bits::INFINITY
    } else {
        let m = lowest(data, from, to - 1);
        if bits::num_lt(data[to - 1], m) {
            data[to - 1]
        } else {
            m
        }
    }
}

/// The first greatest number from `from` up to `to`; negative infinity where
/// there is none above it.
pub open spec fn highest(data: Seq<u64>, from: int, to: int) -> u64
    decreases to - from,
{
    if to <= from {
        bits::NEG_INFINITY
    } else {
        let m = highest(data, from, to - 1);
        if bits::num_lt(m, data[to - 1]) {
            data[to - 1]
        } else {
            m
        }
    }
}

/// Whether a series is cut into buckets: it has more samples than the two
/// points of each bucket. Otherwise it is short enough as it is.
pub open spec fn bucketed(n: int, buckets: int) -> bool {
    0 < buckets && 2 * buckets < n
}

/// The least sample of each bucket.
pub open spec fn bucket_lows(data: Seq<u64>, buckets: int) -> Seq<u64> {
    let n = data.len() as int;
    if bucketed(n, buckets) {
        Seq::new(
            buckets as nat,
            |b: int| lowest(
                data,
                bucket_start(b, n, buckets),
                bucket_start(b + 1, n, buckets),
            ),
        )
    } else {
        data
    }
}

/// The greatest sample of each bucket.
pub open spec fn bucket_highs(data: Seq<u64>, buckets: int) -> Seq<u64> {
    let n = data.len() as int;
    if bucketed(n, buckets) {
        Seq::new(
            buckets as nat,
            |b: int| highest(
                data,
                bucket_start(b, n, buckets),
                bucket_start(b + 1, n, buckets),
            ),
        )
    } else {
        data
    }
}

/// The buckets tile the series: the first starts at its start, the last ends
/// at its end, and none is empty.
pub proof fn law_buckets_tile(b: int, n: int, buckets: int)
    requires
        bucketed(n, buckets),
        0 <= b < buckets,
    ensures
        bucket_start(0, n, buckets) == 0,
        bucket_start(buckets, n, buckets) == n,
        0 <= bucket_start(b, n, buckets) < bucket_start(b + 1, n, buckets) <= n,
{
    assert((0 * n) / buckets == 0) by (nonlinear_arith)
        requires
            buckets > 0,
    ;
    assert(buckets * n == n * buckets) by (nonlinear_arith);
    vstd::arithmetic::div_mod::lemma_div_by_multiple(n, buckets);
    assert(0 <= b * n && b * n + n == (b + 1) * n && (b + 1) * n <= buckets * n)
        by (nonlinear_arith)
        requires
            0 <= b < buckets,
            n > 0,
    ;
    vstd::arithmetic::div_mod::lemma_div_is_ordered((b + 1) * n, buckets * n, buckets);
    vstd::arithmetic::div_mod::lemma_div_is_ordered(b * n + buckets, (b + 1) * n, buckets);
    vstd::arithmetic::div_mod::lemma_div_plus_one(b * n, buckets);
    vstd::arithmetic::div_mod::lemma_div_pos_is_pos(b * n, buckets);
}

/// No number of a bucket lies below its least or above its greatest sample,
/// and where the bucket has a number, both are numbers of it.
pub proof fn law_bucket_bounds(data: Seq<u64>, from: int, to: int, i: int)
    requires
        from <= i < to,
        !bits::nan(data[i]),
    ensures
        bits::num_le(lowest(data, from, to), data[i]),
        bits::num_le(data[i], highest(data, from, to)),
        exists|j: int| from <= j < to && #[trigger] data[j] == lowest(data, from, to),
        exists|j: int| from <= j < to && #[trigger] data[j] == highest(data, from, to),
{
    lemma_lowest(data, from, to);
    lemma_highest(data, from, to);
}

proof fn lemma_lowest(data: Seq<u64>, from: int, to: int)
    ensures
        !bits::nan(lowest(data, from, to)),
        forall|i: int|
            from <= i < to && !bits::nan(#[trigger] data[i]) ==> bits::num_le(
                lowest(data, from, to),
                data[i],
            ),
        lowest(data, from, to) == bits::INFINITY || exists|j: int|
            from <= j < to && #[trigger] data[j] == lowest(data, from, to),
    decreases to - from,
{
    if from < to {
        lemma_lowest(data, from, to - 1);
        let m = lowest(data, from, to);
        if m != bits::INFINITY {
            if m == data[to - 1] {
                assert(from <= to - 1 < to && data[to - 1] == m);
            } else {
                let j = choose|j: int| from <= j < to - 1 && #[trigger] data[j] == m;
                assert(from <= j < to && data[j] == m);
            }
        }
    }
}

proof fn lemma_highest(data: Seq<u64>, from: int, to: int)
    ensures
        !bits::nan(highest(data, from, to)),
        forall|i: int|
            from <= i < to && !bits::nan(#[trigger] data[i]) ==> bits::num_le(
                data[i],
                highest(data, from, to),
            ),
        highest(data, from, to) == bits::NEG_INFINITY || exists|j: int|
            from <= j < to && #[trigger] data[j] == highest(data, from, to),
    decreases to - from,
{
    if from < to {
        lemma_highest(data, from, to - 1);
        let m = highest(data, from, to);
        if m != bits::NEG_INFINITY {
            if m == data[to - 1] {
                assert(from <= to - 1 < to && data[to - 1] == m);
            } else {
                let j = choose|j: int| from <= j < to - 1 && #[trigger] data[j] == m;
                assert(from <= j < to && data[j] == m);
            }
        }
    }
}

proof fn lemma_bucket_of(i: int, n: int, buckets: int, k: int) -> (b: int)
    requires
        bucketed(n, buckets),
        0 <= i,
        0 < k <= buckets,
        i < bucket_start(k, n, buckets),
    ensures
        0 <= b < k,
        bucket_start(b, n, buckets) <= i < bucket_start(b + 1, n, buckets),
    decreases k,
{
    law_buckets_tile(k - 1, n, buckets);
    if bucket_start(k - 1, n, buckets) <= i {
        k - 1
    } else {
        if k == 1 {
            assert(false);
        }
        lemma_bucket_of(i, n, buckets, k - 1)
    }
}

/// No peak is lost: every number of the series lies between the least and the
/// greatest sample of some bucket.
pub proof fn law_peaks_kept(data: Seq<u64>, buckets: int, i: int)
    requires
        0 <= i < data.len(),
        !bits::nan(data[i]),
    ensures
        bucket_lows(data, buckets).len() == bucket_highs(data, buckets).len(),
        exists|b: int|
            0 <= b < bucket_lows(data, buckets).len() && bits::num_le(
                #[trigger] bucket_lows(data, buckets)[b],
                data[i],
            ) && bits::num_le(data[i], bucket_highs(data, buckets)[b]),
{
    let n = data.len() as int;
    if bucketed(n, buckets) {
        law_buckets_tile(0, n, buckets);
        let b = lemma_bucket_of(i, n, buckets, buckets);
        let from = bucket_start(b, n, buckets);
        let to = bucket_start(b + 1, n, buckets);
        law_bucket_bounds(data, from, to, i);
        assert(bucket_lows(data, buckets)[b] == lowest(data, from, to));
        assert(bucket_highs(data, buckets)[b] == highest(data, from, to));
    } else {
        assert(bits::num_le(bucket_lows(data, buckets)[i], data[i]));
    }
}

/// The number of points is bounded: one pair for each bucket, or for each
/// sample where there are no more of them than two for each bucket.
pub proof fn law_points_bounded(data: Seq<u64>, buckets: int)
    requires
        buckets > 0,
    ensures
        bucket_lows(data, buckets).len() == bucket_highs(data, buckets).len(),
        bucket_lows(data, buckets).len() == if data.len() <= 2 * buckets {
            data.len() as int
        } else {
            buckets
        },
{
}

fn start_of(b: usize, n: usize, buckets: usize) -> (r: usize)
    requires
        bucketed(n as int, buckets as int),
        b <= buckets,
    ensures
        r == bucket_start(b as int, n as int, buckets as int),
        r <= n,
{
    assert(b * n <= u128::MAX) by (nonlinear_arith)
        requires
            0 <= b <= u64::MAX,
            0 <= n <= u64::MAX,
    ;
    proof {
        if b < buckets {
            law_buckets_tile(b as int, n as int, buckets as int);
        } else {
            law_buckets_tile(0, n as int, buckets as int);
        }
    }
    let at: u128 = (b as u128 * n as u128) / buckets as u128;
    at as usize
}

/// The least and the greatest sample of each bucket; the samples themselves,
/// twice, where there are no more of them than two for each bucket.
pub fn min_max_decimate(samples: &[u64], n_buckets: usize) -> (r: (Vec<u64>, Vec<u64>))
    ensures
        r.0@ == bucket_lows(samples@, n_buckets as int),
        r.1@ == bucket_highs(samples@, n_buckets as int),
{
    let n: usize = samples.len();
    if n_buckets == 0 || n <= n_buckets || n - n_buckets <= n_buckets {
        return (slices::copy_all(samples), slices::copy_all(samples));
    }
    let mut mins: Vec<u64> = Vec::new();
    let mut maxs: Vec<u64> = Vec::new();
    for b in 0..n_buckets
        invariant
            n == samples@.len(),
            bucketed(n as int, n_buckets as int),
            mins@ == bucket_lows(samples@, n_buckets as int).take(b as int),
            maxs@ == bucket_highs(samples@, n_buckets as int).take(b as int),
    {
        let start: usize = start_of(b, n, n_buckets);
        let end: usize = start_of(b + 1, n, n_buckets);
        proof {
            law_buckets_tile(b as int, n as int, n_buckets as int);
        }
        let mut low: u64 = bits::INFINITY;
        let mut high: u64 = bits::NEG_INFINITY;
        for i in start..end
            invariant
                end <= samples@.len(),
                low == lowest(samples@, start as int, i as int),
                high == highest(samples@, start as int, i as int),
        {
            let v: u64 = samples[i];
            if bits::below(v, low) {
                low = v;
            }
            if bits::below(high, v) {
                high = v;
            }
        }
        mins.push(low);
        maxs.push(high);
        assert(mins@ =~= bucket_lows(samples@, n_buckets as int).take(b + 1));
        assert(maxs@ =~= bucket_highs(samples@, n_buckets as int).take(b + 1));
    }
    assert(mins@ =~= bucket_lows(samples@, n_buckets as int));
    assert(maxs@ =~= bucket_highs(samples@, n_buckets as int));
    (mins, maxs)
}

proof fn lemma_first_lowest(data: Seq<u64>, from: int, to: int, j: int)
    requires
        from <= j < to,
        !bits::nan(data[j]),
        forall|i: int| #![trigger data[i]]
            from <= i < j ==> bits::nan(data[i]) || bits::num_lt(data[j], data[i]),
        forall|i: int| #![trigger data[i]]
            j <= i < to ==> bits::nan(data[i]) || bits::num_le(data[j], data[i]),
    ensures
        lowest(data, from, to) == data[j],
    decreases to - from,
{
    if to - 1 == j {
        lemma_lowest(data, from, j);
        let m = lowest(data, from, j);
        if !bits::num_lt(data[j], m) {
            if m == bits::INFINITY {
                assert(bits::num_le(data[j], m));
            } else {
                let i = choose|i: int| from <= i < j && #[trigger] data[i] == m;
                assert(data[i] == m);
            }
        }
    } else {
        lemma_first_lowest(data, from, to - 1, j);
        assert(bits::nan(data[to - 1]) || bits::num_le(data[j], data[to - 1]));
    }
}

proof fn lemma_first_highest(data: Seq<u64>, from: int, to: int, j: int)
    requires
        from <= j < to,
        !bits::nan(data[j]),
        forall|i: int| #![trigger data[i]]
            from <= i < j ==> bits::nan(data[i]) || bits::num_lt(data[i], data[j]),
        forall|i: int| #![trigger data[i]]
            j <= i < to ==> bits::nan(data[i]) || bits::num_le(data[i], data[j]),
    ensures
        highest(data, from, to) == data[j],
    decreases to - from,
{
    if to - 1 == j {
        lemma_highest(data, from, j);
        let m = highest(data, from, j);
        if !bits::num_lt(m, data[j]) {
            if m == bits::NEG_INFINITY {
                assert(bits::num_le(m, data[j]));
            } else {
                let i = choose|i: int| from <= i < j && #[trigger] data[i] == m;
                assert(data[i] == m);
            }
        }
    } else {
        lemma_first_highest(data, from, to - 1, j);
        assert(bits::nan(data[to - 1]) || bits::num_le(data[to - 1], data[j]));
    }
}

proof fn lemma_no_numbers(data: Seq<u64>, from: int, to: int)
    requires
        forall|i: int| from <= i < to ==> bits::nan(#[trigger] data[i]),
    ensures
        lowest(data, from, to) == 0x7FF0_0000_0000_0000,
        highest(data, from, to) == 0xFFF0_0000_0000_0000,
    decreases to - from,
{
    if from < to {
        lemma_no_numbers(data, from, to - 1);
        assert(bits::nan(data[to - 1]));
    }
}

/// Bucket `b` of a series that is cut holds the samples from the place
/// `b * n / buckets` up to the place where the next one starts. Its points are
/// its first least and its first greatest number.
pub proof fn law_bucket_points(
    data: Seq<u64>,
    buckets: int,
    b: int,
    from: int,
    to: int,
    low: int,
    high: int,
)
    requires
        0 <= b < buckets,
        2 * buckets < data.len(),
        from * buckets <= b * data.len() < (from + 1) * buckets,
        to * buckets <= (b + 1) * data.len() < (to + 1) * buckets,
        from <= low < to,
        !bits::nan(data[low]),
        forall|i: int| #![trigger data[i]]
            from <= i < low ==> bits::nan(data[i]) || bits::num_lt(data[low], data[i]),
        forall|i: int| #![trigger data[i]]
            low <= i < to ==> bits::nan(data[i]) || bits::num_le(data[low], data[i]),
        from <= high < to,
        !bits::nan(data[high]),
        forall|i: int| #![trigger data[i]]
            from <= i < high ==> bits::nan(data[i]) || bits::num_lt(data[i], data[high]),
        forall|i: int| #![trigger data[i]]
            high <= i < to ==> bits::nan(data[i]) || bits::num_le(data[i], data[high]),
    ensures
        bucket_lows(data, buckets).len() == buckets,
        bucket_highs(data, buckets).len() == buckets,
        bucket_lows(data, buckets)[b] == data[low],
        bucket_highs(data, buckets)[b] == data[high],
{
    lemma_start(data.len() as int, buckets, b, from);
    lemma_start(data.len() as int, buckets, b + 1, to);
    lemma_first_lowest(data, from, to, low);
    lemma_first_highest(data, from, to, high);
}

proof fn lemma_start(n: int, buckets: int, b: int, at: int)
    requires
        buckets > 0,
        at * buckets <= b * n < (at + 1) * buckets,
    ensures
        bucket_start(b, n, buckets) == at,
{
    let r = b * n - at * buckets;
    assert((at + 1) * buckets == at * buckets + buckets) by (nonlinear_arith);
    assert(b * n == at * buckets + r);
    vstd::arithmetic::div_mod::lemma_fundamental_div_mod_converse(b * n, buckets, at, r);
}

/// A bucket without a number has the infinities as its points.
pub proof fn law_bucket_without_numbers(
    data: Seq<u64>,
    buckets: int,
    b: int,
    from: int,
    to: int,
)
    requires
        0 <= b < buckets,
        2 * buckets < data.len(),
        from * buckets <= b * data.len() < (from + 1) * buckets,
        to * buckets <= (b + 1) * data.len() < (to + 1) * buckets,
        forall|i: int| from <= i < to ==> bits::nan(#[trigger] data[i]),
    ensures
        bucket_lows(data, buckets)[b] == 0x7FF0_0000_0000_0000,
        bucket_highs(data, buckets)[b] == 0xFFF0_0000_0000_0000,
{
    lemma_start(data.len() as int, buckets, b, from);
    lemma_start(data.len() as int, buckets, b + 1, to);
    lemma_no_numbers(data, from, to);
}

/// A series of no more samples than two for each bucket stays as it is, as does
/// every series without buckets.
pub proof fn law_short_series_stay(data: Seq<u64>, buckets: int)
    requires
        buckets <= 0 || data.len() <= 2 * buckets,
    ensures
        bucket_lows(data, buckets) == data,
        bucket_highs(data, buckets) == data,
{
}

} // verus!
