//! The greatest and the least sample of a window that slides over a series.
//!
//! Samples are doubles, held as their bits. A NaN compares with nothing, so a
//! window counts up to its first NaN; a window that starts with a NaN has that
//! NaN as its extremum.

use crate::bits;
use std::collections::VecDeque;
use vstd::prelude::*;

verus! {

/// Whether `b` takes the place of `a` as the extremum: it is no smaller for a
/// maximum (`up`), no greater for a minimum.
pub open spec fn covers(up: bool, a: u64, b: u64) -> bool {
    if up {
        bits::num_le(a, b)
    } else {
        bits::num_le(b, a)
    }
}

/// Whether no sample from `from` up to `to` is a NaN.
pub open spec fn clean(data: Seq<u64>, from: int, to: int) -> bool {
    forall|i: int| from <= i < to ==> !bits::nan(#[trigger] data[i])
}

/// The place of the extremum of the samples from `from` up to `to`: the last
/// greatest, or the last least, before the first NaN.
pub open spec fn extremum(up: bool, data: Seq<u64>, from: int, to: int) -> int
    decreases to - from,
{
    if to <= from + 1 {
        from
    } else {
        let p = extremum(up, data, from, to - 1);
        if clean(data, from, to) && covers(up, data[p], data[to - 1]) {
            to - 1
        } else {
            p
        }
    }
}

/// The greatest and the least sample of a window.
#[derive(Debug, Clone, Copy, PartialEq, Eq, Structural)]
pub struct Span {
    pub high: u64,
    pub low: u64,
}

/// The span of the samples from `from` up to `to`.
pub open spec fn span_of(data: Seq<u64>, from: int, to: int) -> Span {
    Span {
        high: data[extremum(true, data, from, to)],
        low: data[extremum(false, data, from, to)],
    }
}

/// How many windows there are, `step` samples apart.
pub open spec fn window_count(len: int, n: int, step: int) -> int {
    if n <= 0 || len < n {
        0
    } else {
        (len - n) / step + 1
    }
}

/// The spans of the windows of `n` samples, `step` samples apart.
pub open spec fn spans(data: Seq<u64>, n: int, step: int) -> Seq<Span> {
    Seq::new(
        window_count(data.len() as int, n, step) as nat,
        |m: int| span_of(data, m * step, m * step + n),
    )
}

/// Whether no later sample before `end` takes the place of sample `k`.
pub open spec fn leads(up: bool, data: Seq<u64>, k: int, end: int) -> bool {
    bits::nan(data[k]) || forall|j: int|
        k < j < end && clean(data, k, j + 1) ==> !covers(up, data[k], #[trigger] data[j])
}

/// The extremum of samples without a NaN is one of them, and none is beyond
/// it.
pub proof fn law_extremum(up: bool, data: Seq<u64>, from: int, to: int)
    requires
        from < to,
        clean(data, from, to),
    ensures
        from <= extremum(up, data, from, to) < to,
        forall|i: int|
            from <= i < to ==> covers(
                up,
                #[trigger] data[i],
                data[extremum(up, data, from, to)],
            ),
    decreases to - from,
{
    if from + 1 < to {
        assert(clean(data, from, to - 1));
        law_extremum(up, data, from, to - 1);
    }
    assert(!bits::nan(data[from]));
}

/// The extremum of any samples is that of those before the first NaN; a NaN in
/// front stands for itself.
pub proof fn law_extremum_stops(up: bool, data: Seq<u64>, from: int, stop: int, to: int)
    requires
        from <= stop < to,
        clean(data, from, stop),
        bits::nan(data[stop]),
    ensures
        extremum(up, data, from, to) == extremum(up, data, from, stop),
    decreases to - from,
{
    if to > from + 1 {
        assert(!clean(data, from, to)) by {
            assert(bits::nan(data[stop]));
        }
        if stop < to - 1 {
            law_extremum_stops(up, data, from, stop, to - 1);
        }
    }
}

/// The extremum leads, and nothing in front of it does.
proof fn lemma_extremum_leads(up: bool, data: Seq<u64>, from: int, to: int)
    requires
        from < to,
    ensures
        from <= extremum(up, data, from, to) < to,
        leads(up, data, extremum(up, data, from, to), to),
        forall|k: int|
            from <= k < extremum(up, data, from, to) ==> !#[trigger] leads(up, data, k, to),
    decreases to - from,
{
    let p = extremum(up, data, from, to);
    if to == from + 1 {
    } else {
        let q = extremum(up, data, from, to - 1);
        lemma_extremum_leads(up, data, from, to - 1);
        if clean(data, from, to) && covers(up, data[q], data[to - 1]) {
            assert(clean(data, from, to - 1));
            law_extremum(up, data, from, to - 1);
            assert forall|k: int| from <= k < p implies !#[trigger] leads(up, data, k, to) by {
                assert(covers(up, data[k], data[q]));
                assert(covers(up, data[k], data[to - 1]));
                assert(clean(data, k, to));
            }
        } else {
            assert(leads(up, data, p, to)) by {
                if !bits::nan(data[p]) {
                    assert forall|j: int|
                        p < j < to && clean(data, p, j + 1) implies !covers(
                        up,
                        data[p],
                        #[trigger] data[j],
                    ) by {
                        if j == to - 1 {
                            if !clean(data, from, to) {
                                let b = choose|b: int|
                                    from <= b < to && bits::nan(#[trigger] data[b]);
                                assert(b < p);
                                lemma_before_nan(up, data, from, b, to - 1);
                            }
                        }
                    }
                }
            }
            assert forall|k: int| from <= k < p implies !#[trigger] leads(up, data, k, to) by {
                assert(!leads(up, data, k, to - 1));
                let j = choose|j: int|
                    k < j < to - 1 && clean(data, k, j + 1) && covers(
                        up,
                        data[k],
                        #[trigger] data[j],
                    );
                assert(k < j < to && clean(data, k, j + 1) && covers(up, data[k], data[j]));
            }
        }
    }
}

/// The extremum does not lie behind a NaN.
proof fn lemma_before_nan(up: bool, data: Seq<u64>, from: int, b: int, to: int)
    requires
        from <= b < to,
        bits::nan(data[b]),
    ensures
        extremum(up, data, from, to) <= b,
    decreases to - from,
{
    if to > from + 1 {
        assert(!clean(data, from, to));
        if b < to - 1 {
            lemma_before_nan(up, data, from, b, to - 1);
        } else {
            lemma_in_range(up, data, from, to - 1);
        }
    }
}

proof fn lemma_in_range(up: bool, data: Seq<u64>, from: int, to: int)
    requires
        from < to,
    ensures
        from <= extremum(up, data, from, to) < to,
    decreases to - from,
{
    if to > from + 1 {
        lemma_in_range(up, data, from, to - 1);
    }
}

/// Whether the places ascend.
pub open spec fn ascending(s: Seq<usize>) -> bool {
    forall|i: int, j: int| 0 <= i < j < s.len() ==> s[i] < s[j]
}

/// Whether the queue holds just the places from `lo` on that lead the samples
/// before `end`, in ascending order.
pub open spec fn tracks(up: bool, data: Seq<u64>, q: Seq<usize>, lo: int, end: int) -> bool {
    ascending(q) && (forall|i: int|
        0 <= i < q.len() ==> lo <= #[trigger] q[i] < end && leads(up, data, q[i] as int, end))
        && (forall|k: int|
        lo <= k < end && #[trigger] leads(up, data, k, end) ==> exists|i: int|
            0 <= i < q.len() && #[trigger] q[i] == k)
}

proof fn lemma_front(up: bool, data: Seq<u64>, q: Seq<usize>, lo: int, end: int)
    requires
        tracks(up, data, q, lo, end),
        lo < end,
    ensures
        q.len() > 0,
        q[0] == extremum(up, data, lo, end),
{
    lemma_extremum_leads(up, data, lo, end);
    let p = extremum(up, data, lo, end);
    let i = choose|i: int| 0 <= i < q.len() && #[trigger] q[i] == p;
    assert(q[i] == p);
    if i > 0 {
        assert(q[0] < q[i]);
        assert(leads(up, data, q[0] as int, end));
    }
}

fn replaces(up: bool, a: u64, b: u64) -> (r: bool)
    ensures
        r == covers(up, a, b),
{
    if up {
        bits::at_most(a, b)
    } else {
        bits::at_most(b, a)
    }
}

/// Takes sample `i` into the queue of places that lead, and drops the place
/// that the window of `n` samples leaves behind.
fn advance(q: &mut VecDeque<usize>, up: bool, data: &[u64], i: usize, n: usize)
    requires
        n > 0,
        i < data@.len(),
        tracks(
            up,
            data@,
            old(q)@,
            if i >= n {
                i - n
            } else {
                0
            },
            i as int,
        ),
    ensures
        tracks(
            up,
            data@,
            final(q)@,
            if i + 1 >= n {
                i + 1 - n
            } else {
                0
            },
            i + 1,
        ),
{
    let ghost lo: int = if i >= n {
        i - n
    } else {
        0
    };
    let ghost was = q@;
    let v: u64 = data[i];
    while q.len() > 0 && replaces(up, data[q[q.len() - 1]], v)
        invariant
            v == data@[i as int],
            i < data@.len(),
            0 <= lo <= i,
            tracks(up, data@, was, lo, i as int),
            q@.len() <= was.len(),
            q@ == was.take(q@.len() as int),
            forall|k: int|
                q@.len() <= k < was.len() ==> covers(
                    up,
                    data@[(#[trigger] was[k]) as int],
                    v,
                ),
        decreases q@.len(),
    {
        let ghost before = q@;
        let ghost last = was[q@.len() - 1];
        assert(before[before.len() - 1] == last);
        let _gone: Option<usize> = q.pop_back();
        assert(q@ =~= was.take(q@.len() as int));
    }
    let ghost kept = q@.len() as int;
    q.push_back(i);
    proof {
        lemma_advance(up, data@, was, kept, q@, lo, i as int);
    }
    let ghost all = q@;
    if q.len() > 0 && i >= n && q[0] == i - n {
        let _gone: Option<usize> = q.pop_front();
        assert(q@ =~= all.skip(1));
    }
    proof {
        let now = if i + 1 >= n {
            i + 1 - n
        } else {
            0
        };
        lemma_drop_front(up, data@, all, q@, lo, now, i + 1);
    }
}

proof fn lemma_advance(
    up: bool,
    data: Seq<u64>,
    was: Seq<usize>,
    kept: int,
    q: Seq<usize>,
    lo: int,
    i: int,
)
    requires
        0 <= lo <= i < data.len(),
        tracks(up, data, was, lo, i),
        0 <= kept <= was.len(),
        q.len() == kept + 1,
        q[kept] == i,
        forall|k: int| 0 <= k < kept ==> #[trigger] q[k] == was[k],
        forall|k: int|
            kept <= k < was.len() ==> covers(up, data[(#[trigger] was[k]) as int], data[i]),
        kept > 0 ==> !covers(up, data[was[kept - 1] as int], data[i]),
    ensures
        tracks(up, data, q, lo, i + 1),
{
    let v = data[i];
    assert forall|a: int, b: int| 0 <= a < b < q.len() implies q[a] < q[b] by {
        if b < kept {
            assert(was[a] < was[b]);
        } else {
            assert(was[a] < i);
        }
    }
    assert forall|a: int| 0 <= a < q.len() implies lo <= #[trigger] q[a] < i + 1 && leads(
        up,
        data,
        q[a] as int,
        i + 1,
    ) by {
        if a < kept {
            let k = q[a] as int;
            assert(was[a] == k && leads(up, data, k, i));
            assert(leads(up, data, k, i + 1)) by {
                if !bits::nan(data[k]) && clean(data, k, i + 1) && covers(up, data[k], v) {
                    let back = was[kept - 1] as int;
                    if a < kept - 1 {
                        assert(was[a] < was[kept - 1]);
                        assert(clean(data, k, back + 1));
                        assert(!covers(up, data[k], data[back]));
                        assert(covers(up, data[back], v)) by {
                            assert(!bits::nan(data[back]));
                        }
                    }
                }
            }
        }
    }
    assert forall|k: int| lo <= k < i + 1 && #[trigger] leads(up, data, k, i + 1) implies exists|
        a: int,
    |
        0 <= a < q.len() && #[trigger] q[a] == k by {
        if k == i {
            assert(q[kept] == k);
        } else {
            assert(leads(up, data, k, i)) by {
                if !bits::nan(data[k]) {
                    assert forall|j: int| k < j < i && clean(data, k, j + 1) implies !covers(
                        up,
                        data[k],
                        #[trigger] data[j],
                    ) by {}
                }
            }
            let a = choose|a: int| 0 <= a < was.len() && #[trigger] was[a] == k;
            assert(was[a] == k);
            if a >= kept {
                assert(covers(up, data[k], v));
                assert(clean(data, k, i + 1)) by {
                    assert forall|m: int| k <= m < i + 1 implies !bits::nan(
                        #[trigger] data[m],
                    ) by {
                        if bits::nan(data[m]) && m < i {
                            assert(leads(up, data, m, i));
                            let b = choose|b: int| 0 <= b < was.len() && #[trigger] was[b] == m;
                            assert(was[b] == m);
                            if b < a {
                                assert(was[b] < was[a]);
                            }
                            assert(covers(up, data[was[b] as int], v));
                        }
                    }
                }
                assert(!covers(up, data[k], data[i]));
            }
            assert(q[a] == k);
        }
    }
}

proof fn lemma_drop_front(
    up: bool,
    data: Seq<u64>,
    all: Seq<usize>,
    q: Seq<usize>,
    lo: int,
    now: int,
    end: int,
)
    requires
        tracks(up, data, all, lo, end),
        now == lo || now == lo + 1,
        now == lo ==> q == all,
        now == lo + 1 ==> q == (if all.len() > 0 && all[0] == lo {
            all.skip(1)
        } else {
            all
        }),
    ensures
        tracks(up, data, q, now, end),
{
    if now == lo + 1 {
        if all.len() > 0 && all[0] == lo {
            assert forall|a: int, b: int| 0 <= a < b < q.len() implies q[a] < q[b] by {
                assert(all[a + 1] < all[b + 1]);
            }
            assert forall|a: int| 0 <= a < q.len() implies now <= #[trigger] q[a] < end && leads(
                up,
                data,
                q[a] as int,
                end,
            ) by {
                assert(q[a] == all[a + 1]);
                assert(all[0] < all[a + 1]);
            }
            assert forall|k: int| now <= k < end && #[trigger] leads(up, data, k, end) implies exists|
                a: int,
            |
                0 <= a < q.len() && #[trigger] q[a] == k by {
                let b = choose|b: int| 0 <= b < all.len() && #[trigger] all[b] == k;
                assert(all[b] == k);
                assert(q[b - 1] == k);
            }
        } else {
            assert forall|a: int| 0 <= a < q.len() implies now <= #[trigger] q[a] < end && leads(
                up,
                data,
                q[a] as int,
                end,
            ) by {
                if a > 0 {
                    assert(all[0] < all[a]);
                }
            }
        }
    }
}

/// The spans of the windows of `n_points` samples, `step_size` samples apart.
/// Every sample enters and leaves each queue once.
pub fn rolling_pkpk(data: &[u64], n_points: usize, step_size: usize) -> (r: Vec<Span>)
    requires
        n_points == 0 || data@.len() < n_points || step_size > 0,
    ensures
        r@ == spans(data@, n_points as int, step_size as int),
{
    let mut out: Vec<Span> = Vec::new();
    let total: usize = data.len();
    if n_points == 0 || total < n_points {
        assert(out@ =~= spans(data@, n_points as int, step_size as int));
        return out;
    }
    let mut max_q: VecDeque<usize> = VecDeque::new();
    let mut min_q: VecDeque<usize> = VecDeque::new();
    let mut wait: usize = 0;
    let ghost mut seen: int = 0;
    assert(0 * step_size == 0);
    for i in 0..total
        invariant
            total == data@.len(),
            0 < n_points <= total,
            step_size > 0,
            tracks(
                true,
                data@,
                max_q@,
                if i >= n_points {
                    i - n_points
                } else {
                    0
                },
                i as int,
            ),
            tracks(
                false,
                data@,
                min_q@,
                if i >= n_points {
                    i - n_points
                } else {
                    0
                },
                i as int,
            ),
            seen == if i >= n_points {
                i - n_points + 1
            } else {
                0
            },
            wait < step_size,
            out@.len() * step_size == seen + wait,
            forall|m: int|
                0 <= m < out@.len() ==> #[trigger] out@[m] == span_of(
                    data@,
                    m * step_size,
                    m * step_size + n_points,
                ),
    {
        advance(&mut max_q, true, data, i, n_points);
        advance(&mut min_q, false, data, i, n_points);
        if i >= n_points - 1 {
            let ghost lo = i + 1 - n_points;
            if wait == 0 {
                proof {
                    lemma_front(true, data@, max_q@, lo, i + 1);
                    lemma_front(false, data@, min_q@, lo, i + 1);
                    let m = out@.len() as int;
                    assert((m + 1) * step_size == m * step_size + step_size) by (nonlinear_arith);
                }
                out.push(Span { high: data[max_q[0]], low: data[min_q[0]] });
                wait = step_size - 1;
            } else {
                wait = wait - 1;
            }
            proof {
                seen = seen + 1;
            }
        }
    }
    proof {
        let count = out@.len() as int;
        let rest = total - n_points;
        assert((count - 1) * step_size == count * step_size - step_size) by (nonlinear_arith);
        vstd::arithmetic::div_mod::lemma_fundamental_div_mod_converse(
            rest,
            step_size as int,
            count - 1,
            step_size - 1 - wait,
        );
        assert(out@ =~= spans(data@, n_points as int, step_size as int));
    }
    out
}

} // verus!
