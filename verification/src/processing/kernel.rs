//! The spans of the windows over all streams, with their times.

use crate::bits;
use crate::rolling;
use crate::rolling::Span;
use vstd::prelude::*;

verus! {

/// The three channels and the three magnitudes of pairs of them, as doubles
/// held by their bits.
#[derive(Debug)]
pub struct Streams {
    pub x: Vec<u64>,
    pub y: Vec<u64>,
    pub z: Vec<u64>,
    pub xy: Vec<u64>,
    pub xz: Vec<u64>,
    pub yz: Vec<u64>,
}

/// The streams as sequences.
#[verifier::ext_equal]
pub struct StreamsModel {
    pub x: Seq<u64>,
    pub y: Seq<u64>,
    pub z: Seq<u64>,
    pub xy: Seq<u64>,
    pub xz: Seq<u64>,
    pub yz: Seq<u64>,
}

/// A series from a place on; nothing where it ends before that place.
pub open spec fn from_place<T>(s: Seq<T>, start: int) -> Seq<T> {
    if start >= s.len() {
        Seq::empty()
    } else {
        s.skip(start)
    }
}

impl StreamsModel {
    /// The streams from a place on.
    pub open spec fn from_place(self, start: int) -> StreamsModel {
        StreamsModel {
            x: from_place(self.x, start),
            y: from_place(self.y, start),
            z: from_place(self.z, start),
            xy: from_place(self.xy, start),
            xz: from_place(self.xz, start),
            yz: from_place(self.yz, start),
        }
    }
}

impl View for Streams {
    type V = StreamsModel;

    open spec fn view(&self) -> StreamsModel {
        StreamsModel {
            x: self.x@,
            y: self.y@,
            z: self.z@,
            xy: self.xy@,
            xz: self.xz@,
            yz: self.yz@,
        }
    }
}

/// The spans of all windows of the streams, and when the windows of `x` end.
/// A pk-pk value is the difference of a span's ends.
#[derive(Debug)]
pub struct ProcessingResults {
    pub times_ns: Vec<i64>,
    pub x_pkpk: Vec<Span>,
    pub y_pkpk: Vec<Span>,
    pub z_pkpk: Vec<Span>,
    pub xy_pkpk: Vec<Span>,
    pub xz_pkpk: Vec<Span>,
    pub yz_pkpk: Vec<Span>,
}

/// The results as sequences.
#[verifier::ext_equal]
pub struct ResultsModel {
    pub times: Seq<i64>,
    pub x: Seq<Span>,
    pub y: Seq<Span>,
    pub z: Seq<Span>,
    pub xy: Seq<Span>,
    pub xz: Seq<Span>,
    pub yz: Seq<Span>,
}

impl ResultsModel {
    /// These results and then those.
    pub open spec fn then_those(self, more: ResultsModel) -> ResultsModel {
        ResultsModel {
            times: self.times + more.times,
            x: self.x + more.x,
            y: self.y + more.y,
            z: self.z + more.z,
            xy: self.xy + more.xy,
            xz: self.xz + more.xz,
            yz: self.yz + more.yz,
        }
    }

    /// No results.
    pub open spec fn none() -> ResultsModel {
        ResultsModel {
            times: Seq::empty(),
            x: Seq::empty(),
            y: Seq::empty(),
            z: Seq::empty(),
            xy: Seq::empty(),
            xz: Seq::empty(),
            yz: Seq::empty(),
        }
    }
}

impl View for ProcessingResults {
    type V = ResultsModel;

    open spec fn view(&self) -> ResultsModel {
        ResultsModel {
            times: self.times_ns@,
            x: self.x_pkpk@,
            y: self.y_pkpk@,
            z: self.z_pkpk@,
            xy: self.xy_pkpk@,
            xz: self.xz_pkpk@,
            yz: self.yz_pkpk@,
        }
    }
}

/// The samples that a window of `n` keeps when it moves on: all but one.
pub open spec fn carry(n: int) -> int {
    if n > 0 {
        n - 1
    } else {
        0
    }
}

/// How many of the places `start`, `start + step`, ... lie in a series.
pub open spec fn places_in(len: int, start: int, step: int) -> int {
    if start >= len {
        0
    } else {
        (len - 1 - start) / step + 1
    }
}

/// The times at which the first `count` windows of `n` samples end, as far as
/// there are times.
pub open spec fn end_times(times: Seq<i64>, n: int, step: int, count: int) -> Seq<i64> {
    let have = places_in(times.len() as int, carry(n), step);
    Seq::new(
        (if count <= have {
            count
        } else {
            have
        }) as nat,
        |m: int| times[carry(n) + m * step],
    )
}

/// The results of windows of `n` samples, `step` samples apart.
pub open spec fn kernel_of(times: Seq<i64>, s: StreamsModel, n: int, step: int) -> ResultsModel {
    let x = rolling::spans(s.x, n, step);
    ResultsModel {
        times: end_times(times, n, step, x.len() as int),
        x,
        y: rolling::spans(s.y, n, step),
        z: rolling::spans(s.z, n, step),
        xy: rolling::spans(s.xy, n, step),
        xz: rolling::spans(s.xz, n, step),
        yz: rolling::spans(s.yz, n, step),
    }
}

/// Where every sample has its time, every window has the time of its last
/// sample.
pub proof fn law_one_time_per_output(times: Seq<i64>, s: StreamsModel, n: int, step: int)
    requires
        times.len() == s.x.len(),
        n >= 0,
        step > 0,
    ensures
        kernel_of(times, s, n, step).times.len() == kernel_of(times, s, n, step).x.len(),
        forall|m: int|
            0 <= m < kernel_of(times, s, n, step).times.len() ==> #[trigger] kernel_of(
                times,
                s,
                n,
                step,
            ).times[m] == times[m * step + n - 1],
{
    if n > 0 && s.x.len() >= n {
        assert(places_in(times.len() as int, carry(n), step) == rolling::window_count(
            s.x.len() as int,
            n,
            step,
        ));
        assert((s.x.len() - n) / step >= 0) by (nonlinear_arith)
            requires
                s.x.len() - n >= 0,
                step > 0,
        ;
    }
}

fn pick_times(times: &[i64], n_points: usize, step_size: usize, count: usize) -> (r: Vec<i64>)
    requires
        step_size > 0,
    ensures
        r@ == end_times(times@, n_points as int, step_size as int, count as int),
{
    let mut out: Vec<i64> = Vec::new();
    let len: usize = times.len();
    let start: usize = if n_points > 0 {
        n_points - 1
    } else {
        0
    };
    let ghost have = places_in(len as int, start as int, step_size as int);
    if start >= len || count == 0 {
        proof {
            if start < len {
                assert((len - 1 - start) / (step_size as int) >= 0) by (nonlinear_arith)
                    requires
                        len - 1 - start >= 0,
                        step_size > 0,
                ;
            }
            assert(out@ =~= end_times(times@, n_points as int, step_size as int, count as int));
        }
        return out;
    }
    let mut at: usize = start;
    assert(0 * step_size == 0);
    loop
        invariant_except_break
            out@.len() < count,
            at == start + out@.len() * step_size,
            at < len,
        invariant
            len == times@.len(),
            start == carry(n_points as int),
            start < len,
            step_size > 0,
            have == places_in(len as int, start as int, step_size as int),
            forall|m: int|
                0 <= m < out@.len() ==> #[trigger] out@[m] == times@[start + m * step_size],
        ensures
            0 < out@.len() <= count,
            start + (out@.len() - 1) * step_size < len,
            out@.len() == count || start + out@.len() * step_size >= len,
        decreases len - at,
    {
        let ghost k = out@.len() as int;
        out.push(times[at]);
        assert((k + 1) * step_size == k * step_size + step_size) by (nonlinear_arith);
        if out.len() == count || len - at <= step_size {
            break ;
        }
        at = at + step_size;
    }
    proof {
        let k = out@.len() as int;
        let d = step_size as int;
        let rest = len - 1 - start;
        assert((k - 1) * d == k * d - d) by (nonlinear_arith);
        if start + k * d >= len {
            vstd::arithmetic::div_mod::lemma_fundamental_div_mod_converse(
                rest,
                d,
                k - 1,
                rest - (k - 1) * d,
            );
            assert(have == k);
        } else {
            assert(rest / d >= k - 1) by (nonlinear_arith)
                requires
                    rest >= (k - 1) * d,
                    d > 0,
            ;
        }
        assert(out@ =~= end_times(times@, n_points as int, d, count as int));
    }
    out
}

/// The results of windows of `n` samples, `step` samples apart, of which the
/// first starts at `skip`.
pub open spec fn kernel_from(
    times: Seq<i64>,
    s: StreamsModel,
    skip: int,
    n: int,
    step: int,
) -> ResultsModel {
    kernel_of(from_place(times, skip), s.from_place(skip), n, step)
}

/// Whether the samples from `from` up to `stop` are numbers, and those up to `to`
/// are cut off there by one that is none.
pub open spec fn numbers_until(data: Seq<u64>, from: int, stop: int, to: int) -> bool {
    from <= stop <= to && (forall|i: int| from <= i < stop ==> !bits::nan(#[trigger] data[i])) && (
    stop < to ==> bits::nan(data[stop]))
}

/// Whether `v` is the greatest of the samples from `from` up to `to`, and of
/// equal ones the last.
pub open spec fn greatest(data: Seq<u64>, from: int, to: int, v: u64) -> bool {
    exists|k: int|
        #![trigger data[k]]
        from <= k < to && data[k] == v && (forall|i: int|
            from <= i < to ==> bits::num_le(#[trigger] data[i], v)) && (forall|i: int|
            k < i < to ==> bits::num_lt(#[trigger] data[i], v))
}

/// Whether `v` is the least of the samples from `from` up to `to`, and of equal
/// ones the last.
pub open spec fn least(data: Seq<u64>, from: int, to: int, v: u64) -> bool {
    exists|k: int|
        #![trigger data[k]]
        from <= k < to && data[k] == v && (forall|i: int|
            from <= i < to ==> bits::num_le(v, #[trigger] data[i])) && (forall|i: int|
            k < i < to ==> bits::num_lt(v, #[trigger] data[i]))
}

/// Whether a span is that of the samples from `from` up to `to`: the greatest
/// and the least of those before the first that is no number, or that one where
/// it comes first.
pub open spec fn spans_window(data: Seq<u64>, from: int, to: int, span: Span) -> bool {
    forall|stop: int| #[trigger]
        numbers_until(data, from, stop, to) ==> if stop > from {
            greatest(data, from, stop, span.high) && least(data, from, stop, span.low)
        } else {
            span.high == data[from] && span.low == data[from]
        }
}

/// Whether a series has `n` samples from a place on, and a span is theirs.
pub open spec fn spans_in(data: Seq<u64>, from: int, n: int, span: Span) -> bool {
    from + n <= data.len() && spans_window(data, from, from + n, span)
}

/// Whether these are the spans of all windows of `n` samples of a stream, `step`
/// samples apart, of which the first starts at `skip`.
pub open spec fn spans_of_stream(
    data: Seq<u64>,
    skip: int,
    n: int,
    step: int,
    spans: Seq<Span>,
) -> bool {
    (forall|m: int|
        0 <= m < spans.len() ==> spans_in(data, skip + m * step, n, #[trigger] spans[m]))
        && data.len() < skip + spans.len() * step + n
}

proof fn lemma_last_extremum(up: bool, data: Seq<u64>, from: int, to: int)
    requires
        from < to,
        rolling::clean(data, from, to),
    ensures
        ({
            let p = rolling::extremum(up, data, from, to);
            from <= p < to && (forall|i: int|
                p < i < to ==> if up {
                    bits::num_lt(#[trigger] data[i], data[p])
                } else {
                    bits::num_lt(data[p], #[trigger] data[i])
                })
        }),
    decreases to - from,
{
    if to > from + 1 {
        assert(rolling::clean(data, from, to - 1));
        lemma_last_extremum(up, data, from, to - 1);
        let q = rolling::extremum(up, data, from, to - 1);
        assert(!bits::nan(data[q]) && !bits::nan(data[to - 1]));
    }
}

proof fn lemma_spans_window(data: Seq<u64>, from: int, to: int)
    requires
        from < to,
    ensures
        spans_window(data, from, to, rolling::span_of(data, from, to)),
{
    let span = rolling::span_of(data, from, to);
    assert forall|stop: int| #[trigger] numbers_until(data, from, stop, to) implies if stop > from {
        greatest(data, from, stop, span.high) && least(data, from, stop, span.low)
    } else {
        span.high == data[from] && span.low == data[from]
    } by {
        assert(rolling::clean(data, from, stop));
        if stop < to {
            rolling::law_extremum_stops(true, data, from, stop, to);
            rolling::law_extremum_stops(false, data, from, stop, to);
        }
        if stop > from {
            rolling::law_extremum(true, data, from, stop);
            rolling::law_extremum(false, data, from, stop);
            lemma_last_extremum(true, data, from, stop);
            lemma_last_extremum(false, data, from, stop);
            let p = rolling::extremum(true, data, from, stop);
            let q = rolling::extremum(false, data, from, stop);
            assert(data[p] == span.high && data[q] == span.low);
        }
    }
}

/// The spans of windows over a series are those of just the windows that fit.
pub proof fn law_spans(data: Seq<u64>, skip: int, n: int, step: int)
    requires
        n > 0,
        step > 0,
        skip >= 0,
    ensures
        spans_of_stream(
            data,
            skip,
            n,
            step,
            rolling::spans(from_place(data, skip), n, step),
        ),
{
    let rest = from_place(data, skip);
    let spans = rolling::spans(rest, n, step);
    let len = rest.len() as int;
    let q = (len - n) / step;
    if len >= n {
        vstd::arithmetic::div_mod::lemma_fundamental_div_mod(len - n, step);
        vstd::arithmetic::div_mod::lemma_div_pos_is_pos(len - n, step);
        assert(spans.len() == q + 1);
        assert(spans.len() * step == step * q + step) by (nonlinear_arith)
            requires
                spans.len() == q + 1,
        ;
    } else {
        assert(spans.len() == 0);
        assert(spans.len() * step == 0) by (nonlinear_arith)
            requires
                spans.len() == 0,
        ;
    }
    assert forall|m: int| 0 <= m < spans.len() implies spans_in(
        data,
        skip + m * step,
        n,
        #[trigger] spans[m],
    ) by {
        assert(0 <= m * step <= step * q) by (nonlinear_arith)
            requires
                0 <= m <= q,
                step > 0,
        ;
        let a = m * step;
        assert forall|i: int| a <= i < a + n implies #[trigger] rest[i] == data[i + skip] by {}
        super::streaming::lemma_span_shift(rest, data, a, a + n, skip);
        lemma_spans_window(data, skip + a, skip + a + n);
    }
}

/// For each of the six streams, its results are the spans of its own windows:
/// the greatest and the least sample of that stream in every window of `n`
/// samples from `skip` on, `step` samples apart, and of no other window.
pub proof fn law_kernel_streams(times: Seq<i64>, s: StreamsModel, skip: int, n: int, step: int)
    requires
        n > 0,
        step > 0,
        skip >= 0,
    ensures
        spans_of_stream(s.x, skip, n, step, kernel_from(times, s, skip, n, step).x),
        spans_of_stream(s.y, skip, n, step, kernel_from(times, s, skip, n, step).y),
        spans_of_stream(s.z, skip, n, step, kernel_from(times, s, skip, n, step).z),
        spans_of_stream(s.xy, skip, n, step, kernel_from(times, s, skip, n, step).xy),
        spans_of_stream(s.xz, skip, n, step, kernel_from(times, s, skip, n, step).xz),
        spans_of_stream(s.yz, skip, n, step, kernel_from(times, s, skip, n, step).yz),
{
    law_spans(s.x, skip, n, step);
    law_spans(s.y, skip, n, step);
    law_spans(s.z, skip, n, step);
    law_spans(s.xy, skip, n, step);
    law_spans(s.xz, skip, n, step);
    law_spans(s.yz, skip, n, step);
}

/// Whether a time stands at a place.
pub open spec fn stands_at(times: Seq<i64>, at: int, t: i64) -> bool {
    0 <= at < times.len() && times[at] == t
}

/// Every window of the first stream has the time of its last sample, as far as
/// there are times; windows of no samples have neither spans nor times.
pub proof fn law_kernel_times(times: Seq<i64>, s: StreamsModel, skip: int, n: int, step: int)
    requires
        n >= 0,
        step > 0,
        skip >= 0,
    ensures
        ({
            let r = kernel_from(times, s, skip, n, step);
            &&& r.times.len() <= r.x.len()
            &&& n == 0 ==> r.x.len() == 0 && r.y.len() == 0 && r.z.len() == 0 && r.xy.len() == 0
                && r.xz.len() == 0 && r.yz.len() == 0
            &&& n > 0 ==> forall|m: int|
                0 <= m < r.times.len() ==> stands_at(
                    times,
                    skip + m * step + n - 1,
                    #[trigger] r.times[m],
                )
            &&& n > 0 && times.len() >= s.x.len() ==> r.times.len() == r.x.len()
            &&& n > 0 && r.times.len() < r.x.len() ==> times.len() < skip + r.times.len() * step
                + n
        }),
{
    let r = kernel_from(times, s, skip, n, step);
    let t = from_place(times, skip);
    let x = from_place(s.x, skip);
    let have = places_in(t.len() as int, carry(n), step);
    if n > 0 {
        if t.len() >= n {
            let d = t.len() - n;
            vstd::arithmetic::div_mod::lemma_fundamental_div_mod(d, step);
            vstd::arithmetic::div_mod::lemma_div_pos_is_pos(d, step);
            assert(have * step == step * (d / step) + step) by (nonlinear_arith)
                requires
                    have == d / step + 1,
            ;
        } else {
            assert(have == 0);
            assert(have * step == 0) by (nonlinear_arith)
                requires
                    have == 0,
            ;
        }
        if x.len() >= n {
            vstd::arithmetic::div_mod::lemma_div_pos_is_pos(x.len() - n, step);
            if t.len() >= x.len() {
                vstd::arithmetic::div_mod::lemma_div_is_ordered(
                    x.len() - n,
                    t.len() - n,
                    step,
                );
            }
        }
        assert forall|m: int| 0 <= m < r.times.len() implies stands_at(
            times,
            skip + m * step + n - 1,
            #[trigger] r.times[m],
        ) by {
            let d = t.len() - n;
            assert(0 <= m * step <= step * (d / step)) by (nonlinear_arith)
                requires
                    0 <= m <= d / step,
                    step > 0,
            ;
        }
        if r.times.len() < r.x.len() {
            assert(r.times.len() == have);
            assert(r.times.len() * step == have * step);
        }
    } else if t.len() > 0 {
        vstd::arithmetic::div_mod::lemma_div_pos_is_pos(t.len() - 1, step);
    }
}

fn rest_of<T>(s: &[T], start: usize) -> (r: &[T])
    ensures
        r@ == from_place(s@, start as int),
{
    let len: usize = s.len();
    let at: usize = if start < len {
        start
    } else {
        len
    };
    let r: &[T] = vstd::slice::slice_subrange(s, at, len);
    assert(r@ =~= from_place(s@, start as int));
    r
}

/// The results of windows of `n_points` samples, `step_size` samples apart, of
/// which the first starts at `skip`.
pub fn processing_kernel(
    times: &[i64],
    streams: &Streams,
    skip: usize,
    n_points: usize,
    step_size: usize,
) -> (r: ProcessingResults)
    requires
        step_size > 0,
    ensures
        r@ == kernel_from(times@, streams@, skip as int, n_points as int, step_size as int),
{
    let x_pkpk: Vec<Span> = rolling::rolling_pkpk(
        rest_of(streams.x.as_slice(), skip),
        n_points,
        step_size,
    );
    let times_ns: Vec<i64> = pick_times(rest_of(times, skip), n_points, step_size, x_pkpk.len());
    ProcessingResults {
        times_ns,
        x_pkpk,
        y_pkpk: rolling::rolling_pkpk(rest_of(streams.y.as_slice(), skip), n_points, step_size),
        z_pkpk: rolling::rolling_pkpk(rest_of(streams.z.as_slice(), skip), n_points, step_size),
        xy_pkpk: rolling::rolling_pkpk(
            rest_of(streams.xy.as_slice(), skip),
            n_points,
            step_size,
        ),
        xz_pkpk: rolling::rolling_pkpk(
            rest_of(streams.xz.as_slice(), skip),
            n_points,
            step_size,
        ),
        yz_pkpk: rolling::rolling_pkpk(
            rest_of(streams.yz.as_slice(), skip),
            n_points,
            step_size,
        ),
    }
}

} // verus!
