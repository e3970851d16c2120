//! Blocks against one block: where samples are not filtered, feeding a log in
//! blocks gives what feeding it in one gives, wherever the cuts are.

use super::kernel;
use super::kernel::{ResultsModel, StreamsModel};
use super::processor;
use super::processor::{BlockModel, ProcessorModel};
use crate::rolling;
use crate::rolling::Span;
use vstd::prelude::*;

verus! {

/// Two series combined sample by sample, as far as both reach.
pub open spec fn zipped(f: spec_fn(u64, u64) -> u64, a: Seq<u64>, b: Seq<u64>) -> Seq<u64> {
    Seq::new(
        if a.len() <= b.len() {
            a.len()
        } else {
            b.len()
        },
        |i: int| f(a[i], b[i]),
    )
}

/// The streams of samples that are not filtered; `f` is the magnitude of two
/// channels.
pub open spec fn plain_streams(f: spec_fn(u64, u64) -> u64, b: BlockModel) -> StreamsModel {
    StreamsModel {
        x: b.x,
        y: b.y,
        z: b.z,
        xy: zipped(f, b.x, b.y),
        xz: zipped(f, b.x, b.z),
        yz: zipped(f, b.y, b.z),
    }
}

/// What a block makes of a processor when its samples are not filtered: it is
/// fed, and absorbs the streams of what it hands out.
pub open spec fn fed(
    f: spec_fn(u64, u64) -> u64,
    s: ProcessorModel,
    block: BlockModel,
    n: int,
    step: int,
) -> ProcessorModel {
    let after = s.after_feed(block, n, step);
    match s.handed_out(block, n) {
        None => after,
        Some((all, skip)) => after.after_absorb(
            all.times,
            plain_streams(f, all),
            skip,
            n,
            step,
        ),
    }
}

/// Whether every sample has its time and all channels.
pub open spec fn even(b: BlockModel) -> bool {
    b.times.len() == b.x.len() && b.y.len() == b.x.len() && b.z.len() == b.x.len()
}

proof fn lemma_extremum_shift(
    up: bool,
    a: Seq<u64>,
    b: Seq<u64>,
    from: int,
    to: int,
    shift: int,
)
    requires
        forall|i: int| from <= i < to ==> #[trigger] a[i] == b[i + shift],
        from < to,
    ensures
        rolling::extremum(up, a, from, to) + shift == rolling::extremum(
            up,
            b,
            from + shift,
            to + shift,
        ),
        from <= rolling::extremum(up, a, from, to) < to,
    decreases to - from,
{
    if to > from + 1 {
        lemma_extremum_shift(up, a, b, from, to - 1, shift);
        assert(rolling::clean(a, from, to) == rolling::clean(b, from + shift, to + shift)) by {
            if rolling::clean(a, from, to) {
                assert forall|i: int| from + shift <= i < to + shift implies !crate::bits::nan(
                    #[trigger] b[i],
                ) by {
                    assert(a[i - shift] == b[i]);
                }
            }
            if rolling::clean(b, from + shift, to + shift) {
                assert forall|i: int| from <= i < to implies !crate::bits::nan(
                    #[trigger] a[i],
                ) by {
                    assert(b[i + shift] == a[i]);
                }
            }
        }
        let p = rolling::extremum(up, a, from, to - 1);
        assert(a[p] == b[p + shift]);
        assert(a[to - 1] == b[to - 1 + shift]);
    }
}

/// The span of equal samples is equal, wherever they stand.
pub proof fn lemma_span_shift(a: Seq<u64>, b: Seq<u64>, from: int, to: int, shift: int)
    requires
        forall|i: int| from <= i < to ==> #[trigger] a[i] == b[i + shift],
        from < to,
    ensures
        rolling::span_of(a, from, to) == rolling::span_of(b, from + shift, to + shift),
{
    lemma_extremum_shift(true, a, b, from, to, shift);
    lemma_extremum_shift(false, a, b, from, to, shift);
    let p = rolling::extremum(true, a, from, to);
    let q = rolling::extremum(false, a, from, to);
    assert(a[p] == b[p + shift]);
    assert(a[q] == b[q + shift]);
}

/// The windows over `len` samples are those over the first `l` and then those
/// from where the next one starts.
proof fn lemma_counts(l: int, len: int, n: int, step: int)
    requires
        n > 0,
        step > 0,
        0 <= l <= len,
    ensures
        ({
            let k = rolling::window_count(l, n, step);
            k >= 0 && rolling::window_count(len, n, step) == k + rolling::window_count(
                len - k * step,
                n,
                step,
            ) && (k > 0 ==> (k - 1) * step + n <= l) && k * step >= 0
        }),
        rolling::window_count(len, n, step) >= 0,
{
    let k = rolling::window_count(l, n, step);
    if l < n {
        assert(0 * step == 0);
        if len >= n {
            vstd::arithmetic::div_mod::lemma_div_pos_is_pos(len - n, step);
        }
    } else {
        let q = (len - n) / step;
        vstd::arithmetic::div_mod::lemma_div_pos_is_pos(l - n, step);
        vstd::arithmetic::div_mod::lemma_div_is_ordered(l - n, len - n, step);
        vstd::arithmetic::div_mod::lemma_fundamental_div_mod(l - n, step);
        vstd::arithmetic::div_mod::lemma_fundamental_div_mod(len - n, step);
        assert((k - 1) * step == step * ((l - n) / step)) by (nonlinear_arith)
            requires
                k - 1 == (l - n) / step,
        ;
        assert(k * step == (k - 1) * step + step) by (nonlinear_arith);
        assert((k - 1) * step >= 0) by (nonlinear_arith)
            requires
                k >= 1,
                step > 0,
        ;
        if len - k * step >= n {
            vstd::arithmetic::div_mod::lemma_hoist_over_denominator(
                len - n - k * step,
                k,
                step as nat,
            );
        } else {
            assert(q < k) by (nonlinear_arith)
                requires
                    step * q <= len - n,
                    len - n < k * step,
                    step > 0,
            ;
        }
    }
}

proof fn lemma_window_fits(len: int, n: int, step: int, j: int)
    requires
        n > 0,
        step > 0,
        0 <= j < rolling::window_count(len, n, step),
    ensures
        0 <= j * step,
        j * step + n <= len,
{
    let q = (len - n) / step;
    vstd::arithmetic::div_mod::lemma_fundamental_div_mod(len - n, step);
    assert(j * step <= step * q && 0 <= j * step) by (nonlinear_arith)
        requires
            0 <= j <= q,
            step > 0,
    ;
}

/// The windows over a series are those over any first part of it and then
/// those from where the next one starts.
pub proof fn law_spans_split(s: Seq<u64>, l: int, n: int, step: int)
    requires
        0 <= l <= s.len(),
        n > 0,
        step > 0,
    ensures
        rolling::spans(s, n, step) == rolling::spans(s.take(l), n, step) + rolling::spans(
            kernel::from_place(s, rolling::window_count(l, n, step) * step),
            n,
            step,
        ),
{
    let len = s.len() as int;
    let k = rolling::window_count(l, n, step);
    let rest = kernel::from_place(s, k * step);
    lemma_counts(l, len, n, step);
    let whole = rolling::spans(s, n, step);
    let first = rolling::spans(s.take(l), n, step);
    let second = rolling::spans(rest, n, step);
    assert(whole.len() == first.len() + second.len());
    assert forall|m: int| 0 <= m < whole.len() implies #[trigger] whole[m] == (first
        + second)[m] by {
        if m < k {
            lemma_window_fits(l, n, step, m);
            lemma_span_shift(s.take(l), s, m * step, m * step + n, 0);
        } else {
            let j = m - k;
            assert(m * step == k * step + j * step) by (nonlinear_arith)
                requires
                    m == k + j,
            ;
            lemma_window_fits(rest.len() as int, n, step, j);
            lemma_span_shift(rest, s, j * step, j * step + n, k * step);
        }
    }
    assert(whole =~= first + second);
}

/// The times of the windows over a series are those of the windows over any
/// first part of it and then those from where the next one starts.
pub proof fn law_times_split(s: Seq<i64>, l: int, n: int, step: int)
    requires
        0 <= l <= s.len(),
        n > 0,
        step > 0,
    ensures
        ({
            let k = rolling::window_count(l, n, step);
            let rest = kernel::from_place(s, k * step);
            kernel::end_times(s, n, step, rolling::window_count(s.len() as int, n, step))
                == kernel::end_times(s.take(l), n, step, k) + kernel::end_times(
                rest,
                n,
                step,
                rolling::window_count(rest.len() as int, n, step),
            )
        }),
{
    let len = s.len() as int;
    let k = rolling::window_count(l, n, step);
    let rest = kernel::from_place(s, k * step);
    lemma_counts(l, len, n, step);
    let more = rolling::window_count(rest.len() as int, n, step);
    let whole = kernel::end_times(s, n, step, k + more);
    let first = kernel::end_times(s.take(l), n, step, k);
    let second = kernel::end_times(rest, n, step, more);
    lemma_place_counts(l, n, step);
    lemma_place_counts(len, n, step);
    lemma_place_counts(rest.len() as int, n, step);
    assert forall|m: int| 0 <= m < whole.len() implies #[trigger] whole[m] == (first
        + second)[m] by {
        if m < k {
            lemma_window_fits(l, n, step, m);
        } else {
            let j = m - k;
            assert(m * step == k * step + j * step) by (nonlinear_arith)
                requires
                    m == k + j,
            ;
            lemma_window_fits(rest.len() as int, n, step, j);
            assert(second[j] == rest[n - 1 + j * step]);
        }
    }
    assert(whole =~= first + second);
}

proof fn lemma_place_counts(len: int, n: int, step: int)
    requires
        len >= 0,
        n > 0,
        step > 0,
    ensures
        kernel::places_in(len, n - 1, step) == rolling::window_count(len, n, step),
        rolling::window_count(len, n, step) >= 0,
{
    if len >= n {
        vstd::arithmetic::div_mod::lemma_div_pos_is_pos(len - n, step);
    }
}

proof fn lemma_zip_place(f: spec_fn(u64, u64) -> u64, a: Seq<u64>, b: Seq<u64>, at: int)
    requires
        a.len() == b.len(),
        at >= 0,
    ensures
        zipped(f, kernel::from_place(a, at), kernel::from_place(b, at)) == kernel::from_place(
            zipped(f, a, b),
            at,
        ),
{
    assert(zipped(f, kernel::from_place(a, at), kernel::from_place(b, at))
        =~= kernel::from_place(zipped(f, a, b), at));
}

proof fn lemma_zip_take(f: spec_fn(u64, u64) -> u64, a: Seq<u64>, b: Seq<u64>, l: int)
    requires
        a.len() == b.len(),
        0 <= l <= a.len(),
    ensures
        zipped(f, a.take(l), b.take(l)) == zipped(f, a, b).take(l),
{
    assert(zipped(f, a.take(l), b.take(l)) =~= zipped(f, a, b).take(l));
}

/// Two places on is one place further on.
proof fn lemma_place_twice<T>(s: Seq<T>, a: int, b: int)
    requires
        0 <= a,
        0 <= b,
    ensures
        kernel::from_place(kernel::from_place(s, a), b) == kernel::from_place(s, a + b),
{
    assert(kernel::from_place(kernel::from_place(s, a), b) =~= kernel::from_place(s, a + b));
}

/// The part behind a cut of a first part is a first part of what is behind the
/// cut.
proof fn lemma_place_take<T>(s: Seq<T>, l: int, at: int)
    requires
        0 <= l <= s.len(),
        0 <= at,
    ensures
        kernel::from_place(s.take(l), at) == kernel::from_place(s, at).take(
            if at <= l {
                l - at
            } else {
                0
            },
        ),
{
    let m = if at <= l {
        l - at
    } else {
        0
    };
    assert(kernel::from_place(s.take(l), at) =~= kernel::from_place(s, at).take(m));
}

proof fn lemma_stream_split(s: Seq<u64>, l: int, skip: int, n: int, step: int)
    requires
        0 <= l <= s.len(),
        0 <= skip,
        n > 0,
        step > 0,
    ensures
        ({
            let k = rolling::window_count(l - skip, n, step);
            rolling::spans(kernel::from_place(s, skip), n, step) == rolling::spans(
                kernel::from_place(s.take(l), skip),
                n,
                step,
            ) + rolling::spans(kernel::from_place(s, skip + k * step), n, step)
        }),
{
    let m = if skip <= l {
        l - skip
    } else {
        0
    };
    lemma_place_take(s, l, skip);
    let k = rolling::window_count(l - skip, n, step);
    assert(k == rolling::window_count(m, n, step));
    law_spans_split(kernel::from_place(s, skip), m, n, step);
    lemma_counts(m, m, n, step);
    lemma_place_twice(s, skip, k * step);
}

proof fn lemma_times_stream_split(s: Seq<i64>, l: int, skip: int, n: int, step: int)
    requires
        0 <= l <= s.len(),
        0 <= skip,
        n > 0,
        step > 0,
    ensures
        ({
            let k = rolling::window_count(l - skip, n, step);
            let all = kernel::from_place(s, skip);
            let first = kernel::from_place(s.take(l), skip);
            let rest = kernel::from_place(s, skip + k * step);
            kernel::end_times(all, n, step, rolling::window_count(all.len() as int, n, step))
                == kernel::end_times(
                first,
                n,
                step,
                rolling::window_count(first.len() as int, n, step),
            ) + kernel::end_times(
                rest,
                n,
                step,
                rolling::window_count(rest.len() as int, n, step),
            )
        }),
{
    let m = if skip <= l {
        l - skip
    } else {
        0
    };
    lemma_place_take(s, l, skip);
    let k = rolling::window_count(l - skip, n, step);
    assert(k == rolling::window_count(m, n, step));
    law_times_split(kernel::from_place(s, skip), m, n, step);
    lemma_counts(m, m, n, step);
    lemma_place_twice(s, skip, k * step);
}

/// Where the first block completes a window and the second brings samples, the
/// second hands out what the whole holds from the samples that are kept on.
#[verifier::spinoff_prover]
#[verifier::rlimit(60)]
proof fn lemma_second_block(
    f: spec_fn(u64, u64) -> u64,
    s: ProcessorModel,
    a: BlockModel,
    b: BlockModel,
    n: int,
    step: int,
)
    requires
        even(s.residual),
        even(a),
        even(b),
        s.skip >= 0,
        0 < n <= s.residual.x.len() + a.x.len(),
        b.x.len() > 0,
        step > 0,
    ensures
        ({
            let one = fed(f, s, a.then_those(b), n, step);
            let two = fed(f, fed(f, s, a, n, step), b, n, step);
            two.residual == one.residual && two.skip == one.skip && two.results == one.results
        }),
{
    let ra = s.residual.then_those(a);
    let whole = s.residual.then_those(a.then_those(b));
    assert(whole =~= ra.then_those(b));
    let first = fed(f, s, a, n, step);
    let la = ra.x.len() as int;
    let lw = whole.x.len() as int;
    let cut = la - (n - 1);
    let second = first.residual.then_those(b);
    assert(first.residual == ra.carried(n));
    assert(second =~= whole.from_place(cut));
    assert(second.carried(n) =~= whole.carried(n));
    let k = rolling::window_count(la - s.skip, n, step);
    processor::law_skip(la, s.skip, n, step);
    assert(first.skip + cut == s.skip + k * step);
    lemma_split(f, whole, la, s.skip, n, step);
    assert(ra =~= whole.first(la));
    lemma_behind(f, whole, cut, first.skip, n, step);
    let r1 = kernel::kernel_from(ra.times, plain_streams(f, ra), s.skip, n, step);
    let r2 = kernel::kernel_from(second.times, plain_streams(f, second), first.skip, n, step);
    assert(s.results.then_those(r1).then_those(r2) =~= s.results.then_those(r1.then_those(r2)));
    let l = if s.skip <= la {
        la - s.skip
    } else {
        0
    };
    if s.skip <= lw {
        lemma_counts(l, lw - s.skip, n, step);
    } else {
        assert(0 * step == 0);
    }
    let k2 = rolling::window_count(lw - cut - first.skip, n, step);
    assert((k + k2) * step == k * step + k2 * step) by (nonlinear_arith);
}

/// A log that is fed in two blocks gives what it gives in one, and leaves the
/// same samples behind and the next window in the same place, where its samples
/// are not filtered.
pub proof fn law_blocks_as_one(
    f: spec_fn(u64, u64) -> u64,
    s: ProcessorModel,
    a: BlockModel,
    b: BlockModel,
    n: int,
    step: int,
)
    requires
        even(s.residual),
        even(a),
        even(b),
        s.skip >= 0,
        n >= 0,
        step > 0,
    ensures
        fed(f, fed(f, s, a, n, step), b, n, step) == fed(f, s, a.then_those(b), n, step),
{
    let ra = s.residual.then_those(a);
    let whole = s.residual.then_those(a.then_those(b));
    assert(whole =~= ra.then_those(b));
    let la = ra.x.len() as int;
    if la >= n && n > 0 && b.x.len() > 0 {
        lemma_second_block(f, s, a, b, n, step);
    } else {
        let first = fed(f, s, a, n, step);
        let second = first.residual.then_those(b);
        if la < n {
            assert(second =~= whole);
        } else if n == 0 {
            lemma_zero(f, ra, s.skip, step);
            lemma_zero(f, second, s.skip, step);
            lemma_zero(f, whole, s.skip, step);
            assert(second.carried(0) =~= whole.carried(0));
            let none = ResultsModel::none();
            assert(s.results.then_those(none) =~= s.results);
        } else {
            assert(second =~= ra.carried(n));
            assert(whole =~= ra);
        }
    }
}

/// The samples of blocks, one after the other.
pub open spec fn in_sequence(blocks: Seq<BlockModel>) -> BlockModel
    decreases blocks.len(),
{
    if blocks.len() == 0 {
        BlockModel::none()
    } else {
        in_sequence(blocks.drop_last()).then_those(blocks.last())
    }
}

/// What blocks make of the state, one after the other.
pub open spec fn fed_all(
    f: spec_fn(u64, u64) -> u64,
    s: ProcessorModel,
    blocks: Seq<BlockModel>,
    n: int,
    step: int,
) -> ProcessorModel
    decreases blocks.len(),
{
    if blocks.len() == 0 {
        s
    } else {
        fed(f, fed_all(f, s, blocks.drop_last(), n, step), blocks.last(), n, step)
    }
}

proof fn lemma_even_sequence(blocks: Seq<BlockModel>)
    requires
        forall|i: int| 0 <= i < blocks.len() ==> even(#[trigger] blocks[i]),
    ensures
        even(in_sequence(blocks)),
    decreases blocks.len(),
{
    if blocks.len() > 0 {
        let rest = blocks.drop_last();
        assert forall|i: int| 0 <= i < rest.len() implies even(#[trigger] rest[i]) by {
            assert(rest[i] == blocks[i]);
        }
        lemma_even_sequence(rest);
        assert(even(blocks[blocks.len() - 1]));
    }
}

/// A log that is fed in any number of blocks gives what it gives in one, where
/// its samples are not filtered.
pub proof fn law_all_blocks_as_one(
    f: spec_fn(u64, u64) -> u64,
    s: ProcessorModel,
    blocks: Seq<BlockModel>,
    n: int,
    step: int,
)
    requires
        blocks.len() > 0,
        even(s.residual),
        forall|i: int| 0 <= i < blocks.len() ==> even(#[trigger] blocks[i]),
        s.skip >= 0,
        n >= 0,
        step > 0,
    ensures
        fed_all(f, s, blocks, n, step) == fed(f, s, in_sequence(blocks), n, step),
    decreases blocks.len(),
{
    let rest = blocks.drop_last();
    assert(even(blocks[blocks.len() - 1]));
    if rest.len() == 0 {
        assert(in_sequence(rest) == BlockModel::none());
        assert(fed_all(f, s, rest, n, step) == s);
        assert(in_sequence(blocks) =~= blocks.last());
    } else {
        assert forall|i: int| 0 <= i < rest.len() implies even(#[trigger] rest[i]) by {
            assert(rest[i] == blocks[i]);
        }
        law_all_blocks_as_one(f, s, rest, n, step);
        lemma_even_sequence(rest);
        law_blocks_as_one(f, s, in_sequence(rest), blocks.last(), n, step);
    }
}

proof fn lemma_zero(f: spec_fn(u64, u64) -> u64, b: BlockModel, skip: int, step: int)
    requires
        step > 0,
    ensures
        kernel::kernel_from(b.times, plain_streams(f, b), skip, 0, step) == ResultsModel::none(),
{
    let s = plain_streams(f, b).from_place(skip);
    let times = kernel::from_place(b.times, skip);
    let r = kernel::kernel_of(times, s, 0, step);
    lemma_no_windows(s.x, 0, step);
    lemma_no_windows(s.y, 0, step);
    lemma_no_windows(s.z, 0, step);
    lemma_no_windows(s.xy, 0, step);
    lemma_no_windows(s.xz, 0, step);
    lemma_no_windows(s.yz, 0, step);
    assert(kernel::places_in(times.len() as int, 0, step) >= 0) by {
        if times.len() > 0 {
            vstd::arithmetic::div_mod::lemma_div_pos_is_pos(times.len() - 1, step);
        }
    }
    assert(r.times =~= Seq::empty());
    assert(r =~= ResultsModel::none());
}

proof fn lemma_no_windows(s: Seq<u64>, n: int, step: int)
    requires
        n <= 0 || s.len() < n,
    ensures
        rolling::spans(s, n, step) == Seq::<Span>::empty(),
{
    assert(rolling::spans(s, n, step) =~= Seq::empty());
}

/// The results over samples are those over the first `l` and then those from
/// where the next window starts.
proof fn lemma_split(
    f: spec_fn(u64, u64) -> u64,
    b: BlockModel,
    l: int,
    skip: int,
    n: int,
    step: int,
)
    requires
        even(b),
        0 <= l <= b.x.len(),
        0 <= skip,
        0 < n,
        step > 0,
    ensures
        ({
            let k = rolling::window_count(l - skip, n, step);
            let head = b.first(l);
            kernel::kernel_from(b.times, plain_streams(f, b), skip, n, step)
                == kernel::kernel_from(
                head.times,
                plain_streams(f, head),
                skip,
                n,
                step,
            ).then_those(
                kernel::kernel_from(
                    b.times,
                    plain_streams(f, b),
                    skip + k * step,
                    n,
                    step,
                ),
            )
        }),
{
    let k = rolling::window_count(l - skip, n, step);
    let head = b.first(l);
    let sb = plain_streams(f, b);
    lemma_zip_take(f, b.x, b.y, l);
    lemma_zip_take(f, b.x, b.z, l);
    lemma_zip_take(f, b.y, b.z, l);
    lemma_stream_split(sb.x, l, skip, n, step);
    lemma_stream_split(sb.y, l, skip, n, step);
    lemma_stream_split(sb.z, l, skip, n, step);
    lemma_stream_split(sb.xy, l, skip, n, step);
    lemma_stream_split(sb.xz, l, skip, n, step);
    lemma_stream_split(sb.yz, l, skip, n, step);
    lemma_times_stream_split(b.times, l, skip, n, step);
    let whole = kernel::kernel_from(b.times, sb, skip, n, step);
    let first = kernel::kernel_from(head.times, plain_streams(f, head), skip, n, step);
    let second = kernel::kernel_from(b.times, sb, skip + k * step, n, step);
    lemma_times_count(b.times, sb, skip, n, step);
    lemma_times_count(head.times, plain_streams(f, head), skip, n, step);
    if l >= skip {
        lemma_counts(l - skip, l - skip, n, step);
    } else {
        assert(0 * step == 0);
    }
    lemma_times_count(b.times, sb, skip + k * step, n, step);
    assert(whole =~= first.then_those(second));
}

/// The number of times is asked for by the number of windows over as many
/// samples.
proof fn lemma_times_count(times: Seq<i64>, s: StreamsModel, skip: int, n: int, step: int)
    requires
        times.len() == s.x.len(),
        skip >= 0,
        n > 0,
        step > 0,
    ensures
        ({
            let rest = kernel::from_place(times, skip);
            kernel::kernel_from(times, s, skip, n, step).times == kernel::end_times(
                rest,
                n,
                step,
                rolling::window_count(rest.len() as int, n, step),
            )
        }),
{
    let rest = kernel::from_place(times, skip);
    assert(rest.len() == kernel::from_place(s.x, skip).len());
    lemma_place_counts(rest.len() as int, n, step);
}

/// What is kept gives, from its place on, what the whole gives from there.
proof fn lemma_behind(
    f: spec_fn(u64, u64) -> u64,
    b: BlockModel,
    cut: int,
    skip: int,
    n: int,
    step: int,
)
    requires
        even(b),
        0 <= cut <= b.x.len(),
        0 <= skip,
    ensures
        ({
            let rest = b.from_place(cut);
            kernel::kernel_from(rest.times, plain_streams(f, rest), skip, n, step)
                == kernel::kernel_from(b.times, plain_streams(f, b), cut + skip, n, step)
        }),
{
    let rest = b.from_place(cut);
    let sb = plain_streams(f, b);
    assert(rest.times =~= kernel::from_place(b.times, cut));
    assert(rest.x =~= kernel::from_place(b.x, cut));
    assert(rest.y =~= kernel::from_place(b.y, cut));
    assert(rest.z =~= kernel::from_place(b.z, cut));
    lemma_zip_place(f, b.x, b.y, cut);
    lemma_zip_place(f, b.x, b.z, cut);
    lemma_zip_place(f, b.y, b.z, cut);
    lemma_place_twice(b.times, cut, skip);
    lemma_place_twice(sb.x, cut, skip);
    lemma_place_twice(sb.y, cut, skip);
    lemma_place_twice(sb.z, cut, skip);
    lemma_place_twice(sb.xy, cut, skip);
    lemma_place_twice(sb.xz, cut, skip);
    lemma_place_twice(sb.yz, cut, skip);
}

} // verus!
