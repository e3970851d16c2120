//! The processor: blocks in, results out, with what a window needs carried
//! from block to block.

use super::config::ProcessingConfig;
use super::kernel;
use super::kernel::{ProcessingResults, ResultsModel, Streams, StreamsModel};
use crate::rolling;
use crate::slices;
use vstd::prelude::*;

verus! {

/// One block of samples that belong together. Samples and period are doubles,
/// held as their bits.
#[derive(Debug)]
pub struct DataBlock {
    pub times_ns: Vec<i64>,
    pub x: Vec<u64>,
    pub y: Vec<u64>,
    pub z: Vec<u64>,
    /// Sample period in seconds.
    pub dt: u64,
}

/// The samples of a block.
#[verifier::ext_equal]
pub struct BlockModel {
    pub times: Seq<i64>,
    pub x: Seq<u64>,
    pub y: Seq<u64>,
    pub z: Seq<u64>,
}

impl View for DataBlock {
    type V = BlockModel;

    open spec fn view(&self) -> BlockModel {
        BlockModel { times: self.times_ns@, x: self.x@, y: self.y@, z: self.z@ }
    }
}

impl BlockModel {
    /// No samples.
    pub open spec fn none() -> BlockModel {
        BlockModel { times: Seq::empty(), x: Seq::empty(), y: Seq::empty(), z: Seq::empty() }
    }

    /// These samples and then those.
    pub open spec fn then_those(self, more: BlockModel) -> BlockModel {
        BlockModel {
            times: self.times + more.times,
            x: self.x + more.x,
            y: self.y + more.y,
            z: self.z + more.z,
        }
    }

    /// The first samples.
    pub open spec fn first(self, l: int) -> BlockModel {
        BlockModel {
            times: self.times.take(l),
            x: self.x.take(l),
            y: self.y.take(l),
            z: self.z.take(l),
        }
    }

    /// The samples from a place on.
    pub open spec fn from_place(self, start: int) -> BlockModel {
        BlockModel {
            times: self.times.skip(start),
            x: self.x.skip(start),
            y: self.y.skip(start),
            z: self.z.skip(start),
        }
    }

    /// Whether every time and channel reaches up to a place.
    pub open spec fn reaches(self, start: int) -> bool {
        start <= self.times.len() && start <= self.y.len() && start <= self.z.len()
    }

    /// Where the samples start that a window of `n` takes along.
    pub open spec fn carry_start(self, n: int) -> int {
        self.x.len() - kernel::carry(n)
    }

    /// The samples that a window of `n` takes along.
    pub open spec fn carried(self, n: int) -> BlockModel {
        self.from_place(self.carry_start(n))
    }
}

/// Samples that windows slide over.
#[derive(Debug)]
pub struct Handout {
    pub block: DataBlock,
    /// Where in the block the first window starts.
    pub skip: usize,
}

/// Where the next window starts among the samples that are kept, once windows
/// of `n` samples, `step` samples apart, have slid over `len` samples from
/// `skip` on.
pub open spec fn next_skip(len: int, skip: int, n: int, step: int) -> int {
    if n <= 0 || len < n {
        skip
    } else {
        skip + rolling::window_count(len - skip, n, step) * step - (len - (n - 1))
    }
}

/// The processor's state.
#[verifier::ext_equal]
pub struct ProcessorModel {
    pub cfg: ProcessingConfig,
    /// Samples that no window has been completed with, and those that the next
    /// window needs again.
    pub residual: BlockModel,
    /// Where the next window starts, counted from the first of these.
    pub skip: int,
    pub results: ResultsModel,
}

impl ProcessorModel {
    /// The samples that windows slide over once a block has come, and where the
    /// first one starts; nothing where no window of `n` samples is complete.
    pub open spec fn handed_out(self, block: BlockModel, n: int) -> Option<(BlockModel, int)> {
        let all = self.residual.then_those(block);
        if all.x.len() < n {
            None
        } else {
            Some((all, self.skip))
        }
    }

    /// The state once a block has come.
    pub open spec fn after_feed(self, block: BlockModel, n: int, step: int) -> ProcessorModel {
        let all = self.residual.then_those(block);
        ProcessorModel {
            residual: if all.x.len() < n {
                all
            } else {
                all.carried(n)
            },
            skip: next_skip(all.x.len() as int, self.skip, n, step),
            ..self
        }
    }

    /// The state once windows have slid over streams.
    pub open spec fn after_absorb(
        self,
        times: Seq<i64>,
        streams: StreamsModel,
        skip: int,
        n: int,
        step: int,
    ) -> ProcessorModel {
        ProcessorModel {
            results: self.results.then_those(kernel::kernel_from(times, streams, skip, n, step)),
            ..self
        }
    }
}

/// Slides windows over blocks as they come.
#[derive(Debug)]
pub struct Processor {
    cfg: ProcessingConfig,
    residual_times: Vec<i64>,
    residual_x: Vec<u64>,
    residual_y: Vec<u64>,
    residual_z: Vec<u64>,
    skip: usize,
    results: ProcessingResults,
}

impl View for Processor {
    type V = ProcessorModel;

    closed spec fn view(&self) -> ProcessorModel {
        ProcessorModel {
            cfg: self.cfg,
            residual: BlockModel {
                times: self.residual_times@,
                x: self.residual_x@,
                y: self.residual_y@,
                z: self.residual_z@,
            },
            skip: self.skip as int,
            results: self.results@,
        }
    }
}

/// Whether a block can follow a residual: where windows of `n` samples can be
/// completed, what is carried on is there in every channel.
pub open spec fn feedable(residual: BlockModel, block: BlockModel, n: int) -> bool {
    let all = residual.then_those(block);
    all.x.len() >= n ==> all.reaches(all.carry_start(n))
}

/// Once windows of `n` samples are complete, the last `n - 1` samples are kept.
pub proof fn law_residual_is_short(all: BlockModel, n: int)
    requires
        0 <= n <= all.x.len(),
    ensures
        all.carried(n).x.len() == kernel::carry(n),
        forall|i: int|
            0 <= i < kernel::carry(n) ==> #[trigger] all.carried(n).x[i] == all.x[all.x.len()
                - kernel::carry(n) + i],
{
}

fn copy_from<T: Copy>(v: &Vec<T>, start: usize) -> (r: Vec<T>)
    requires
        start <= v@.len(),
    ensures
        r@ == v@.skip(start as int),
{
    let out: Vec<T> = slices::copy_range(v.as_slice(), start, v.len());
    assert(out@ =~= v@.skip(start as int));
    out
}

fn join<T>(a: &mut Vec<T>, b: Vec<T>)
    ensures
        final(a)@ == old(a)@ + b@,
{
    let mut more: Vec<T> = b;
    a.append(&mut more);
}

/// The next window starts with a sample that is kept or with one to come: less
/// than a step on, or no further on than before.
pub proof fn law_skip(len: int, skip: int, n: int, step: int)
    requires
        skip >= 0,
        step > 0,
    ensures
        0 <= next_skip(len, skip, n, step),
        next_skip(len, skip, n, step) < step || next_skip(len, skip, n, step) <= skip,
{
    if 0 < n <= len {
        let d = len - skip - n;
        if d >= 0 {
            let q = d / step;
            vstd::arithmetic::div_mod::lemma_fundamental_div_mod(d, step);
            assert((q + 1) * step == step * q + step) by (nonlinear_arith);
        } else {
            assert(0 * step == 0);
        }
    }
}

fn following_skip(len: usize, skip: usize, n_points: usize, step_size: usize) -> (r: usize)
    requires
        len >= n_points,
        step_size > 0,
    ensures
        r == next_skip(len as int, skip as int, n_points as int, step_size as int),
{
    if n_points == 0 {
        return skip;
    }
    let last: usize = len - n_points;
    if skip > last {
        assert(0 * step_size == 0);
        return skip - last - 1;
    }
    proof {
        let d = last - skip;
        let q = d / (step_size as int);
        vstd::arithmetic::div_mod::lemma_fundamental_div_mod(d, step_size as int);
        assert((q + 1) * step_size == step_size * q + step_size) by (nonlinear_arith);
    }
    step_size - (last - skip) % step_size - 1
}

impl Processor {
    /// A processor that has seen nothing.
    pub fn new(cfg: ProcessingConfig) -> (r: Self)
        ensures
            r@.cfg == cfg,
            r@.residual == BlockModel::none(),
            r@.skip == 0,
            r@.results == ResultsModel::none(),
    {
        let r = Processor {
            cfg,
            residual_times: Vec::new(),
            residual_x: Vec::new(),
            residual_y: Vec::new(),
            residual_z: Vec::new(),
            skip: 0,
            results: ProcessingResults {
                times_ns: Vec::new(),
                x_pkpk: Vec::new(),
                y_pkpk: Vec::new(),
                z_pkpk: Vec::new(),
                xy_pkpk: Vec::new(),
                xz_pkpk: Vec::new(),
                yz_pkpk: Vec::new(),
            },
        };
        assert(r@.residual =~= BlockModel::none());
        assert(r@.results =~= ResultsModel::none());
        r
    }

    /// What the processing was asked for.
    pub fn config(&self) -> (r: ProcessingConfig)
        ensures
            r == self@.cfg,
    {
        self.cfg
    }

    /// Whether `feed` takes this block.
    pub fn accepts(&self, block: &DataBlock, n_points: usize) -> (r: bool)
        ensures
            r == feedable(self@.residual, block@, n_points as int),
    {
        let total: u128 = self.residual_x.len() as u128 + block.x.len() as u128;
        if total < n_points as u128 {
            return true;
        }
        let carry: u128 = if n_points > 0 {
            (n_points - 1) as u128
        } else {
            0
        };
        let start: u128 = total - carry;
        start <= self.residual_times.len() as u128 + block.times_ns.len() as u128 && start
            <= self.residual_y.len() as u128 + block.y.len() as u128 && start
            <= self.residual_z.len() as u128 + block.z.len() as u128
    }

    /// Takes a block. Where it completes a window of `n_points` samples, the
    /// samples that the windows slide over, `step_size` samples apart, are
    /// handed out, and those that the next window may need again are kept;
    /// where it does not, all are kept.
    pub fn feed(&mut self, block: DataBlock, n_points: usize, step_size: usize) -> (r: Option<
        Handout,
    >)
        requires
            feedable(old(self)@.residual, block@, n_points as int),
            step_size > 0,
        ensures
            final(self)@ == old(self)@.after_feed(block@, n_points as int, step_size as int),
            match old(self)@.handed_out(block@, n_points as int) {
                None => r is None,
                Some((all, skip)) => r matches Some(h) && h.block@ == all && h.block.dt == block.dt
                    && h.skip == skip,
            },
    {
        let ghost all = self@.residual.then_those(block@);
        let mut times: Vec<i64> = Vec::new();
        let mut xs: Vec<u64> = Vec::new();
        let mut ys: Vec<u64> = Vec::new();
        let mut zs: Vec<u64> = Vec::new();
        std::mem::swap(&mut times, &mut self.residual_times);
        std::mem::swap(&mut xs, &mut self.residual_x);
        std::mem::swap(&mut ys, &mut self.residual_y);
        std::mem::swap(&mut zs, &mut self.residual_z);
        join(&mut times, block.times_ns);
        join(&mut xs, block.x);
        join(&mut ys, block.y);
        join(&mut zs, block.z);
        if xs.len() < n_points {
            self.residual_times = times;
            self.residual_x = xs;
            self.residual_y = ys;
            self.residual_z = zs;
            assert(self@.residual =~= all);
            return None;
        }
        let carry: usize = if n_points > 0 {
            n_points - 1
        } else {
            0
        };
        let start: usize = xs.len() - carry;
        self.residual_times = copy_from(&times, start);
        self.residual_x = copy_from(&xs, start);
        self.residual_y = copy_from(&ys, start);
        self.residual_z = copy_from(&zs, start);
        assert(self@.residual =~= all.carried(n_points as int));
        let skip: usize = self.skip;
        self.skip = following_skip(xs.len(), skip, n_points, step_size);
        Some(
            Handout {
                block: DataBlock { times_ns: times, x: xs, y: ys, z: zs, dt: block.dt },
                skip,
            },
        )
    }

    /// Slides windows of `n_points` samples, `step_size` samples apart and from
    /// `skip` on, over the streams that were made of handed-out samples, and
    /// adds the results.
    pub fn absorb(
        &mut self,
        times: &[i64],
        streams: &Streams,
        skip: usize,
        n_points: usize,
        step_size: usize,
    )
        requires
            step_size > 0,
        ensures
            final(self)@ == old(self)@.after_absorb(
                times@,
                streams@,
                skip as int,
                n_points as int,
                step_size as int,
            ),
    {
        let out: ProcessingResults = kernel::processing_kernel(
            times,
            streams,
            skip,
            n_points,
            step_size,
        );
        join(&mut self.results.times_ns, out.times_ns);
        join(&mut self.results.x_pkpk, out.x_pkpk);
        join(&mut self.results.y_pkpk, out.y_pkpk);
        join(&mut self.results.z_pkpk, out.z_pkpk);
        join(&mut self.results.xy_pkpk, out.xy_pkpk);
        join(&mut self.results.xz_pkpk, out.xz_pkpk);
        join(&mut self.results.yz_pkpk, out.yz_pkpk);
        assert(self@.results =~= old(self)@.results.then_those(
            kernel::kernel_from(
                times@,
                streams@,
                skip as int,
                n_points as int,
                step_size as int,
            ),
        ));
    }

    /// All results.
    pub fn finish(self) -> (r: ProcessingResults)
        ensures
            r@ == self@.results,
    {
        self.results
    }
}

/// Whether a series holds these values from a place on.
pub open spec fn tail_of<T>(all: Seq<T>, start: int, kept: Seq<T>) -> bool {
    kept.len() == all.len() - start && forall|i: int|
        0 <= i < kept.len() ==> #[trigger] kept[i] == all[start + i]
}

/// A block that completes no window is kept behind what was kept before, and
/// nothing else changes.
pub proof fn law_feed_waits(s: ProcessorModel, block: BlockModel, n: int, step: int)
    requires
        s.residual.x.len() + block.x.len() < n,
    ensures
        ({
            let t = s.after_feed(block, n, step);
            &&& s.handed_out(block, n) is None
            &&& t.residual.times == s.residual.times + block.times
            &&& t.residual.x == s.residual.x + block.x
            &&& t.residual.y == s.residual.y + block.y
            &&& t.residual.z == s.residual.z + block.z
            &&& t.skip == s.skip
            &&& t.results == s.results
            &&& t.cfg == s.cfg
        }),
{
}

/// A block that completes a window is handed out behind what was kept before.
/// Of all that, `n - 1` samples at the end are kept, in every channel from the
/// same place on; results and settings stay.
pub proof fn law_feed_hands_out(s: ProcessorModel, block: BlockModel, n: int, step: int)
    requires
        0 < n <= s.residual.x.len() + block.x.len(),
        feedable(s.residual, block, n),
    ensures
        ({
            let t = s.after_feed(block, n, step);
            let start = s.residual.x.len() + block.x.len() - (n - 1);
            &&& s.handed_out(block, n) matches Some((all, skip)) && all.times == s.residual.times
                + block.times && all.x == s.residual.x + block.x && all.y == s.residual.y + block.y
                && all.z == s.residual.z + block.z && skip == s.skip
            &&& tail_of(s.residual.times + block.times, start, t.residual.times)
            &&& tail_of(s.residual.x + block.x, start, t.residual.x)
            &&& tail_of(s.residual.y + block.y, start, t.residual.y)
            &&& tail_of(s.residual.z + block.z, start, t.residual.z)
            &&& t.residual.x.len() == n - 1
            &&& t.results == s.results
            &&& t.cfg == s.cfg
        }),
{
}

/// The next window starts a whole number of steps behind the first one, and it
/// is the first of these that does not end within the samples that came.
pub proof fn law_next_window(len: int, skip: int, n: int, step: int)
    requires
        skip >= 0,
        step > 0,
        0 < n <= len,
    ensures
        ({
            let at = len - (n - 1) + next_skip(len, skip, n, step);
            &&& at >= skip
            &&& (at - skip) % step == 0
            &&& at + n > len
            &&& at > skip ==> at - step + n <= len
        }),
{
    let d = len - skip - n;
    if d >= 0 {
        let q = d / step;
        vstd::arithmetic::div_mod::lemma_fundamental_div_mod(d, step);
        assert((q + 1) * step == step * q + step) by (nonlinear_arith);
        vstd::arithmetic::div_mod::lemma_mod_multiples_basic(q + 1, step);
    } else {
        assert(0 * step == 0);
        vstd::arithmetic::div_mod::lemma_small_mod(0, step as nat);
    }
}

/// Results are only added: those before stay in front, series by series, and
/// what is kept stays as it is.
pub proof fn law_absorb_adds(
    s: ProcessorModel,
    times: Seq<i64>,
    streams: StreamsModel,
    skip: int,
    n: int,
    step: int,
)
    ensures
        ({
            let t = s.after_absorb(times, streams, skip, n, step);
            let more = kernel::kernel_from(times, streams, skip, n, step);
            &&& t.results.times == s.results.times + more.times
            &&& t.results.x == s.results.x + more.x
            &&& t.results.y == s.results.y + more.y
            &&& t.results.z == s.results.z + more.z
            &&& t.results.xy == s.results.xy + more.xy
            &&& t.results.xz == s.results.xz + more.xz
            &&& t.results.yz == s.results.yz + more.yz
            &&& t.residual == s.residual
            &&& t.skip == s.skip
            &&& t.cfg == s.cfg
        }),
{
}

/// A block can follow where it completes no window, and otherwise exactly where
/// times and channels reach the place from which samples are kept.
pub proof fn law_feedable(residual: BlockModel, block: BlockModel, n: int)
    requires
        n >= 0,
    ensures
        ({
            let len = residual.x.len() + block.x.len();
            let start = if n > 0 {
                len - (n - 1)
            } else {
                len as int
            };
            &&& len < n ==> feedable(residual, block, n)
            &&& len >= n ==> feedable(residual, block, n) == (start <= residual.times.len()
                + block.times.len() && start <= residual.y.len() + block.y.len() && start
                <= residual.z.len() + block.z.len())
        }),
{
}

} // verus!
