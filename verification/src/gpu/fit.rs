//! Fitting and scoring by launches.

use vstd::arithmetic::power2::lemma_pow2_pos;
use vstd::arithmetic::power2::lemma_pow2_unfold;
use vstd::arithmetic::power2::pow2;
use vstd::prelude::*;
use vstd::slice::slice_to_vec;

use crate::arith::counted32;
use crate::arith::deterministic;
use crate::arith::difference32;
use crate::arith::difference64;
use crate::arith::div32;
use crate::arith::div64;
use crate::arith::narrow;
use crate::arith::narrowed;
use crate::arith::quotient32;
use crate::arith::quotient64;
use crate::arith::root32;
use crate::arith::sqrt32;
use crate::arith::sub32;
use crate::arith::sub64;
use crate::arith::widen;
use crate::arith::widened;
use crate::arith::Arith;
use crate::binning::bin_index;
use crate::binning::bounds_of;
use crate::binning::lemma_bin_range;
use crate::binning::lemma_bin_splits;
use crate::booster::columns_exist;
use crate::booster::encoded_features;
use crate::booster::fitted_bounds;
use crate::booster::fitting_of;
use crate::booster::start_score;
use crate::booster::times;
use crate::booster::Booster;
use crate::config::Config;
use crate::config::Objective;
use crate::data::lemma_boundaries_ascend;
use crate::data::midpoints_monotone;
use crate::data::Dataset;
use crate::encoding::lemma_encoded_columns;
use crate::encoding::transform;
use crate::float::F32;
use crate::float::F64;
use crate::float::MILLIONTH32;
use crate::float::ONE32;
use crate::float::ONE64;
use crate::float::TWO64;
use crate::forest::leaf_count;
use crate::forest::leaf_of;
use crate::forest::lemma_leaf_same;
use crate::forest::lemma_score_same;
use crate::forest::row_of;
use crate::forest::Forest;
use crate::gpu::acc::Accum;
use crate::gpu::importance::counted_on;
use crate::gpu::importance::lemma_all_counted;
use crate::gpu::importance::lemma_device_importance;
use crate::gpu::importance::picks;
use crate::gpu::laws::bin_splits;
use crate::gpu::laws::forest_in;
use crate::gpu::laws::holds_rows;
use crate::gpu::laws::lemma_device_scores;
use crate::gpu::laws::lemma_poised;
use crate::gpu::laws::lemma_tree_kept;
use crate::gpu::laws::poised;
use crate::gpu::leaf::predict;
use crate::gpu::leaf::predict_var;
use crate::gpu::machine::Task;
use crate::gpu::plan::Shape;
use crate::gpu::rows::bin_features;
use crate::gpu::rows::column_bins;
use crate::gpu::rows::lemma_packed_bin;
use crate::gpu::rows::logistic_hessian;
use crate::gpu::rows::pack_bins4;
use crate::gpu::rows::packed_bins;
use crate::gpu::run::grow_forest;
use crate::gpu::run::grown;
use crate::gpu::run::Job;
use crate::gpu::setup::all_directions;
use crate::gpu::setup::column_major;
use crate::gpu::setup::directions;
use crate::gpu::setup::lemma_replicas_fit;
use crate::gpu::setup::lemma_transposed;
use crate::gpu::setup::norm_ppf;
use crate::gpu::setup::normal_quantile;
use crate::gpu::setup::replica_count;
use crate::gpu::setup::replicas_within;
use crate::gpu::setup::seed_of;
use crate::gpu::setup::transposed;
use crate::gpu::split::LEAST_GAIN32;
use crate::gpu::steps::accumulates;
use crate::gpu::steps::at_leaf;
use crate::gpu::steps::lemma_poised_derivatives;
use crate::gpu::steps::lemma_run_leaf;
use crate::gpu::steps::step_fits;
use crate::importance::counts_up;
use crate::importance::splits_on;
use crate::reals::faithful;
use crate::steps::gradients_after;
use crate::steps::newton;
use crate::steps::sent_to;
use crate::sums::lemma_part_same;
use crate::sums::part;
use crate::sums::parts_fit32;

verus! {

/// The number of places of the histogram of the last level.
pub open spec fn last_hist(ds: Dataset, cfg: Config) -> int {
    pow2((cfg.depth - 1) as nat) * ds.n_features * cfg.n_bins
}

/// What the launches depend on. Whether there are halves says whether the device can add in
/// half precision.
pub open spec fn device_shape(ds: Dataset, cfg: Config, halves: bool) -> Shape {
    let zero = F32 { bits: 0 };
    Shape {
        n: ds.n_train as u32,
        nf: ds.n_features as u32,
        nb: cfg.n_bins as u32,
        depth: cfg.depth as u32,
        n_trees: cfg.n_trees as u32,
        replicas: replicas_within(cfg.replicas as int, last_hist(ds, cfg)) as u32,
        logistic: cfg.objective == Objective::Logistic,
        clamp: zero.below(cfg.clamp_hessian),
        goss: zero.below(cfg.goss_top) && cfg.goss_top.below(F32 { bits: ONE32 }),
        subtract: cfg.subtract,
        smem: cfg.smem_hist,
        half: halves && cfg.f16_hist,
        integer: cfg.int_hist,
    }
}

/// The bins of all rows, feature by feature.
pub open spec fn device_bins(x: Seq<F32>, bounds: Seq<F32>, n: int, nf: int, nb: int) -> Seq<u8> {
    column_bins(transposed(x, n, nf), bounds, n, nf, nb - 1)
}

/// Two bins share a byte.
pub open spec fn packs(cfg: Config) -> bool {
    cfg.pack4 && cfg.n_bins <= 16
}

/// What a run works on.
pub open spec fn device_task<A: Arith>(ds: Dataset, cfg: Config, halves: bool) -> Task {
    let n = ds.n_train as int;
    let nf = ds.n_features as int;
    let bounds = fitted_bounds::<A>(ds, cfg);
    let bins = device_bins(encoded_features::<A>(ds, cfg), bounds, n, nf, cfg.n_bins as int);
    let one = F32 { bits: ONE32 };
    let one64 = F64 { bits: ONE64 };
    Task {
        shape: device_shape(ds, cfg, halves),
        bins: if packs(cfg) {
            packed_bins(bins, n, nf, (n + 1) / 2)
        } else {
            bins
        },
        packed: packs(cfg),
        stride: (if packs(cfg) {
            (n + 1) / 2
        } else {
            n
        }) as u32,
        y: ds.y_train@,
        bounds,
        monotone: directions(cfg.monotone@, nf as nat),
        base: start_score::<A>(ds.y_train@, n, cfg.objective),
        lambda: cfg.lambda,
        lr: cfg.learning_rate,
        min_child: cfg.min_child_h,
        colsample: cfg.colsample,
        subsample: cfg.subsample,
        int_scale: cfg.int_scale,
        inv_scale: quotient32::<A>(one, cfg.int_scale),
        clamp_z: narrowed::<A>(
            normal_quantile::<A>(difference64::<A>(one64, widened::<A>(cfg.clamp_hessian))),
        ),
        goss_q: narrowed::<A>(
            normal_quantile::<A>(
                difference64::<A>(
                    one64,
                    quotient64::<A>(widened::<A>(cfg.goss_top), F64 { bits: TWO64 }),
                ),
            ),
        ),
        amplify: quotient32::<A>(
            difference32::<A>(one, cfg.goss_top),
            cfg.goss_other.larger(F32 { bits: MILLIONTH32 }),
        ),
        other_rate: cfg.goss_other,
    }
}

/// A data set can be fitted by launches: all counts can be written as 32-bit words.
pub open spec fn launchable(ds: Dataset, cfg: Config) -> bool {
    &&& ds.well_formed()
    &&& 0 < ds.n_train
    &&& 0 < ds.n_features
    &&& 2 <= cfg.n_bins <= 256
    &&& 0 < cfg.depth < 32
    &&& ds.n_train + 4096 <= usize::MAX
    &&& ds.n_train * ds.n_features <= u32::MAX
    &&& last_hist(ds, cfg) <= u32::MAX
    &&& cfg.n_trees * cfg.depth <= u32::MAX
    &&& cfg.n_trees * pow2(cfg.depth as nat) <= u32::MAX
    &&& forall|k: int|
        0 <= k < cfg.categorical@.len() ==> #[trigger] cfg.categorical@[k] < ds.n_features
}

proof fn lemma_shape(ds: Dataset, cfg: Config, halves: bool)
    requires
        launchable(ds, cfg),
    ensures
        device_shape(ds, cfg, halves).well_formed(),
        ds.n_train <= u32::MAX,
        ds.n_features <= u32::MAX,
        cfg.n_trees <= u32::MAX,
        0 < last_hist(ds, cfg),
        device_shape(ds, cfg, halves).replicas == replicas_within(
            cfg.replicas as int,
            last_hist(ds, cfg),
        ),
{
    let n = ds.n_train as int;
    let nf = ds.n_features as int;
    let nb = cfg.n_bins as int;
    let g = pow2((cfg.depth - 1) as nat) as int;
    let nt = cfg.n_trees as int;
    let dp = cfg.depth as int;
    lemma_pow2_pos((cfg.depth - 1) as nat);
    lemma_pow2_unfold(cfg.depth as nat);
    assert(n <= n * nf && nf <= n * nf) by (nonlinear_arith)
        requires
            n >= 1,
            nf >= 1,
    ;
    assert(nt <= nt * dp) by (nonlinear_arith)
        requires
            nt >= 0,
            dp >= 1,
    ;
    let size = last_hist(ds, cfg);
    assert(2 * g <= size) by (nonlinear_arith)
        requires
            size == g * nf * nb,
            g >= 1,
            nf >= 1,
            nb >= 2,
    ;
    lemma_replicas_fit(cfg.replicas as int, size);
    let r = replicas_within(cfg.replicas as int, size);
    assert(r <= r * size && r * (2 * g) <= r * size) by (nonlinear_arith)
        requires
            r >= 1,
            size >= 2 * g,
            g >= 1,
    ;
}

/// The bins of a run are below the number of bins.
proof fn lemma_bins_below(x: Seq<F32>, bounds: Seq<F32>, n: int, nf: int, nb: int)
    requires
        2 <= nb <= 256,
        n > 0,
        nf > 0,
        bounds.len() == nf * (nb - 1),
    ensures
        device_bins(x, bounds, n, nf, nb).len() == n * nf,
        forall|k: int| 0 <= k < n * nf ==> #[trigger] device_bins(x, bounds, n, nf, nb)[k] < nb,
        forall|i: int, f: int|
            #![trigger device_bins(x, bounds, n, nf, nb)[f * n + i]]
            0 <= i < n && 0 <= f < nf ==> device_bins(x, bounds, n, nf, nb)[f * n + i]
                == bin_index(bounds_of(bounds, f, nb - 1), transposed(x, n, nf)[f * n + i]),
{
    let bins = device_bins(x, bounds, n, nf, nb);
    let xcol = transposed(x, n, nf);
    assert(n * nf >= 0) by (nonlinear_arith)
        requires
            n > 0,
            nf > 0,
    ;
    assert forall|k: int| 0 <= k < n * nf implies #[trigger] bins[k] < nb && bins[k] == bin_index(
        bounds_of(bounds, k / n, nb - 1),
        xcol[k],
    ) by {
        let f = k / n;
        assert(0 <= f < nf) by (nonlinear_arith)
            requires
                f == k / n,
                0 <= k < n * nf,
                n > 0,
        ;
        assert(0 <= f * (nb - 1) && f * (nb - 1) + (nb - 1) <= nf * (nb - 1)) by (nonlinear_arith)
            requires
                0 <= f < nf,
                nb >= 2,
        ;
        lemma_bin_range(bounds_of(bounds, f, nb - 1), xcol[k]);
    }
    assert forall|i: int, f: int|
        #![trigger bins[f * n + i]]
        0 <= i < n && 0 <= f < nf implies bins[f * n + i] == bin_index(
        bounds_of(bounds, f, nb - 1),
        xcol[f * n + i],
    ) by {
        let k = f * n + i;
        assert(0 <= k < n * nf) by (nonlinear_arith)
            requires
                k == f * n + i,
                0 <= i < n,
                0 <= f < nf,
        ;
        assert(k == n * f + i) by (nonlinear_arith)
            requires
                k == f * n + i,
        ;
        vstd::arithmetic::div_mod::lemma_fundamental_div_mod_converse(k, n, f, i);
    }
}

/// What a run reads of its bins is what the rows were binned to, packed or not.
proof fn lemma_task_bins(j: Task, x: Seq<F32>, bounds: Seq<F32>, n: int, nf: int, nb: int)
    requires
        2 <= nb <= 256,
        0 < n <= u32::MAX,
        nf > 0,
        bounds.len() == nf * (nb - 1),
        j.packed ==> nb <= 16,
        j.bins == (if j.packed {
            packed_bins(device_bins(x, bounds, n, nf, nb), n, nf, (n + 1) / 2)
        } else {
            device_bins(x, bounds, n, nf, nb)
        }),
        j.stride == (if j.packed {
            (n + 1) / 2
        } else {
            n
        }),
    ensures
        j.view_bins().covers(n, nf),
        forall|i: int, f: int|
            0 <= i < n && 0 <= f < nf ==> #[trigger] j.view_bins().bin(i, f) < nb,
        forall|i: int, f: int|
            0 <= i < n && 0 <= f < nf ==> #[trigger] j.view_bins().bin(i, f) == bin_index(
                bounds_of(bounds, f, nb - 1),
                transposed(x, n, nf)[f * n + i],
            ),
{
    let bins = device_bins(x, bounds, n, nf, nb);
    lemma_bins_below(x, bounds, n, nf, nb);
    assert(nf * n == n * nf && nf * ((n + 1) / 2) >= 0) by (nonlinear_arith)
        requires
            n > 0,
            nf > 0,
    ;
    assert forall|i: int, f: int| 0 <= i < n && 0 <= f < nf implies #[trigger] j.view_bins().bin(
        i,
        f,
    ) == bin_index(bounds_of(bounds, f, nb - 1), transposed(x, n, nf)[f * n + i])
        && j.view_bins().bin(i, f) < nb by {
        assert(0 <= f * n + i < n * nf) by (nonlinear_arith)
            requires
                0 <= i < n,
                0 <= f < nf,
        ;
        assert(bins[f * n + i] < nb);
        if j.packed {
            assert forall|k: int| 0 <= k < bins.len() implies #[trigger] bins[k] < 16 by {}
            lemma_packed_bin(bins, n, nf, i, f);
        }
    }
}

/// A product that is at most as large as a 32-bit word can say.
fn short(p: Option<usize>) -> (r: bool)
    ensures
        r == (p is Some && p->0 <= u32::MAX),
{
    match p {
        Some(v) => v as u64 <= 0xFFFF_FFFF,
        None => false,
    }
}

/// The binned rows of a run.
fn bin_rows(x: &[F32], bounds: &[F32], n: usize, nf: usize, nb: usize, pack: bool) -> (r: Vec<u8>)
    requires
        0 < n,
        0 < nf,
        n * nf <= u32::MAX,
        2 <= nb <= 256,
        x@.len() == n * nf,
        bounds@.len() == nf * (nb - 1),
    ensures
        r@ == (if pack {
            packed_bins(
                device_bins(x@, bounds@, n as int, nf as int, nb as int),
                n as int,
                nf as int,
                (n + 1) / 2,
            )
        } else {
            device_bins(x@, bounds@, n as int, nf as int, nb as int)
        }),
{
    proof {
        assert(n <= n * nf && nf <= n * nf) by (nonlinear_arith)
            requires
                n >= 1,
                nf >= 1,
        ;
        lemma_bins_below(x@, bounds@, n as int, nf as int, nb as int);
    }
    assert(x.len() == n * nf);
    let xcol = column_major(x, n, nf);
    let size: usize = n * nf;
    let mut bins: Vec<u8> = vec![0u8; size];
    bin_features(xcol.as_slice(), bounds, &mut bins, n as u32, nf as u32, nb as u32);
    assert(bins@ =~= device_bins(x@, bounds@, n as int, nf as int, nb as int));
    if pack {
        let half: usize = n / 2 + n % 2;
        assert(half == (n + 1) / 2);
        assert(0 <= nf * half <= n * nf && nf * n == n * nf) by (nonlinear_arith)
            requires
                0 <= half <= n,
                nf >= 0,
        ;
        let len: usize = nf * half;
        let mut packed: Vec<u8> = vec![0u8; len];
        pack_bins4(bins.as_slice(), &mut packed, n as u32, nf as u32, half as u32);
        assert(packed@ =~= packed_bins(bins@, n as int, nf as int, half as int));
        packed
    } else {
        bins
    }
}

/// How many standard deviations from the mean leave the given share above them.
fn upper_quantile<A: Arith>(share: F64) -> (z: F32)
    ensures
        deterministic::<A>() ==> z == narrowed::<A>(
            normal_quantile::<A>(difference64::<A>(F64 { bits: ONE64 }, share)),
        ),
{
    narrow::<A>(norm_ppf::<A>(sub64::<A>(F64 { bits: ONE64 }, share)))
}

impl Booster {
    /// Tells whether a data set can be fitted by launches.
    pub fn can_launch(&self, ds: &Dataset) -> (r: bool)
        ensures
            r == launchable(*ds, self.cfg),
    {
        let n: usize = ds.n_train;
        let nf: usize = ds.n_features;
        let nb: usize = self.cfg.n_bins;
        let depth: usize = self.cfg.depth;
        if n == 0 || nf == 0 || nb < 2 || nb > 256 || depth == 0 || depth >= 32 || n > usize::MAX
            - 4096 {
            return false;
        }
        if ds.y_train.len() != n || ds.y_test.len() != ds.n_test {
            return false;
        }
        let train = times(Some(n), nf);
        let test = times(Some(ds.n_test), nf);
        match (train, test) {
            (Some(a), Some(b)) => if ds.x_train.len() != a || ds.x_test.len() != b {
                return false;
            },
            _ => {
                assert(ds.x_train.len() == ds.x_train@.len());
                assert(ds.x_test.len() == ds.x_test@.len());
                return false;
            },
        }
        let groups: usize = leaf_count(depth - 1);
        let leaves: usize = leaf_count(depth);
        proof {
            let a = groups * nf;
            assert(a >= 0) by (nonlinear_arith)
                requires
                    groups >= 0,
                    nf >= 0,
                    a == groups * nf,
            ;
            assert(a <= a * nb) by (nonlinear_arith)
                requires
                    a >= 0,
                    nb >= 1,
            ;
        }
        short(train) && short(times(times(Some(groups), nf), nb)) && short(
            times(Some(self.cfg.n_trees), depth),
        ) && short(times(Some(self.cfg.n_trees), leaves)) && columns_exist(
            self.cfg.categorical.as_slice(),
            nf,
        )
    }

    /// Encodes the categories, bins the rows, and lays down what the launches work on. With
    /// `halves`, the device can add in half precision.
    pub fn device_job<A: Arith>(&mut self, ds: &Dataset, halves: bool) -> (j: Job)
        requires
            launchable(*ds, old(self).cfg),
        ensures
            j@.valid(),
            j.shape == device_shape(*ds, old(self).cfg, halves),
            final(self).cfg == old(self).cfg,
            final(self).n_features == ds.n_features,
            final(self).base_score == j.base,
            final(self).feat == old(self).feat,
            final(self).thr == old(self).thr,
            final(self).leafval == old(self).leafval,
            final(self).fi_gain == old(self).fi_gain,
            final(self).fi_count == old(self).fi_count,
            final(self).leafvar == old(self).leafvar,
            final(self).cfg.categorical@.len() == 0 ==> final(self).encoders == old(self).encoders
                && final(self).gmean == old(self).gmean,
            final(self).cfg.categorical@.len() > 0 ==> final(self).has_encoders(),
            deterministic::<A>() ==> final(self).started::<A>(*ds) && j@ == device_task::<A>(
                *ds,
                old(self).cfg,
                halves,
            ),
    {
        let n: usize = ds.n_train;
        let nf: usize = ds.n_features;
        let nb: usize = self.cfg.n_bins;
        let one = F32 { bits: ONE32 };
        let zero = F32 { bits: 0 };
        proof {
            lemma_shape(*ds, self.cfg, halves);
            let a = pow2((self.cfg.depth - 1) as nat) * nf;
            assert(0 <= a <= a * nb) by (nonlinear_arith)
                requires
                    a == pow2((self.cfg.depth - 1) as nat) * nf,
                    nf >= 0,
                    nb >= 1,
            ;
        }
        let groups: usize = leaf_count(self.cfg.depth - 1);
        let replicas: usize = replica_count(self.cfg.replicas, groups * nf * nb);
        let (xtr, bounds) = self.prepare_fit::<A>(ds);
        let packed = self.cfg.pack4 && nb <= 16;
        let bins = bin_rows(xtr.as_slice(), bounds.as_slice(), n, nf, nb, packed);
        let stride: usize = if packed {
            n / 2 + n % 2
        } else {
            n
        };
        let shape = Shape {
            n: n as u32,
            nf: nf as u32,
            nb: nb as u32,
            depth: self.cfg.depth as u32,
            n_trees: self.cfg.n_trees as u32,
            replicas: replicas as u32,
            logistic: self.cfg.objective == Objective::Logistic,
            clamp: zero.less(self.cfg.clamp_hessian),
            goss: zero.less(self.cfg.goss_top) && self.cfg.goss_top.less(one),
            subtract: self.cfg.subtract,
            smem: self.cfg.smem_hist,
            half: halves && self.cfg.f16_hist,
            integer: self.cfg.int_hist,
        };
        let half_top = div64::<A>(widen::<A>(self.cfg.goss_top), F64 { bits: TWO64 });
        let amplify = div32::<A>(
            sub32::<A>(one, self.cfg.goss_top),
            self.cfg.goss_other.max(F32 { bits: MILLIONTH32 }),
        );
        let j = Job {
            shape,
            bins,
            packed,
            stride: stride as u32,
            y: slice_to_vec(ds.y_train.as_slice()),
            bounds,
            monotone: all_directions(self.cfg.monotone.as_slice(), nf),
            base: self.base_score,
            lambda: self.cfg.lambda,
            lr: self.cfg.learning_rate,
            min_child: self.cfg.min_child_h,
            colsample: self.cfg.colsample,
            subsample: self.cfg.subsample,
            int_scale: self.cfg.int_scale,
            inv_scale: div32::<A>(one, self.cfg.int_scale),
            clamp_z: upper_quantile::<A>(widen::<A>(self.cfg.clamp_hessian)),
            goss_q: upper_quantile::<A>(half_top),
            amplify,
            other_rate: self.cfg.goss_other,
        };
        proof {
            lemma_task_bins(j@, xtr@, bounds@, n as int, nf as int, nb as int);
        }
        j
    }
}

impl Booster {
    /// Grows the forest by launches, and keeps what they leave in the buffers. Sums over bins
    /// and replicas are accumulated in the precision `C`. With `halves`, rows can be added up
    /// in half precision.
    pub fn fit_inner<A: Arith, C: Accum<A>>(&mut self, ds: &Dataset, halves: bool)
        requires
            launchable(*ds, old(self).cfg),
        ensures
            final(self).cfg == old(self).cfg,
            final(self).n_features == ds.n_features,
            final(self).has_forest(),
            final(self).sized(),
            final(self).cfg.categorical@.len() == 0 ==> final(self).encoders == old(self).encoders
                && final(self).gmean == old(self).gmean,
            final(self).cfg.categorical@.len() > 0 ==> final(self).has_encoders(),
            !final(self).cfg.pgbm ==> final(self).leafvar == old(self).leafvar,
            final(self).cfg.pgbm ==> final(self).has_variances() && final(self).leafvar@.len()
                == final(self).cfg.n_trees * pow2(final(self).cfg.depth as nat),
            deterministic::<A>() ==> ({
                let cfg = old(self).cfg;
                let m = grown::<A, C>(device_task::<A>(*ds, cfg, halves), cfg.n_trees as nat);
                &&& final(self).started::<A>(*ds)
                &&& final(self).feat@ == m.pick.feat
                &&& final(self).thr@ == m.pick.thr
                &&& final(self).leafval@ == m.leaves.val
                &&& final(self).fi_gain@ == m.pick.fi_gain
                &&& final(self).fi_count@ == m.pick.fi_count
                &&& cfg.pgbm ==> final(self).leafvar@ == m.leaves.var
            }),
    {
        proof {
            lemma_shape(*ds, self.cfg, halves);
        }
        let j = self.device_job::<A>(ds, halves);
        let b = grow_forest::<A, C>(&j);
        self.feat = b.pick.feat;
        self.thr = b.pick.thr;
        self.leafval = b.leaves.val;
        self.fi_gain = b.pick.fi_gain;
        self.fi_count = b.pick.fi_count;
        if self.cfg.pgbm {
            self.leafvar = b.leaves.var;
        }
    }

    /// The variances of the leaves, as a forest of their own.
    pub open spec fn variances(self) -> Forest {
        Forest { base: F32 { bits: 0 }, leafval: self.leafvar@, ..self.forest() }
    }

    /// There are variances for all leaves.
    pub open spec fn has_variances(self) -> bool {
        self.cfg.n_trees * pow2(self.cfg.depth as nat) <= self.leafvar@.len()
    }

    /// Rows as they are scored: with their categories encoded.
    pub fn prepare(&self, x: &[F32], n: usize) -> (xt: Vec<F32>)
        requires
            self.has_encoders(),
            n * self.n_features <= x@.len(),
        ensures
            xt@ == self.prepared(x@, n as int),
            xt@.len() == x@.len(),
    {
        let mut xt = slice_to_vec(x);
        if self.cfg.categorical.len() > 0 {
            transform(
                &mut xt,
                n,
                self.n_features,
                self.cfg.categorical.as_slice(),
                &self.encoders,
                self.gmean,
                self.cfg.cat_hash_buckets,
            );
        }
        xt
    }

    /// The counts that scoring by a launch needs can be written as 32-bit words.
    pub open spec fn launches_scores(self, n: int) -> bool {
        &&& n <= u32::MAX
        &&& self.n_features <= u32::MAX
        &&& self.cfg.n_trees <= u32::MAX
    }

    /// Scores the first `n` rows by a launch.
    pub fn predict<A: Arith>(&self, x: &[F32], n: usize) -> (out: Vec<F32>)
        requires
            self.has_forest(),
            self.has_encoders(),
            self.launches_scores(n as int),
            n * self.n_features <= x@.len(),
        ensures
            out@.len() == n,
            deterministic::<A>() ==> forall|i: int|
                0 <= i < n ==> #[trigger] out@[i] == self.forest().score::<A>(
                    row_of(self.prepared(x@, n as int), i, self.n_features as int),
                    self.cfg.n_trees as nat,
                ),
    {
        let xt = self.prepare(x, n);
        let mut out: Vec<F32> = vec![F32 { bits: 0 }; n];
        predict::<A>(
            xt.as_slice(),
            self.feat.as_slice(),
            self.thr.as_slice(),
            self.leafval.as_slice(),
            &mut out,
            n as u32,
            self.n_features as u32,
            self.cfg.depth as u32,
            self.cfg.n_trees as u32,
            self.base_score,
        );
        out
    }

    /// The standard deviation of the scores of the first `n` rows: the root of the summed
    /// variances of the leaves that a row is at.
    pub fn predict_std<A: Arith>(&self, x: &[F32], n: usize) -> (out: Vec<F32>)
        requires
            self.has_forest(),
            self.has_encoders(),
            self.has_variances(),
            self.launches_scores(n as int),
            n * self.n_features <= x@.len(),
        ensures
            out@.len() == n,
            deterministic::<A>() ==> forall|i: int|
                0 <= i < n ==> #[trigger] out@[i] == std_of::<A>(
                    self.variances().score::<A>(
                        row_of(self.prepared(x@, n as int), i, self.n_features as int),
                        self.cfg.n_trees as nat,
                    ),
                ),
    {
        let xt = self.prepare(x, n);
        let mut var: Vec<F32> = vec![F32 { bits: 0 }; n];
        predict_var::<A>(
            xt.as_slice(),
            self.feat.as_slice(),
            self.thr.as_slice(),
            self.leafvar.as_slice(),
            &mut var,
            n as u32,
            self.n_features as u32,
            self.cfg.depth as u32,
            self.cfg.n_trees as u32,
        );
        let out = deviations::<A>(var.as_slice());
        proof {
            if deterministic::<A>() {
                assert forall|i: int| 0 <= i < n implies #[trigger] out@[i] == std_of::<A>(
                    self.variances().score::<A>(
                        row_of(self.prepared(x@, n as int), i, self.n_features as int),
                        self.cfg.n_trees as nat,
                    ),
                ) by {
                    assert(var@[i] == self.variances().score::<A>(
                        row_of(xt@, i, self.n_features as int),
                        self.cfg.n_trees as nat,
                    ));
                }
            }
        }
        out
    }
}

/// The standard deviation that a variance gives: its root, and zero where it is negative.
pub open spec fn std_of<A: Arith>(var: F32) -> F32 {
    root32::<A>(var.larger(F32 { bits: 0 }))
}

/// The standard deviations that variances give.
pub fn deviations<A: Arith>(var: &[F32]) -> (out: Vec<F32>)
    ensures
        out@.len() == var@.len(),
        deterministic::<A>() ==> forall|i: int|
            0 <= i < var@.len() ==> #[trigger] out@[i] == std_of::<A>(var@[i]),
{
    let mut out: Vec<F32> = Vec::new();
    while out.len() < var.len()
        invariant
            out@.len() <= var@.len(),
            deterministic::<A>() ==> forall|i: int|
                0 <= i < out@.len() ==> #[trigger] out@[i] == std_of::<A>(var@[i]),
        decreases var@.len() - out@.len(),
    {
        let v = var[out.len()].max(F32 { bits: 0 });
        out.push(sqrt32::<A>(v));
    }
    out
}

/// The data of a run have the sizes that its shape says.
proof fn lemma_valid_task<A: Arith>(ds: Dataset, cfg: Config, halves: bool)
    requires
        launchable(ds, cfg),
    ensures
        device_task::<A>(ds, cfg, halves).valid(),
{
    let j = device_task::<A>(ds, cfg, halves);
    let x = encoded_features::<A>(ds, cfg);
    let nf = ds.n_features as int;
    let nb = cfg.n_bins as int;
    lemma_shape(ds, cfg, halves);
    assert(nf * (nb - 1) >= 0) by (nonlinear_arith)
        requires
            nf >= 0,
            nb >= 1,
    ;
    lemma_task_bins(j, x, j.bounds, ds.n_train as int, nf, nb);
}

/// The rows of a run have a bin above a split just where their value is above its threshold.
proof fn lemma_task_rows<A: Arith>(ds: Dataset, cfg: Config, halves: bool)
    requires
        launchable(ds, cfg),
        forall|k: int|
            0 <= k < ds.x_train@.len() ==> !(#[trigger] encoded_features::<A>(ds, cfg)[k]).nan(),
        cfg.unique_bins ==> midpoints_monotone::<A>(encoded_features::<A>(ds, cfg)),
    ensures
        device_task::<A>(ds, cfg, halves).valid(),
        holds_rows(device_task::<A>(ds, cfg, halves), encoded_features::<A>(ds, cfg)),
{
    let j = device_task::<A>(ds, cfg, halves);
    let x = encoded_features::<A>(ds, cfg);
    let n = ds.n_train as int;
    let nf = ds.n_features as int;
    let nb = cfg.n_bins as int;
    lemma_shape(ds, cfg, halves);
    lemma_encoded_columns::<A>(
        fitting_of::<A>(ds, cfg),
        ds.x_train@,
        cfg.categorical@,
        cfg.categorical@.len(),
    );
    assert(nf * (nb - 1) >= 0) by (nonlinear_arith)
        requires
            nf >= 0,
            nb >= 1,
    ;
    lemma_task_bins(j, x, j.bounds, n, nf, nb);
    lemma_transposed(x, n, nf);
    assert forall|i: int, f: int, b: int|
        0 <= i < n && 0 <= f < nf && 0 <= b < nb - 1 implies #[trigger] bin_splits(
        j,
        x,
        i,
        f,
        b,
    ) by {
        lemma_boundaries_ascend::<A>(
            x,
            n,
            nf,
            nb,
            cfg.bin_sample as int,
            cfg.unique_bins,
            f,
        );
        let bounds = bounds_of(j.bounds, f, nb - 1);
        assert(0 <= f * (nb - 1) && f * (nb - 1) + (nb - 1) <= nf * (nb - 1)) by (nonlinear_arith)
            requires
                0 <= f < nf,
                nb >= 2,
        ;
        assert(transposed(x, n, nf)[f * n + i] == x[i * nf + f]);
        assert(j.view_bins().bin(i, f) == bin_index(bounds, x[i * nf + f]));
        lemma_bin_splits(bounds, x[i * nf + f], b);
        assert(bounds[b] == j.bounds[f * (nb - 1) + b]);
    }
}

/// The scores that launches end a fit with are those that the fitted forest gives the encoded
/// train rows.
pub proof fn lemma_launched_scores<A: Arith, C: Accum<A>>(
    ds: Dataset,
    cfg: Config,
    halves: bool,
    i: int,
)
    requires
        launchable(ds, cfg),
        0 <= i < ds.n_train,
        forall|k: int|
            0 <= k < ds.x_train@.len() ==> !(#[trigger] encoded_features::<A>(ds, cfg)[k]).nan(),
        cfg.unique_bins ==> midpoints_monotone::<A>(encoded_features::<A>(ds, cfg)),
    ensures
        ({
            let j = device_task::<A>(ds, cfg, halves);
            let m = grown::<A, C>(j, cfg.n_trees as nat);
            m.rows.pred[i] == forest_in(j, m).score::<A>(
                row_of(encoded_features::<A>(ds, cfg), i, ds.n_features as int),
                cfg.n_trees as nat,
            )
        }),
{
    let j = device_task::<A>(ds, cfg, halves);
    lemma_shape(ds, cfg, halves);
    lemma_task_rows::<A>(ds, cfg, halves);
    lemma_device_scores::<A, C>(j, encoded_features::<A>(ds, cfg), cfg.n_trees as nat);
    let m = grown::<A, C>(j, cfg.n_trees as nat);
    assert(m.rows.pred[i] == forest_in(j, m).score::<A>(
        row_of(encoded_features::<A>(ds, cfg), i, j.shape.nf as int),
        cfg.n_trees as nat,
    ));
}

/// After a fit by launches, the count of a feature is the number of its splits that may be made,
/// as long as counting up to the number of all splits is exact; a feature without such splits
/// has gained nothing. Where every split may be made, these are all splits of the feature.
pub proof fn lemma_launched_importance<A: Arith, C: Accum<A>>(
    ds: Dataset,
    cfg: Config,
    halves: bool,
    f: int,
)
    requires
        launchable(ds, cfg),
        counts_up::<A>((cfg.n_trees * cfg.depth) as nat),
        0 <= f < ds.n_features,
    ensures
        ({
            let j = device_task::<A>(ds, cfg, halves);
            let m = grown::<A, C>(j, cfg.n_trees as nat);
            let list = picks::<A, C>(j, cfg.n_trees as nat);
            let all = (cfg.n_trees * cfg.depth) as nat;
            &&& list.len() == all
            &&& m.pick.feat.len() == all
            &&& m.pick.fi_count.len() == ds.n_features
            &&& m.pick.fi_gain.len() == ds.n_features
            &&& forall|k: int|
                0 <= k < all ==> m.pick.feat[k] == (#[trigger] list[k]).1 / cfg.n_bins as int
            &&& counted_on(j, list, f, all) <= all
            &&& m.pick.fi_count[f] == counted32::<A>(counted_on(j, list, f, all) as u64)
            &&& counted_on(j, list, f, all) == 0 ==> m.pick.fi_gain[f] == (F32 { bits: 0 })
            &&& (forall|k: int|
                0 <= k < all ==> (F32 { bits: LEAST_GAIN32 }).below((#[trigger] list[k]).0))
                ==> counted_on(j, list, f, all) == splits_on(m.pick.feat, f, all)
        }),
{
    let all = (cfg.n_trees * cfg.depth) as nat;
    let j = device_task::<A>(ds, cfg, halves);
    let list = picks::<A, C>(j, cfg.n_trees as nat);
    lemma_shape(ds, cfg, halves);
    lemma_valid_task::<A>(ds, cfg, halves);
    lemma_device_importance::<A, C>(j, cfg.n_trees as nat, f, all);
    if forall|k: int| 0 <= k < all ==> (F32 { bits: LEAST_GAIN32 }).below((#[trigger] list[k]).0) {
        lemma_all_counted(j, list, grown::<A, C>(j, cfg.n_trees as nat).pick.feat, f, all);
    }
}

/// Scoring on the host and by a launch agree bit for bit where no column is categorical.
pub proof fn lemma_scoring_agrees<A: Arith>(
    b: Booster,
    x: Seq<F32>,
    n: int,
    host: Seq<F32>,
    launched: Seq<F32>,
)
    requires
        b.cfg.categorical@.len() == 0,
        host.len() == n,
        launched.len() == n,
        forall|i: int|
            0 <= i < n ==> #[trigger] host[i] == b.forest().score::<A>(
                row_of(x, i, b.n_features as int),
                b.cfg.n_trees as nat,
            ),
        forall|i: int|
            0 <= i < n ==> #[trigger] launched[i] == b.forest().score::<A>(
                row_of(b.prepared(x, n), i, b.n_features as int),
                b.cfg.n_trees as nat,
            ),
    ensures
        host == launched,
{
    assert(host =~= launched);
}

/// The hessians of the train rows at the scores that the first `trees` trees of a forest give
/// them, as a launch computes them.
pub open spec fn hessians_after<A: Arith>(
    f: Forest,
    x: Seq<F32>,
    n: nat,
    logistic: bool,
    trees: nat,
) -> Seq<F32> {
    Seq::new(
        n,
        |i: int|
            if logistic {
                logistic_hessian::<A>(f.score::<A>(row_of(x, i, f.n_features as int), trees))
            } else {
                F32 { bits: ONE32 }
            },
    )
}

/// What a tree was grown from is what the finished forest says of the train rows: their leaves,
/// and their gradients and hessians at the scores of the trees before it.
proof fn lemma_tree_sources<A: Arith, C: Accum<A>>(j: Task, x: Seq<F32>, tree: int)
    requires
        j.valid(),
        holds_rows(j, x),
        0 <= tree < j.shape.n_trees,
        !j.shape.goss,
        !j.shape.clamp,
    ensures
        ({
            let rows = poised::<A, C>(j, tree).rows;
            let f = forest_in(j, grown::<A, C>(j, j.shape.n_trees as nat));
            let n = j.shape.n as nat;
            let lg = j.shape.logistic;
            &&& rows.g == gradients_after::<A>(f, x, j.y, n, lg, tree as nat)
            &&& rows.h == hessians_after::<A>(f, x, n, lg, tree as nat)
            &&& forall|i: int|
                0 <= i < n ==> #[trigger] rows.leaf[i] == leaf_of(
                    f.feat,
                    f.thr,
                    row_of(x, i, f.n_features as int),
                    tree * f.depth,
                    f.depth,
                )
        }),
{
    let rows = poised::<A, C>(j, tree).rows;
    let m = grown::<A, C>(j, j.shape.n_trees as nat);
    let own = grown::<A, C>(j, (tree + 1) as nat);
    let f = forest_in(j, m);
    let n = j.shape.n as nat;
    let d = j.shape.depth as int;
    lemma_poised::<A, C>(j, x, tree);
    lemma_tree_kept::<A, C>(j, x, tree, j.shape.n_trees as nat);
    assert forall|i: int| 0 <= i < n implies #[trigger] rows.leaf[i] == leaf_of(
        f.feat,
        f.thr,
        row_of(x, i, f.n_features as int),
        tree * f.depth,
        f.depth,
    ) by {
        assert forall|k: int| 0 <= k < d implies #[trigger] own.pick.feat[tree * d + k]
            == f.feat[tree * d + k] && own.pick.thr[tree * d + k] == f.thr[tree * d + k] by {
            assert(m.pick.feat[tree * d + k] == own.pick.feat[tree * d + k]);
            assert(m.pick.thr[tree * d + k] == own.pick.thr[tree * d + k]);
        }
        lemma_leaf_same(
            own.pick.feat,
            own.pick.thr,
            f.feat,
            f.thr,
            row_of(x, i, f.n_features as int),
            tree * d,
            tree * d,
            d as nat,
        );
    }
    lemma_scores_kept::<A, C>(j, x, tree as nat);
    assert forall|i: int| 0 <= i < n implies rows.g[i] == gradients_after::<A>(
        f,
        x,
        j.y,
        n,
        j.shape.logistic,
        tree as nat,
    )[i] && rows.h[i] == hessians_after::<A>(f, x, n, j.shape.logistic, tree as nat)[i] by {
        lemma_poised_derivatives::<A, C>(j, tree, i);
    }
    lemma_poised_derivatives::<A, C>(j, tree, 0);
    assert(rows.g =~= gradients_after::<A>(f, x, j.y, n, j.shape.logistic, tree as nat));
    assert(rows.h =~= hessians_after::<A>(f, x, n, j.shape.logistic, tree as nat));
}

/// The scores that the first trees of a run give are those that the first trees of its forest
/// give.
proof fn lemma_scores_kept<A: Arith, C: Accum<A>>(j: Task, x: Seq<F32>, t: nat)
    requires
        j.valid(),
        holds_rows(j, x),
        t <= j.shape.n_trees,
    ensures
        forall|i: int|
            0 <= i < j.shape.n ==> #[trigger] grown::<A, C>(j, t).rows.pred[i] == forest_in(
                j,
                grown::<A, C>(j, j.shape.n_trees as nat),
            ).score::<A>(row_of(x, i, j.shape.nf as int), t),
{
    let all = j.shape.n_trees as nat;
    let a = forest_in(j, grown::<A, C>(j, all));
    let b = forest_in(j, grown::<A, C>(j, t));
    lemma_device_scores::<A, C>(j, x, t);
    lemma_device_scores::<A, C>(j, x, all);
    let d = j.shape.depth as int;
    let l = j.shape.leaves();
    assert forall|k: int| 0 <= k < t * d implies #[trigger] a.feat[k] == b.feat[k] && a.thr[k]
        == b.thr[k] by {
        lemma_same_places::<A, C>(j, x, t, k, 0);
    }
    assert forall|k: int| 0 <= k < t * l implies #[trigger] a.leafval[k] == b.leafval[k] by {
        lemma_same_places::<A, C>(j, x, t, 0, k);
    }
    assert forall|i: int| 0 <= i < j.shape.n implies #[trigger] grown::<A, C>(j, t).rows.pred[i]
        == a.score::<A>(row_of(x, i, j.shape.nf as int), t) by {
        lemma_score_same::<A>(a, b, row_of(x, i, j.shape.nf as int), t);
    }
}

/// The splits and values of the first trees stay.
proof fn lemma_same_places<A: Arith, C: Accum<A>>(j: Task, x: Seq<F32>, t: nat, k: int, v: int)
    requires
        j.valid(),
        holds_rows(j, x),
        t <= j.shape.n_trees,
    ensures
        ({
            let a = grown::<A, C>(j, j.shape.n_trees as nat);
            let b = grown::<A, C>(j, t);
            &&& 0 <= k < t * j.shape.depth ==> a.pick.feat[k] == b.pick.feat[k] && a.pick.thr[k]
                == b.pick.thr[k]
            &&& 0 <= v < t * j.shape.leaves() ==> a.leaves.val[v] == b.leaves.val[v]
        }),
{
    let all = j.shape.n_trees as nat;
    let d = j.shape.depth as int;
    let l = j.shape.leaves();
    lemma_pow2_pos(j.shape.depth as nat);
    if 0 <= k < t * d {
        let tree = k / d;
        lemma_within(k, d, t as int);
        lemma_tree_kept::<A, C>(j, x, tree, all);
        lemma_tree_kept::<A, C>(j, x, tree, t);
        let own = grown::<A, C>(j, (tree + 1) as nat);
        assert(grown::<A, C>(j, all).pick.feat[k] == own.pick.feat[k]);
        assert(grown::<A, C>(j, t).pick.feat[k] == own.pick.feat[k]);
        assert(grown::<A, C>(j, all).pick.thr[k] == own.pick.thr[k]);
        assert(grown::<A, C>(j, t).pick.thr[k] == own.pick.thr[k]);
    }
    if 0 <= v < t * l {
        let tree = v / l;
        lemma_within(v, l, t as int);
        lemma_tree_kept::<A, C>(j, x, tree, all);
        lemma_tree_kept::<A, C>(j, x, tree, t);
        let own = grown::<A, C>(j, (tree + 1) as nat);
        assert(grown::<A, C>(j, all).leaves.val[v] == own.leaves.val[v]);
        assert(grown::<A, C>(j, t).leaves.val[v] == own.leaves.val[v]);
    }
}

proof fn lemma_within(k: int, d: int, t: int)
    requires
        0 < d,
        0 <= k < t * d,
    ensures
        0 <= k / d < t,
        k / d * d <= k < k / d * d + d,
{
    vstd::arithmetic::div_mod::lemma_fundamental_div_mod(k, d);
    vstd::arithmetic::div_mod::lemma_mod_bound(k, d);
    let q = k / d;
    assert(q * d == d * q) by (nonlinear_arith);
    assert(0 <= q < t) by (nonlinear_arith)
        requires
            0 <= k < t * d,
            k == d * q + k % d,
            0 <= k % d < d,
    ;
}

/// After a fit by launches on all rows, without clamping and without sampling by gradient, each
/// leaf value times the regularised hessian sum of its rows is minus the configured learning
/// rate times their gradient sum. The rows are those that the fitted forest sends to the leaf,
/// and the gradients those at the scores of the trees before; no sum may be rounded.
pub proof fn lemma_launched_leaf<A: Arith, C: Accum<A>>(
    reads: spec_fn(C, real) -> bool,
    ds: Dataset,
    cfg: Config,
    halves: bool,
    tree: int,
    l: int,
)
    requires
        faithful::<A>(),
        accumulates::<A, C>(reads),
        launchable(ds, cfg),
        forall|k: int|
            0 <= k < ds.x_train@.len() ==> !(#[trigger] encoded_features::<A>(ds, cfg)[k]).nan(),
        cfg.unique_bins ==> midpoints_monotone::<A>(encoded_features::<A>(ds, cfg)),
        !(F32 { bits: 0 }).below(cfg.clamp_hessian),
        !((F32 { bits: 0 }).below(cfg.goss_top) && cfg.goss_top.below(F32 { bits: ONE32 })),
        !cfg.subsample.below(F32 { bits: ONE32 }),
        0 <= tree < cfg.n_trees,
        0 <= l < pow2(cfg.depth as nat),
        cfg.learning_rate.finite(),
        cfg.lambda.finite(),
        ({
            let f = forest_in(
                device_task::<A>(ds, cfg, halves),
                grown::<A, C>(device_task::<A>(ds, cfg, halves), cfg.n_trees as nat),
            );
            let x = encoded_features::<A>(ds, cfg);
            let n = ds.n_train as nat;
            let lg = cfg.objective == Objective::Logistic;
            let g = gradients_after::<A>(f, x, ds.y_train@, n, lg, tree as nat);
            let h = hessians_after::<A>(f, x, n, lg, tree as nat);
            &&& parts_fit32(g, n)
            &&& parts_fit32(h, n)
            &&& step_fits(
                part(g, n, sent_to(f, x, tree, l)),
                part(h, n, sent_to(f, x, tree, l)),
                cfg.learning_rate.amount(),
                cfg.lambda.amount(),
            )
        }),
    ensures
        ({
            let f = forest_in(
                device_task::<A>(ds, cfg, halves),
                grown::<A, C>(device_task::<A>(ds, cfg, halves), cfg.n_trees as nat),
            );
            let x = encoded_features::<A>(ds, cfg);
            let n = ds.n_train as nat;
            let lg = cfg.objective == Objective::Logistic;
            let g = gradients_after::<A>(f, x, ds.y_train@, n, lg, tree as nat);
            let h = hessians_after::<A>(f, x, n, lg, tree as nat);
            let v = f.leafval[tree * pow2(cfg.depth as nat) + l];
            &&& v.finite()
            &&& newton(
                v.amount(),
                part(g, n, sent_to(f, x, tree, l)),
                part(h, n, sent_to(f, x, tree, l)),
                cfg.learning_rate.amount(),
                cfg.lambda.amount(),
            )
        }),
{
    let j = device_task::<A>(ds, cfg, halves);
    let x = encoded_features::<A>(ds, cfg);
    let n = ds.n_train as nat;
    let all = cfg.n_trees as nat;
    let f = forest_in(j, grown::<A, C>(j, all));
    lemma_shape(ds, cfg, halves);
    lemma_task_rows::<A>(ds, cfg, halves);
    lemma_tree_sources::<A, C>(j, x, tree);
    let rows = poised::<A, C>(j, tree).rows;
    let r = j.leaf_rows(rows.leaf, seed_of(tree as u32));
    assert forall|i: int| 0 <= i < n implies #[trigger] at_leaf::<A>(r, l)(i) == sent_to(
        f,
        x,
        tree,
        l,
    )(i) by {
        assert(r.drawn::<A>(i));
        assert(rows.leaf[i] == leaf_of(
            f.feat,
            f.thr,
            row_of(x, i, f.n_features as int),
            tree * f.depth,
            f.depth,
        ));
    }
    lemma_part_same(rows.g, n, at_leaf::<A>(r, l), sent_to(f, x, tree, l));
    lemma_part_same(rows.h, n, at_leaf::<A>(r, l), sent_to(f, x, tree, l));
    lemma_run_leaf::<A, C>(reads, j, x, tree, all, l);
}

} // verus!
