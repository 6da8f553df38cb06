//! The gradient booster: fitting, scoring and storing a forest.

use vstd::arithmetic::power2::pow2;
use vstd::prelude::*;
use vstd::slice::slice_to_vec;

use crate::arith::add32;
use crate::arith::count32;
use crate::arith::counted32;
use crate::arith::deterministic;
use crate::arith::difference32;
use crate::arith::div32;
use crate::arith::ln32;
use crate::arith::logarithm32;
use crate::arith::quotient32;
use crate::arith::sub32;
use crate::arith::sum32;
use crate::arith::widened;
use crate::arith::Arith;
use crate::binning::ascending;
use crate::binning::bounds_of;
use crate::config::defaults;
use crate::config::Config;
use crate::config::Device;
use crate::config::Objective;
use crate::config::Settings;
use crate::cpu::forest_of;
use crate::cpu::lemma_fitted_scores;
use crate::cpu::lemma_state_sizes;
use crate::cpu::problem_of;
use crate::cpu::train;
use crate::cpu::Problem;
use crate::data::boundaries_of;
use crate::data::compute_boundaries;
use crate::data::lemma_boundaries_ascend;
use crate::data::midpoints_monotone;
use crate::data::Dataset;
use crate::encoding::fit_transform_train;
use crate::encoding::lemma_encoded_columns;
use crate::encoding::looked_up;
use crate::encoding::mean_label;
use crate::encoding::tables;
use crate::encoding::transform;
use crate::encoding::Encoders;
use crate::encoding::Fitting;
use crate::float::F32;
use crate::float::MILLIONTH32;
use crate::float::ONE32;
use crate::float::ONE_LESS_MILLIONTH32;
use crate::forest::leaf_count;
use crate::forest::row_of;
use crate::forest::score_rows;
use crate::forest::Forest;
use crate::importance::counts_up;
use crate::importance::lemma_host_importance;
use crate::importance::lemma_splits_add_up;
use crate::importance::splits_below;
use crate::importance::splits_on;
use crate::model::image;
use crate::model::is_file_of;
use crate::model::lemma_cut_file;
use crate::model::lemma_model_reads_back;
use crate::model::lists_table;
use crate::model::magic;
use crate::model::read_model;
use crate::model::read_stored;
use crate::model::warr;
use crate::model::writable;
use crate::model::wtable;
use crate::model::wu32;
use crate::model::Model;
use crate::model::ModelError;
use crate::words::write_word64;

verus! {

/// A forest, with what is needed to score rows with it.
pub struct Booster {
    pub cfg: Config,
    pub n_features: usize,
    pub base_score: F32,
    /// The features of the splits, tree by tree.
    pub feat: Vec<u32>,
    /// The thresholds of the splits, tree by tree.
    pub thr: Vec<F32>,
    /// The leaf values, tree by tree.
    pub leafval: Vec<F32>,
    pub encoders: Encoders,
    pub gmean: F32,
    pub fi_gain: Vec<F32>,
    pub fi_count: Vec<F32>,
    /// The leaf variances, tree by tree, where they are asked for.
    pub leafvar: Vec<F32>,
}

/// The number of folds that training rows are encoded in.
pub const ENCODING_FOLDS: usize = 5;

/// The sum of the first `k` labels.
pub open spec fn plain_sum<A: Arith>(y: Seq<F32>, k: nat) -> F32
    decreases k,
{
    if k == 0 {
        F32 { bits: 0 }
    } else {
        sum32::<A>(plain_sum::<A>(y, (k - 1) as nat), y[k - 1])
    }
}

/// The score that all rows start from: the mean label, kept away from zero and one; for the
/// logistic objective its log-odds.
pub open spec fn start_score<A: Arith>(y: Seq<F32>, n: int, objective: Objective) -> F32 {
    let mean = quotient32::<A>(plain_sum::<A>(y, y.len()), counted32::<A>(n as u64)).within(
        F32 { bits: MILLIONTH32 },
        F32 { bits: ONE_LESS_MILLIONTH32 },
    );
    match objective {
        Objective::Logistic => logarithm32::<A>(
            quotient32::<A>(mean, difference32::<A>(F32 { bits: ONE32 }, mean)),
        ),
        Objective::SquaredError => mean,
    }
}

/// How the categories of a training set are encoded.
pub open spec fn fitting_of<A: Arith>(ds: Dataset, cfg: Config) -> Fitting {
    Fitting {
        n: ds.n_train as int,
        nf: ds.n_features as int,
        y: ds.y_train@,
        smoothing: widened::<A>(cfg.te_smoothing),
        folds: ENCODING_FOLDS as int,
        buckets: cfg.cat_hash_buckets,
    }
}

/// The training features with categories encoded.
pub open spec fn encoded_features<A: Arith>(ds: Dataset, cfg: Config) -> Seq<F32> {
    if cfg.categorical@.len() == 0 {
        ds.x_train@
    } else {
        fitting_of::<A>(ds, cfg).encoded::<A>(
            ds.x_train@,
            cfg.categorical@,
            cfg.categorical@.len(),
        )
    }
}

/// The bin boundaries of a training set.
pub open spec fn fitted_bounds<A: Arith>(ds: Dataset, cfg: Config) -> Seq<F32> {
    boundaries_of::<A>(
        encoded_features::<A>(ds, cfg),
        ds.n_train as int,
        ds.n_features as int,
        cfg.n_bins as int,
        cfg.bin_sample as int,
        cfg.unique_bins,
    )
}

/// The problem of fitting a training set.
pub open spec fn fitted_problem<A: Arith>(ds: Dataset, cfg: Config, workers: nat) -> Problem {
    problem_of::<A>(
        encoded_features::<A>(ds, cfg),
        ds.y_train@,
        ds.n_train as nat,
        ds.n_features as nat,
        fitted_bounds::<A>(ds, cfg),
        start_score::<A>(ds.y_train@, ds.n_train as int, cfg.objective),
        cfg,
        workers,
    )
}

/// The sizes of a training set and a configuration allow for fitting with `workers` threads.
pub open spec fn fittable(ds: Dataset, cfg: Config, workers: int) -> bool {
    &&& ds.well_formed()
    &&& 0 < ds.n_train <= u32::MAX
    &&& 0 < ds.n_features <= u32::MAX
    &&& 2 <= cfg.n_bins <= 256
    &&& cfg.depth < 32
    &&& 0 < workers
    &&& ds.n_train + workers <= usize::MAX
    &&& cfg.depth > 0 ==> pow2((cfg.depth - 1) as nat) * ds.n_features * cfg.n_bins * 2
        <= usize::MAX
    &&& forall|k: int|
        0 <= k < cfg.categorical@.len() ==> #[trigger] cfg.categorical@[k] < ds.n_features
}

impl Booster {
    /// The forest of the booster.
    pub open spec fn forest(self) -> Forest {
        Forest {
            n_features: self.n_features as nat,
            depth: self.cfg.depth as nat,
            base: self.base_score,
            feat: self.feat@,
            thr: self.thr@,
            leafval: self.leafval@,
        }
    }

    /// The arrays have the sizes of the trees, and the importances that of the features.
    pub open spec fn sized(self) -> bool {
        let splits = self.cfg.n_trees * self.cfg.depth;
        &&& self.feat@.len() == splits
        &&& self.thr@.len() == splits
        &&& self.leafval@.len() == self.cfg.n_trees * pow2(self.cfg.depth as nat)
        &&& self.fi_gain@.len() == self.n_features
        &&& self.fi_count@.len() == self.n_features
    }

    /// The arrays of the booster make up a forest.
    pub open spec fn has_forest(self) -> bool {
        self.cfg.depth < 32 && self.forest().well_formed(self.cfg.n_trees as nat)
    }

    /// The categorical columns exist, and there is an encoder for each.
    pub open spec fn has_encoders(self) -> bool {
        &&& self.cfg.categorical@.len() <= self.encoders@.len()
        &&& forall|k: int|
            0 <= k < self.cfg.categorical@.len() ==> #[trigger] self.cfg.categorical@[k]
                < self.n_features
    }

    /// The score to start from and the encoders are those that the data set gives.
    pub open spec fn started<A: Arith>(self, ds: Dataset) -> bool {
        &&& self.base_score == start_score::<A>(
            ds.y_train@,
            ds.n_train as int,
            self.cfg.objective,
        )
        &&& self.cfg.categorical@.len() > 0 ==> self.gmean == mean_label::<A>(
            ds.y_train@,
            ds.n_train as int,
        ) && tables(self.encoders@) == fitting_of::<A>(ds, self.cfg).tables::<A>(
            ds.x_train@,
            self.cfg.categorical@,
        )
    }

    /// The features of rows to be scored, with categories encoded.
    pub open spec fn prepared(self, x: Seq<F32>, n: int) -> Seq<F32> {
        if self.cfg.categorical@.len() == 0 {
            x
        } else {
            looked_up(
                x,
                n,
                self.n_features as int,
                self.cfg.categorical@,
                tables(self.encoders@),
                self.gmean,
                self.cfg.cat_hash_buckets,
                self.cfg.categorical@.len(),
            )
        }
    }

    /// A booster that has not been fitted.
    pub fn new(cfg: Config) -> (b: Booster)
        ensures
            b.cfg == cfg,
            b.n_features == 0,
            b.base_score == (F32 { bits: 0 }),
            b.feat@.len() == 0,
            b.thr@.len() == 0,
            b.leafval@.len() == 0,
            b.encoders@.len() == 0,
            b.gmean == (F32 { bits: 0 }),
            b.fi_gain@.len() == 0,
            b.fi_count@.len() == 0,
            b.leafvar@.len() == 0,
    {
        Booster {
            cfg,
            n_features: 0,
            base_score: F32 { bits: 0 },
            feat: Vec::new(),
            thr: Vec::new(),
            leafval: Vec::new(),
            encoders: Vec::new(),
            gmean: F32 { bits: 0 },
            fi_gain: Vec::new(),
            fi_count: Vec::new(),
            leafvar: Vec::new(),
        }
    }

    pub fn config(&self) -> (cfg: &Config)
        ensures
            *cfg == self.cfg,
    {
        &self.cfg
    }

    pub fn base_score(&self) -> (score: F32)
        ensures
            score == self.base_score,
    {
        self.base_score
    }

    /// The importance of each feature: what the splits on it gained, and how many there are.
    pub fn feature_importance(&self) -> (r: (&[F32], &[F32]))
        ensures
            r.0@ == self.fi_gain@,
            r.1@ == self.fi_count@,
    {
        (self.fi_gain.as_slice(), self.fi_count.as_slice())
    }
}

/// The score that all rows start from.
pub fn base_score_of<A: Arith>(y: &[F32], n: usize, objective: Objective) -> (score: F32)
    ensures
        deterministic::<A>() ==> score == start_score::<A>(y@, n as int, objective),
{
    let mut sum = F32 { bits: 0 };
    let mut i: usize = 0;
    while i < y.len()
        invariant
            i <= y@.len(),
            deterministic::<A>() ==> sum == plain_sum::<A>(y@, i as nat),
        decreases y@.len() - i,
    {
        sum = add32::<A>(sum, y[i]);
        i = i + 1;
    }
    let mean = div32::<A>(sum, count32::<A>(n as u64)).clamp(
        F32 { bits: MILLIONTH32 },
        F32 { bits: ONE_LESS_MILLIONTH32 },
    );
    match objective {
        Objective::Logistic => ln32::<A>(
            div32::<A>(mean, sub32::<A>(F32 { bits: ONE32 }, mean)),
        ),
        Objective::SquaredError => mean,
    }
}

/// The columns exist.
pub(crate) fn columns_exist(columns: &[usize], nf: usize) -> (r: bool)
    ensures
        r == (forall|k: int| 0 <= k < columns@.len() ==> #[trigger] columns@[k] < nf),
{
    let mut k: usize = 0;
    while k < columns.len()
        invariant
            k <= columns@.len(),
            forall|j: int| 0 <= j < k ==> #[trigger] columns@[j] < nf,
        decreases columns@.len() - k,
    {
        if columns[k] >= nf {
            return false;
        }
        k = k + 1;
    }
    true
}

/// The product of two counts, where it fits.
pub(crate) fn times(a: Option<usize>, b: usize) -> (r: Option<usize>)
    ensures
        match (a, r) {
            (Some(v), Some(p)) => p == v * b,
            (Some(v), None) => v * b > usize::MAX,
            (None, _) => r is None,
        },
{
    match a {
        Some(v) => v.checked_mul(b),
        None => None,
    }
}

/// Where fitting is done.
#[derive(Clone, Copy, PartialEq, Eq, Debug, Structural)]
pub enum Fitted {
    /// The forest has been grown on the host.
    OnHost,
    /// The forest is to be grown on a device; nothing has changed.
    NeedsDevice,
}

impl Booster {
    /// Tells whether [`Booster::fit`] can fit a training set with `nt` threads.
    pub fn can_fit(&self, ds: &Dataset, nt: usize) -> (r: bool)
        ensures
            r == fittable(*ds, self.cfg, nt as int),
    {
        let n: usize = ds.n_train;
        let nf: usize = ds.n_features;
        let nbins: usize = self.cfg.n_bins;
        if n == 0 || n as u64 > 0xFFFF_FFFF || nf == 0 || nf as u64 > 0xFFFF_FFFF || nbins < 2
            || nbins > 256 || self.cfg.depth >= 32 || nt == 0 || nt > usize::MAX - n {
            return false;
        }
        let train = times(Some(n), nf);
        let test = times(Some(ds.n_test), nf);
        if ds.y_train.len() != n || ds.y_test.len() != ds.n_test {
            return false;
        }
        match (train, test) {
            (Some(a), Some(b)) => if ds.x_train.len() != a || ds.x_test.len() != b {
                return false;
            },
            _ => {
                assert(ds.x_train.len() == ds.x_train@.len());
                assert(ds.x_test.len() == ds.x_test@.len());
                return false;
            },
        }
        if self.cfg.depth > 0 {
            let nodes: usize = leaf_count(self.cfg.depth - 1);
            let size = times(times(times(Some(nodes), nf), nbins), 2);
            proof {
                let a = nodes * nf;
                assert(a >= 0) by (nonlinear_arith)
                    requires
                        nodes >= 0,
                        nf >= 0,
                        a == nodes * nf,
                ;
                assert(a <= a * nbins) by (nonlinear_arith)
                    requires
                        a >= 0,
                        nbins >= 1,
                ;
            }
            if size.is_none() {
                return false;
            }
        }
        columns_exist(self.cfg.categorical.as_slice(), nf)
    }

    /// Encodes the categories, places the bin boundaries, and sets the score to start from.
    /// Gives the encoded features and the boundaries.
    pub(crate) fn prepare_fit<A: Arith>(&mut self, ds: &Dataset) -> (r: (Vec<F32>, Vec<F32>))
        requires
            ds.well_formed(),
            0 < ds.n_train,
            0 < ds.n_features,
            1 <= old(self).cfg.n_bins,
            forall|k: int|
                0 <= k < old(self).cfg.categorical@.len()
                    ==> #[trigger] old(self).cfg.categorical@[k] < ds.n_features,
        ensures
            r.0@.len() == ds.x_train@.len(),
            r.1@.len() == ds.n_features * (old(self).cfg.n_bins - 1),
            final(self).cfg == old(self).cfg,
            final(self).n_features == ds.n_features,
            final(self).feat == old(self).feat,
            final(self).thr == old(self).thr,
            final(self).leafval == old(self).leafval,
            final(self).fi_gain == old(self).fi_gain,
            final(self).fi_count == old(self).fi_count,
            final(self).leafvar == old(self).leafvar,
            final(self).cfg.categorical@.len() == 0 ==> final(self).encoders == old(self).encoders
                && final(self).gmean == old(self).gmean,
            final(self).cfg.categorical@.len() > 0 ==> final(self).has_encoders(),
            deterministic::<A>() ==> {
                &&& final(self).started::<A>(*ds)
                &&& r.0@ == encoded_features::<A>(*ds, old(self).cfg)
                &&& r.1@ == fitted_bounds::<A>(*ds, old(self).cfg)
            },
    {
        let n: usize = ds.n_train;
        let nf: usize = ds.n_features;
        let mut xtr = slice_to_vec(ds.x_train.as_slice());
        if self.cfg.categorical.len() > 0 {
            let (enc, gm) = fit_transform_train::<A>(
                &mut xtr,
                n,
                nf,
                ds.y_train.as_slice(),
                self.cfg.categorical.as_slice(),
                self.cfg.te_smoothing,
                ENCODING_FOLDS,
                self.cfg.cat_hash_buckets,
            );
            self.encoders = enc;
            self.gmean = gm;
        }
        self.n_features = nf;
        let boundaries = compute_boundaries::<A>(
            xtr.as_slice(),
            n,
            nf,
            self.cfg.n_bins,
            self.cfg.bin_sample,
            self.cfg.unique_bins,
        );
        self.base_score = base_score_of::<A>(ds.y_train.as_slice(), n, self.cfg.objective);
        (xtr, boundaries)
    }

    /// Grows the forest on the host with `nt` threads: encodes the categories, places the
    /// bin boundaries, and trains.
    pub fn fit_cpu<A: Arith>(&mut self, ds: &Dataset, nt: usize)
        requires
            fittable(*ds, old(self).cfg, nt as int),
        ensures
            final(self).cfg == old(self).cfg,
            final(self).leafvar == old(self).leafvar,
            final(self).n_features == ds.n_features,
            final(self).has_forest(),
            final(self).sized(),
            final(self).cfg.categorical@.len() == 0 ==> final(self).encoders == old(self).encoders
                && final(self).gmean == old(self).gmean,
            final(self).cfg.categorical@.len() > 0 ==> final(self).has_encoders(),
            deterministic::<A>() ==> ({
                let cfg = old(self).cfg;
                let state = fitted_problem::<A>(*ds, cfg, nt as nat).after::<A>(cfg.n_trees as nat);
                &&& final(self).started::<A>(*ds)
                &&& final(self).feat@ == state.feat
                &&& final(self).thr@ == state.thr
                &&& final(self).leafval@ == state.leafval
                &&& final(self).fi_gain@ == state.fi_gain
                &&& final(self).fi_count@ == state.fi_count
            }),
    {
        let n: usize = ds.n_train;
        let nf: usize = ds.n_features;
        let (xtr, boundaries) = self.prepare_fit::<A>(ds);
        let fit = train::<A>(
            xtr.as_slice(),
            ds.y_train.as_slice(),
            n,
            nf,
            boundaries.as_slice(),
            self.base_score,
            &self.cfg,
            nt,
        );
        self.feat = fit.feat;
        self.thr = fit.thr;
        self.leafval = fit.leafval;
        self.fi_gain = fit.fi_gain;
        self.fi_count = fit.fi_count;
    }

    /// Grows the forest where the configuration says: on the host with `nt` threads, or else
    /// not yet.
    pub fn fit<A: Arith>(&mut self, ds: &Dataset, nt: usize) -> (r: Fitted)
        requires
            old(self).cfg.device == Device::Cpu ==> fittable(*ds, old(self).cfg, nt as int),
        ensures
            r == (if old(self).cfg.device == Device::Cpu {
                Fitted::OnHost
            } else {
                Fitted::NeedsDevice
            }),
            r == Fitted::NeedsDevice ==> *final(self) == *old(self),
            final(self).cfg == old(self).cfg,
            r == Fitted::OnHost ==> final(self).has_forest() && final(self).sized()
                && final(self).n_features == ds.n_features && final(self).leafvar == old(
                self,
            ).leafvar,
            r == Fitted::OnHost && final(self).cfg.categorical@.len() == 0
                ==> final(self).encoders == old(self).encoders && final(self).gmean == old(
                self,
            ).gmean,
            r == Fitted::OnHost && final(self).cfg.categorical@.len() > 0
                ==> final(self).has_encoders(),
            r == Fitted::OnHost && deterministic::<A>() ==> ({
                let cfg = old(self).cfg;
                let state = fitted_problem::<A>(*ds, cfg, nt as nat).after::<A>(cfg.n_trees as nat);
                &&& final(self).started::<A>(*ds)
                &&& final(self).feat@ == state.feat
                &&& final(self).thr@ == state.thr
                &&& final(self).leafval@ == state.leafval
                &&& final(self).fi_gain@ == state.fi_gain
                &&& final(self).fi_count@ == state.fi_count
            }),
    {
        match self.cfg.device {
            Device::Cpu => {
                self.fit_cpu::<A>(ds, nt);
                Fitted::OnHost
            },
            Device::Gpu => Fitted::NeedsDevice,
        }
    }

    /// Scores the first `n` rows of `x` on the host into the first `n` places of `out`, their
    /// features taken as they are.
    pub fn predict_cpu<A: Arith>(&self, x: &[F32], n: usize, out: &mut Vec<F32>)
        requires
            self.has_forest(),
            n * self.n_features <= x@.len(),
            n <= old(out)@.len(),
        ensures
            final(out)@.len() == old(out)@.len(),
            deterministic::<A>() ==> forall|i: int|
                0 <= i < n ==> #[trigger] final(out)@[i] == self.forest().score::<A>(
                    row_of(x@, i, self.n_features as int),
                    self.cfg.n_trees as nat,
                ),
            forall|i: int| n <= i < old(out)@.len() ==> #[trigger] final(out)@[i] == old(out)@[i],
    {
        score_rows::<A>(
            x,
            n,
            self.n_features,
            self.cfg.n_trees,
            self.cfg.depth,
            self.base_score,
            self.feat.as_slice(),
            self.thr.as_slice(),
            self.leafval.as_slice(),
            out,
        );
    }

    /// Scores the first `n` rows of `x` on the host, categories encoded first.
    pub fn predict_host<A: Arith>(&self, x: &[F32], n: usize) -> (out: Vec<F32>)
        requires
            self.has_forest(),
            self.has_encoders(),
            n * self.n_features <= x@.len(),
        ensures
            out@.len() == n,
            deterministic::<A>() ==> forall|i: int|
                0 <= i < n ==> #[trigger] out@[i] == self.forest().score::<A>(
                    row_of(self.prepared(x@, n as int), i, self.n_features as int),
                    self.cfg.n_trees as nat,
                ),
    {
        let mut out: Vec<F32> = vec![F32 { bits: 0 };n];
        if self.cfg.categorical.len() == 0 {
            self.predict_cpu::<A>(x, n, &mut out);
        } else {
            let mut xt = slice_to_vec(x);
            transform(
                &mut xt,
                n,
                self.n_features,
                self.cfg.categorical.as_slice(),
                &self.encoders,
                self.gmean,
                self.cfg.cat_hash_buckets,
            );
            self.predict_cpu::<A>(xt.as_slice(), n, &mut out);
        }
        out
    }

    /// Tells whether rows can be scored: the arrays make up a forest, and the categorical
    /// columns exist and have encoders.
    pub fn can_predict(&self) -> (r: bool)
        ensures
            r == (self.has_forest() && self.has_encoders()),
    {
        if self.cfg.depth >= 32 {
            return false;
        }
        let leaves: usize = leaf_count(self.cfg.depth);
        let splits: usize = match self.cfg.n_trees.checked_mul(self.cfg.depth) {
            Some(v) => v,
            None => {
                assert(self.feat.len() == self.feat@.len());
                return false;
            },
        };
        let values: usize = match self.cfg.n_trees.checked_mul(leaves) {
            Some(v) => v,
            None => {
                assert(self.leafval.len() == self.leafval@.len());
                return false;
            },
        };
        if splits > self.feat.len() || splits > self.thr.len() || values > self.leafval.len() {
            return false;
        }
        let mut k: usize = 0;
        while k < splits
            invariant
                k <= splits <= self.feat@.len(),
                splits == self.cfg.n_trees * self.cfg.depth,
                forall|j: int| 0 <= j < k ==> (#[trigger] self.feat@[j]) < self.n_features,
            decreases splits - k,
        {
            if self.feat[k] as u64 >= self.n_features as u64 {
                assert(self.forest().feat[k as int] >= self.n_features);
                return false;
            }
            k = k + 1;
        }
        self.cfg.categorical.len() <= self.encoders.len() && columns_exist(
            self.cfg.categorical.as_slice(),
            self.n_features,
        )
    }
}

/// The settings of a booster that is read from a file.
pub open spec fn stored_settings(m: Model) -> Settings {
    Settings {
        n_trees: m.n_trees as usize,
        depth: m.depth as usize,
        objective: if m.logistic {
            Objective::Logistic
        } else {
            Objective::SquaredError
        },
        categorical: Seq::new(m.categorical.len(), |i: int| m.categorical[i] as usize),
        cat_hash_buckets: m.buckets,
        device: Device::Cpu,
        ..defaults()
    }
}

impl Booster {
    /// What the file of a booster holds.
    pub open spec fn model(self) -> Model {
        Model {
            n_features: self.n_features as u32,
            n_trees: self.cfg.n_trees as u32,
            depth: self.cfg.depth as u32,
            logistic: self.cfg.objective == Objective::Logistic,
            base: self.base_score,
            gmean: self.gmean,
            buckets: self.cfg.cat_hash_buckets,
            categorical: Seq::new(
                self.cfg.categorical@.len(),
                |i: int| self.cfg.categorical@[i] as u32,
            ),
            feat: self.feat@,
            thr: self.thr@,
            leafval: self.leafval@,
            tables: tables(self.encoders@),
        }
    }

    /// The counts and lengths of the booster can be written as 32-bit words.
    pub open spec fn storable(self) -> bool {
        &&& self.n_features <= u32::MAX
        &&& self.cfg.n_trees <= u32::MAX
        &&& self.cfg.depth <= u32::MAX
        &&& forall|k: int|
            0 <= k < self.cfg.categorical@.len() ==> #[trigger] self.cfg.categorical@[k]
                <= u32::MAX
        &&& writable(self.model())
    }

    /// The bytes of a file of the booster: a header, the arrays of the forest, and the tables
    /// of the encoders.
    pub fn save_model(&self) -> (w: Vec<u8>)
        ensures
            is_file_of(w@, self.model()),
    {
        let ghost m = self.model();
        let mut w: Vec<u8> = Vec::new();
        w.push(0x52u8);
        w.push(0x57u8);
        w.push(0x44u8);
        w.push(0x31u8);
        assert(w@ =~= magic());
        wu32(&mut w, 1);
        wu32(&mut w, #[verifier::truncate] (self.n_features as u32));
        wu32(&mut w, #[verifier::truncate] (self.cfg.n_trees as u32));
        wu32(&mut w, #[verifier::truncate] (self.cfg.depth as u32));
        let logistic: u32 = match self.cfg.objective {
            Objective::Logistic => 1,
            Objective::SquaredError => 0,
        };
        wu32(&mut w, logistic);
        wu32(&mut w, self.base_score.bits);
        wu32(&mut w, self.gmean.bits);
        write_word64(&mut w, self.cfg.cat_hash_buckets);
        assert(w@ == crate::model::header_bytes(m)) by {
            reveal(crate::model::header_bytes);
        }
        let mut cats: Vec<u32> = Vec::new();
        let mut i: usize = 0;
        while i < self.cfg.categorical.len()
            invariant
                m == self.model(),
                i <= self.cfg.categorical@.len(),
                cats@ == m.categorical.take(i as int),
            decreases self.cfg.categorical@.len() - i,
        {
            cats.push(#[verifier::truncate] (self.cfg.categorical[i] as u32));
            assert(m.categorical.take(i + 1) =~= m.categorical.take(i as int).push(
                m.categorical[i as int],
            ));
            i = i + 1;
        }
        assert(cats@ =~= m.categorical);
        assert(crate::model::words_of(cats@) =~= m.categorical);
        assert(crate::model::words_of(self.feat@) =~= m.feat);
        warr(&mut w, cats.as_slice());
        warr(&mut w, self.feat.as_slice());
        warr(&mut w, self.thr.as_slice());
        warr(&mut w, self.leafval.as_slice());
        let count: u32 = #[verifier::truncate] (self.encoders.len() as u32);
        let ghost head = w@;
        wu32(&mut w, count);
        let ghost mut lists: Seq<Seq<(i64, F32)>> = Seq::empty();
        let mut k: usize = 0;
        assert(w@ =~= head + (crate::words::bytes32(count) + crate::model::table_bytes(lists, 0)));
        while k < self.encoders.len()
            invariant
                m == self.model(),
                k <= self.encoders@.len(),
                lists.len() == k,
                forall|j: int| 0 <= j < k ==> lists_table(#[trigger] lists[j], m.tables[j]),
                w@ == head + (crate::words::bytes32(count) + crate::model::table_bytes(
                    lists,
                    k as nat,
                )),
            decreases self.encoders@.len() - k,
        {
            let ghost before = w@;
            let ghost some = lists;
            let l = wtable(&mut w, &self.encoders[k]);
            proof {
                lists = lists.push(l@);
                lemma_table_bytes_prefix(some, lists, k as nat);
                assert(m.tables[k as int] == self.encoders@[k as int]@);
                assert(w@ =~= head + (crate::words::bytes32(count) + crate::model::table_bytes(
                    lists,
                    (k + 1) as nat,
                )));
            }
            k = k + 1;
        }
        assert(w@ == image(m, lists));
        w
    }

    /// The booster whose file the bytes are; anything after it is left alone. It scores rows
    /// on the host.
    pub fn load_model(bytes: &[u8]) -> (res: Result<Booster, ModelError>)
        ensures
            match res {
                Ok(b) => {
                    &&& read_model(bytes@) == Ok::<Model, ModelError>(b.model())
                    &&& b.storable()
                    &&& b.cfg@ == stored_settings(b.model())
                    &&& b.fi_gain@.len() == 0
                    &&& b.fi_count@.len() == 0
                    &&& b.leafvar@.len() == 0
                },
                Err(e) => read_model(bytes@) == Err::<Model, ModelError>(e),
            },
    {
        let stored = match read_stored(bytes) {
            Ok(stored) => stored,
            Err(e) => {
                return Err(e);
            },
        };
        let ghost m = stored.model();
        let mut categorical: Vec<usize> = Vec::new();
        let mut i: usize = 0;
        while i < stored.categorical.len()
            invariant
                i <= stored.categorical@.len(),
                categorical@.len() == i,
                forall|j: int| 0 <= j < i ==> #[trigger] categorical@[j] == stored.categorical@[j],
            decreases stored.categorical@.len() - i,
        {
            categorical.push(stored.categorical[i] as usize);
            i = i + 1;
        }
        let mut cfg = Config::default();
        cfg.n_trees = stored.n_trees as usize;
        cfg.depth = stored.depth as usize;
        cfg.objective = if stored.logistic {
            Objective::Logistic
        } else {
            Objective::SquaredError
        };
        cfg.categorical = categorical;
        cfg.cat_hash_buckets = stored.buckets;
        cfg.device = Device::Cpu;
        let booster = Booster {
            cfg,
            n_features: stored.n_features as usize,
            base_score: stored.base,
            feat: stored.feat,
            thr: stored.thr,
            leafval: stored.leafval,
            encoders: stored.tables,
            gmean: stored.gmean,
            fi_gain: Vec::new(),
            fi_count: Vec::new(),
            leafvar: Vec::new(),
        };
        assert(booster.model().categorical =~= m.categorical);
        assert(booster.model().tables =~= m.tables);
        assert(booster.model() == m);
        assert(booster.cfg@.categorical =~= stored_settings(m).categorical);
        Ok(booster)
    }
}

/// The bytes of the first tables depend on the first lists alone.
proof fn lemma_table_bytes_prefix(
    a: Seq<Seq<(i64, F32)>>,
    b: Seq<Seq<(i64, F32)>>,
    k: nat,
)
    requires
        k <= a.len(),
        k <= b.len(),
        forall|j: int| 0 <= j < k ==> #[trigger] a[j] == b[j],
    ensures
        crate::model::table_bytes(a, k) == crate::model::table_bytes(b, k),
    decreases k,
{
    if k > 0 {
        lemma_table_bytes_prefix(a, b, (k - 1) as nat);
        assert(a[k - 1] == b[k - 1]);
    }
}

/// A booster that is saved and loaded again scores all rows as it did before.
pub proof fn lemma_loaded_scores<A: Arith>(
    saved: Booster,
    bytes: Seq<u8>,
    loaded: Booster,
    x: Seq<F32>,
    n: int,
    i: int,
)
    requires
        saved.storable(),
        is_file_of(bytes, saved.model()),
        read_model(bytes) == Ok::<Model, ModelError>(loaded.model()),
        loaded.storable(),
        loaded.cfg@ == stored_settings(loaded.model()),
    ensures
        loaded.model() == saved.model(),
        loaded.n_features == saved.n_features,
        loaded.cfg.n_trees == saved.cfg.n_trees,
        loaded.cfg.objective == saved.cfg.objective,
        loaded.forest() == saved.forest(),
        loaded.prepared(x, n) == saved.prepared(x, n),
        loaded.forest().score::<A>(
            row_of(loaded.prepared(x, n), i, loaded.n_features as int),
            loaded.cfg.n_trees as nat,
        ) == saved.forest().score::<A>(
            row_of(saved.prepared(x, n), i, saved.n_features as int),
            saved.cfg.n_trees as nat,
        ),
{
    lemma_model_reads_back(bytes, saved.model());
    let m = saved.model();
    assert(loaded.model() == m);
    assert(loaded.cfg.categorical@ =~= saved.cfg.categorical@) by {
        let a = loaded.cfg.categorical@;
        let b = saved.cfg.categorical@;
        assert(a == loaded.cfg@.categorical);
        assert(a.len() == b.len());
        assert forall|k: int| 0 <= k < a.len() implies #[trigger] a[k] == b[k] by {
            assert(m.categorical[k] == b[k] as u32);
            assert(a[k] == m.categorical[k] as usize);
        }
    }
    assert(loaded.cfg@.n_trees == m.n_trees as usize);
    assert(loaded.cfg@.depth == m.depth as usize);
}

/// No file of a booster that is cut short is accepted: it is refused for ending too early.
pub proof fn lemma_cut_model(saved: Booster, bytes: Seq<u8>, k: int)
    requires
        saved.storable(),
        is_file_of(bytes, saved.model()),
        0 <= k < bytes.len(),
    ensures
        read_model(bytes.take(k)) == Err::<Model, ModelError>(ModelError::UnexpectedEof),
{
    lemma_cut_file(bytes, saved.model(), k);
}

/// The problem of fitting a training set is one that can be solved.
pub(crate) proof fn lemma_fitted_problem<A: Arith>(ds: Dataset, cfg: Config, workers: nat)
    requires
        fittable(ds, cfg, workers as int),
    ensures
        fitted_problem::<A>(ds, cfg, workers).well_formed(),
{
    let p = fitted_problem::<A>(ds, cfg, workers);
    let x = encoded_features::<A>(ds, cfg);
    let nf = ds.n_features as int;
    let nb1 = cfg.n_bins - 1;
    lemma_encoded_columns::<A>(
        fitting_of::<A>(ds, cfg),
        ds.x_train@,
        cfg.categorical@,
        cfg.categorical@.len(),
    );
    assert(nf * nb1 >= 0) by (nonlinear_arith)
        requires
            nf >= 0,
            nb1 >= 0,
    ;
    assert forall|k: int| 0 <= k < p.bins.len() implies #[trigger] p.bins[k] < p.nbins by {
        let f = k % nf;
        assert(0 <= f < nf) by {
            vstd::arithmetic::div_mod::lemma_mod_bound(k, nf);
        }
        assert(0 <= f * nb1 && f * nb1 + nb1 <= nf * nb1) by (nonlinear_arith)
            requires
                0 <= f < nf,
                nb1 >= 0,
        ;
        crate::binning::lemma_bin_range(bounds_of(p.bounds, f, nb1), x[k]);
    }
}

/// After fitting on the host, the count of a feature is the number of its splits, as long as
/// counting up to the number of all splits is exact; a feature without splits has gained
/// nothing. The splits of all features are as many as all trees have levels.
pub proof fn lemma_fitted_importance<A: Arith>(ds: Dataset, cfg: Config, workers: nat, f: int)
    requires
        fittable(ds, cfg, workers as int),
        cfg.n_trees * cfg.depth <= u32::MAX,
        counts_up::<A>((cfg.n_trees * cfg.depth) as nat),
        0 <= f < ds.n_features,
    ensures
        ({
            let state = fitted_problem::<A>(ds, cfg, workers).after::<A>(cfg.n_trees as nat);
            let all = (cfg.n_trees * cfg.depth) as nat;
            let splits = splits_on(state.feat, f, all);
            &&& state.feat.len() == all
            &&& state.fi_count.len() == ds.n_features
            &&& state.fi_gain.len() == ds.n_features
            &&& splits <= all
            &&& state.fi_count[f] == counted32::<A>(splits as u64)
            &&& splits == 0 ==> state.fi_gain[f] == (F32 { bits: 0 })
            &&& splits_below(state.feat, ds.n_features as nat, all) == all
        }),
{
    let p = fitted_problem::<A>(ds, cfg, workers);
    let t = cfg.n_trees as nat;
    lemma_fitted_problem::<A>(ds, cfg, workers);
    lemma_host_importance::<A>(p, t, f, (cfg.n_trees * cfg.depth) as nat);
    lemma_state_sizes::<A>(p, t);
    assert forall|i: int| 0 <= i < p.after::<A>(t).feat.len() implies #[trigger] p.after::<A>(
        t,
    ).feat[i] < p.nf by {
        assert(forest_of::<A>(p, t).feat[i] < p.nf);
    }
    lemma_splits_add_up(p.after::<A>(t).feat, p.nf, (cfg.n_trees * cfg.depth) as nat);
}

/// The scores that the training rows had at the end of fitting are the scores that the
/// finished forest gives to their features. No feature may be NaN; with boundaries at
/// midpoints the arithmetic has to keep the order of midpoints.
pub proof fn lemma_training_scores<A: Arith>(ds: Dataset, cfg: Config, workers: nat, i: int)
    requires
        fittable(ds, cfg, workers as int),
        0 <= i < ds.n_train,
        forall|k: int|
            0 <= k < ds.x_train@.len() ==> !(#[trigger] encoded_features::<A>(ds, cfg)[k]).nan(),
        cfg.unique_bins ==> midpoints_monotone::<A>(encoded_features::<A>(ds, cfg)),
    ensures
        ({
            let p = fitted_problem::<A>(ds, cfg, workers);
            let x = encoded_features::<A>(ds, cfg);
            p.after::<A>(cfg.n_trees as nat).pred[i] == forest_of::<A>(
                p,
                cfg.n_trees as nat,
            ).score::<A>(row_of(x, i, ds.n_features as int), cfg.n_trees as nat)
        }),
{
    let p = fitted_problem::<A>(ds, cfg, workers);
    lemma_ascending_bounds::<A>(ds, cfg, workers);
    lemma_fitted_problem::<A>(ds, cfg, workers);
    lemma_fitted_scores::<A>(p, encoded_features::<A>(ds, cfg), i, cfg.n_trees as nat);
}

/// The boundaries of every feature ascend.
pub(crate) proof fn lemma_ascending_bounds<A: Arith>(ds: Dataset, cfg: Config, workers: nat)
    requires
        fittable(ds, cfg, workers as int),
        forall|k: int|
            0 <= k < ds.x_train@.len() ==> !(#[trigger] encoded_features::<A>(ds, cfg)[k]).nan(),
        cfg.unique_bins ==> midpoints_monotone::<A>(encoded_features::<A>(ds, cfg)),
    ensures
        ({
            let p = fitted_problem::<A>(ds, cfg, workers);
            &&& encoded_features::<A>(ds, cfg).len() == p.n * p.nf
            &&& forall|f: int|
                0 <= f < p.nf ==> ascending(#[trigger] bounds_of(p.bounds, f, p.nbins - 1))
        }),
{
    let p = fitted_problem::<A>(ds, cfg, workers);
    let x = encoded_features::<A>(ds, cfg);
    let n = ds.n_train as int;
    let nf = ds.n_features as int;
    lemma_encoded_columns::<A>(
        fitting_of::<A>(ds, cfg),
        ds.x_train@,
        cfg.categorical@,
        cfg.categorical@.len(),
    );
    assert forall|f: int| 0 <= f < p.nf implies ascending(
        #[trigger] bounds_of(p.bounds, f, p.nbins - 1),
    ) by {
        lemma_boundaries_ascend::<A>(
            x,
            n,
            nf,
            cfg.n_bins as int,
            cfg.bin_sample as int,
            cfg.unique_bins,
            f,
        );
    }
}

} // verus!
