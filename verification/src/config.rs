//! Training configuration and command-line parsing.

use vstd::prelude::*;
use vstd::slice::slice_subrange;
use vstd::string::StringExecFns;

use crate::arith::deterministic;
use crate::arith::parse32;
use crate::arith::parsed32;
use crate::arith::parses_to;
use crate::arith::Arith;
use crate::float::F32;
use crate::float::ONE32;
use crate::text::count_within;
use crate::text::integer_of;
use crate::text::parse_count;
use crate::text::parse_i32;
use crate::text::parse_usize;
use crate::text::pieces;
use crate::text::same_text;
use crate::text::split_on;

verus! {

/// What a model is trained for.
#[derive(Clone, Copy, PartialEq, Eq, Debug, Structural)]
pub enum Objective {
    /// Binary logistic; report AUC / logloss.
    Logistic,
    /// Squared error; report RMSE.
    SquaredError,
}

/// Where a model is trained.
#[derive(Clone, Copy, PartialEq, Eq, Debug, Structural)]
pub enum Device {
    Cpu,
    Gpu,
}

/// Bits of one tenth in single precision.
pub const TENTH32: u32 = 0x3DCC_CCCD;

/// Bits of one thousandth in single precision.
pub const THOUSANDTH32: u32 = 0x3A83_126F;

/// Bits of ten in single precision.
pub const TEN32: u32 = 0x4120_0000;

/// Bits of 16384 in single precision.
pub const INT_SCALE32: u32 = 0x4680_0000;

/// The settings of a run.
#[derive(Clone, Debug)]
pub struct Config {
    pub data_dir: String,
    pub n_trees: usize,
    pub depth: usize,
    pub learning_rate: F32,
    pub n_bins: usize,
    pub lambda: F32,
    pub min_child_h: F32,
    /// Fraction of rows sampled per tree (stochastic boosting regularizer).
    pub subsample: F32,
    /// Fraction of features considered per tree.
    pub colsample: F32,
    /// Place bin boundaries at midpoints of distinct values (good for categoricals).
    pub unique_bins: bool,
    /// Column indices to treat as categorical (out-of-fold target encoding).
    pub categorical: Vec<usize>,
    /// Smoothing strength for target encoding.
    pub te_smoothing: F32,
    /// Hashing-trick buckets for categoricals (0 = use raw codes / no hashing).
    pub cat_hash_buckets: u64,
    /// Per-feature monotone direction (+1/0/-1); empty = none.
    pub monotone: Vec<i32>,
    /// Use histogram subtraction (build odd children, derive even).
    pub subtract: bool,
    /// GOSS top-gradient keep rate (a); 0 disables GOSS.
    pub goss_top: F32,
    /// GOSS sampling rate for small-gradient rows (b).
    pub goss_other: F32,
    /// Winsorize hessians at the p / (1-p) tails (0 = off).
    pub clamp_hessian: F32,
    /// Pack feature bins to 4-bit (2/byte) when `n_bins` is at most 16.
    pub pack4: bool,
    /// Also produce per-row predictive variance / intervals (regression).
    pub pgbm: bool,
    /// Use shared-memory privatized histograms when they fit.
    pub smem_hist: bool,
    /// Accumulate histograms with half-precision atomics.
    pub f16_hist: bool,
    /// Accumulate histograms with fixed-point integer atomics.
    pub int_hist: bool,
    /// Fixed-point scale of integer histograms.
    pub int_scale: F32,
    pub objective: Objective,
    /// Rows sampled (strided) to estimate per-feature bin boundaries.
    pub bin_sample: usize,
    pub gpu: usize,
    /// Histogram privatization factor (global accumulator copies). Capped by a memory budget.
    pub replicas: usize,
    /// If non-empty, run a profiled fit and write a per-kernel breakdown here.
    pub profile_out: String,
    /// If true, after training run a per-batch end-to-end inference latency sweep.
    pub latency_bench: bool,
    /// If true, run a device-resident peak-throughput sweep.
    pub throughput_bench: bool,
    /// Where to train.
    pub device: Device,
    /// If non-empty, write the trained model here.
    pub save_model: String,
    /// If non-empty, load a model from here and predict; no training.
    pub load_model: String,
    /// If non-empty, write raw test predictions here.
    pub dump_pred: String,
    /// If true, answer requests read from standard input.
    pub serve: bool,
}

/// The settings of a run as plain values.
pub struct Settings {
    pub data_dir: Seq<char>,
    pub n_trees: usize,
    pub depth: usize,
    pub learning_rate: F32,
    pub n_bins: usize,
    pub lambda: F32,
    pub min_child_h: F32,
    pub subsample: F32,
    pub colsample: F32,
    pub unique_bins: bool,
    pub categorical: Seq<usize>,
    pub te_smoothing: F32,
    pub cat_hash_buckets: u64,
    pub monotone: Seq<i32>,
    pub subtract: bool,
    pub goss_top: F32,
    pub goss_other: F32,
    pub clamp_hessian: F32,
    pub pack4: bool,
    pub pgbm: bool,
    pub smem_hist: bool,
    pub f16_hist: bool,
    pub int_hist: bool,
    pub int_scale: F32,
    pub objective: Objective,
    pub bin_sample: usize,
    pub gpu: usize,
    pub replicas: usize,
    pub profile_out: Seq<char>,
    pub latency_bench: bool,
    pub throughput_bench: bool,
    pub device: Device,
    pub save_model: Seq<char>,
    pub load_model: Seq<char>,
    pub dump_pred: Seq<char>,
    pub serve: bool,
}

impl View for Config {
    type V = Settings;

    open spec fn view(&self) -> Settings {
        Settings {
            data_dir: self.data_dir@,
            n_trees: self.n_trees,
            depth: self.depth,
            learning_rate: self.learning_rate,
            n_bins: self.n_bins,
            lambda: self.lambda,
            min_child_h: self.min_child_h,
            subsample: self.subsample,
            colsample: self.colsample,
            unique_bins: self.unique_bins,
            categorical: self.categorical@,
            te_smoothing: self.te_smoothing,
            cat_hash_buckets: self.cat_hash_buckets,
            monotone: self.monotone@,
            subtract: self.subtract,
            goss_top: self.goss_top,
            goss_other: self.goss_other,
            clamp_hessian: self.clamp_hessian,
            pack4: self.pack4,
            pgbm: self.pgbm,
            smem_hist: self.smem_hist,
            f16_hist: self.f16_hist,
            int_hist: self.int_hist,
            int_scale: self.int_scale,
            objective: self.objective,
            bin_sample: self.bin_sample,
            gpu: self.gpu,
            replicas: self.replicas,
            profile_out: self.profile_out@,
            latency_bench: self.latency_bench,
            throughput_bench: self.throughput_bench,
            device: self.device,
            save_model: self.save_model@,
            load_model: self.load_model@,
            dump_pred: self.dump_pred@,
            serve: self.serve,
        }
    }
}

/// The settings where no flag says otherwise.
pub open spec fn defaults() -> Settings {
    Settings {
        data_dir: "data"@,
        n_trees: 500,
        depth: 6,
        learning_rate: F32 { bits: TENTH32 },
        n_bins: 256,
        lambda: F32 { bits: ONE32 },
        min_child_h: F32 { bits: THOUSANDTH32 },
        subsample: F32 { bits: ONE32 },
        colsample: F32 { bits: ONE32 },
        unique_bins: false,
        categorical: Seq::empty(),
        te_smoothing: F32 { bits: TEN32 },
        cat_hash_buckets: 0,
        monotone: Seq::empty(),
        subtract: true,
        goss_top: F32 { bits: 0 },
        goss_other: F32 { bits: TENTH32 },
        clamp_hessian: F32 { bits: 0 },
        pack4: false,
        pgbm: false,
        smem_hist: false,
        f16_hist: false,
        int_hist: false,
        int_scale: F32 { bits: INT_SCALE32 },
        objective: Objective::Logistic,
        bin_sample: 200_000,
        gpu: 0,
        replicas: 64,
        profile_out: Seq::empty(),
        latency_bench: false,
        throughput_bench: false,
        device: Device::Gpu,
        save_model: Seq::empty(),
        load_model: Seq::empty(),
        dump_pred: Seq::empty(),
        serve: false,
    }
}

impl Default for Config {
    fn default() -> (cfg: Config)
        ensures
            cfg@ == defaults(),
    {
        let cfg = Config {
            data_dir: "data".to_owned(),
            n_trees: 500,
            depth: 6,
            learning_rate: F32 { bits: TENTH32 },
            n_bins: 256,
            lambda: F32 { bits: ONE32 },
            min_child_h: F32 { bits: THOUSANDTH32 },
            subsample: F32 { bits: ONE32 },
            colsample: F32 { bits: ONE32 },
            unique_bins: false,
            categorical: Vec::new(),
            te_smoothing: F32 { bits: TEN32 },
            cat_hash_buckets: 0,
            monotone: Vec::new(),
            subtract: true,
            goss_top: F32 { bits: 0 },
            goss_other: F32 { bits: TENTH32 },
            clamp_hessian: F32 { bits: 0 },
            pack4: false,
            pgbm: false,
            smem_hist: false,
            f16_hist: false,
            int_hist: false,
            int_scale: F32 { bits: INT_SCALE32 },
            objective: Objective::Logistic,
            bin_sample: 200_000,
            gpu: 0,
            replicas: 64,
            profile_out: String::new(),
            latency_bench: false,
            throughput_bench: false,
            device: Device::Gpu,
            save_model: String::new(),
            load_model: String::new(),
            dump_pred: String::new(),
            serve: false,
        };
        assert(cfg@.categorical =~= defaults().categorical);
        assert(cfg@.monotone =~= defaults().monotone);
        cfg
    }
}

/// Flags whose values are taken as they are.
#[derive(Clone, Copy, PartialEq, Eq, Debug, Structural)]
pub enum TextFlag {
    Data,
    ProfileOut,
    SaveModel,
    LoadModel,
    DumpPred,
}

/// Flags whose values are counts.
#[derive(Clone, Copy, PartialEq, Eq, Debug, Structural)]
pub enum SizeFlag {
    Trees,
    Depth,
    Bins,
    BinSample,
    Gpu,
    Replicas,
}

/// Flags whose values are numbers.
#[derive(Clone, Copy, PartialEq, Eq, Debug, Structural)]
pub enum NumberFlag {
    LearningRate,
    Lambda,
    MinChild,
    Subsample,
    Colsample,
    TeSmoothing,
    GossTop,
    GossOther,
    ClampHessian,
    IntScale,
}

/// Flags that switch something on or off.
#[derive(Clone, Copy, PartialEq, Eq, Debug, Structural)]
pub enum SwitchFlag {
    UniqueBins,
    Subtract,
    Pack4,
    Pgbm,
    SmemHist,
    F16Hist,
    IntHist,
    LatencyBench,
    ThroughputBench,
    Serve,
}

/// The flags of the command line.
#[derive(Clone, Copy, PartialEq, Eq, Debug, Structural)]
pub enum Flag {
    Text(TextFlag),
    Size(SizeFlag),
    Number(NumberFlag),
    Switch(SwitchFlag),
    CatHashBuckets,
    Monotone,
    Categorical,
    Objective,
    Device,
}

/// The flag that a text names.
pub open spec fn flag_named(text: Seq<char>) -> Option<Flag> {
    if text == "--data"@ {
        Some(Flag::Text(TextFlag::Data))
    } else if text == "--trees"@ {
        Some(Flag::Size(SizeFlag::Trees))
    } else if text == "--depth"@ {
        Some(Flag::Size(SizeFlag::Depth))
    } else if text == "--lr"@ {
        Some(Flag::Number(NumberFlag::LearningRate))
    } else if text == "--bins"@ {
        Some(Flag::Size(SizeFlag::Bins))
    } else if text == "--lambda"@ {
        Some(Flag::Number(NumberFlag::Lambda))
    } else if text == "--min-child"@ {
        Some(Flag::Number(NumberFlag::MinChild))
    } else if text == "--subsample"@ {
        Some(Flag::Number(NumberFlag::Subsample))
    } else if text == "--colsample"@ {
        Some(Flag::Number(NumberFlag::Colsample))
    } else if text == "--unique-bins"@ {
        Some(Flag::Switch(SwitchFlag::UniqueBins))
    } else if text == "--te-smoothing"@ {
        Some(Flag::Number(NumberFlag::TeSmoothing))
    } else if text == "--cat-hash-buckets"@ {
        Some(Flag::CatHashBuckets)
    } else if text == "--subtract"@ {
        Some(Flag::Switch(SwitchFlag::Subtract))
    } else if text == "--goss-top"@ {
        Some(Flag::Number(NumberFlag::GossTop))
    } else if text == "--goss-other"@ {
        Some(Flag::Number(NumberFlag::GossOther))
    } else if text == "--clamp-hessian"@ {
        Some(Flag::Number(NumberFlag::ClampHessian))
    } else if text == "--pack4"@ {
        Some(Flag::Switch(SwitchFlag::Pack4))
    } else if text == "--pgbm"@ {
        Some(Flag::Switch(SwitchFlag::Pgbm))
    } else if text == "--smem-hist"@ {
        Some(Flag::Switch(SwitchFlag::SmemHist))
    } else if text == "--f16-hist"@ {
        Some(Flag::Switch(SwitchFlag::F16Hist))
    } else if text == "--int-hist"@ {
        Some(Flag::Switch(SwitchFlag::IntHist))
    } else if text == "--int-scale"@ {
        Some(Flag::Number(NumberFlag::IntScale))
    } else if text == "--monotone"@ {
        Some(Flag::Monotone)
    } else if text == "--categorical"@ {
        Some(Flag::Categorical)
    } else if text == "--bin-sample"@ {
        Some(Flag::Size(SizeFlag::BinSample))
    } else if text == "--gpu"@ {
        Some(Flag::Size(SizeFlag::Gpu))
    } else if text == "--replicas"@ {
        Some(Flag::Size(SizeFlag::Replicas))
    } else if text == "--profile-out"@ {
        Some(Flag::Text(TextFlag::ProfileOut))
    } else if text == "--latency-bench"@ {
        Some(Flag::Switch(SwitchFlag::LatencyBench))
    } else if text == "--throughput-bench"@ {
        Some(Flag::Switch(SwitchFlag::ThroughputBench))
    } else if text == "--objective"@ {
        Some(Flag::Objective)
    } else if text == "--device"@ {
        Some(Flag::Device)
    } else if text == "--save-model"@ {
        Some(Flag::Text(TextFlag::SaveModel))
    } else if text == "--load-model"@ {
        Some(Flag::Text(TextFlag::LoadModel))
    } else if text == "--dump-pred"@ {
        Some(Flag::Text(TextFlag::DumpPred))
    } else if text == "--serve"@ {
        Some(Flag::Switch(SwitchFlag::Serve))
    } else {
        None
    }
}

/// Why a command line is refused.
#[derive(Clone, Debug)]
pub enum ConfigError {
    /// The flag stands last, without a value.
    MissingValue(String),
    /// The value of the flag is no number that the setting can have.
    BadNumber(String),
    /// An item of the list of monotone directions is no integer.
    BadMonotone,
    /// An item of the list of categorical columns is no index.
    BadCategorical,
    /// The objective has no such name.
    UnknownObjective(String),
    /// The device has no such name.
    UnknownDevice(String),
    /// There is no such flag.
    UnknownFlag(String),
    /// There are fewer than 2 bins, or more than 256.
    BinsOutOfRange,
    /// Trees have no level, or more than 12.
    DepthOutOfRange,
}

/// Why a command line is refused, as plain values.
pub enum Refusal {
    MissingValue(Seq<char>),
    BadNumber(Seq<char>),
    BadMonotone,
    BadCategorical,
    UnknownObjective(Seq<char>),
    UnknownDevice(Seq<char>),
    UnknownFlag(Seq<char>),
    BinsOutOfRange,
    DepthOutOfRange,
}

impl ConfigError {
    pub open spec fn refusal(self) -> Refusal {
        match self {
            ConfigError::MissingValue(flag) => Refusal::MissingValue(flag@),
            ConfigError::BadNumber(flag) => Refusal::BadNumber(flag@),
            ConfigError::BadMonotone => Refusal::BadMonotone,
            ConfigError::BadCategorical => Refusal::BadCategorical,
            ConfigError::UnknownObjective(name) => Refusal::UnknownObjective(name@),
            ConfigError::UnknownDevice(name) => Refusal::UnknownDevice(name@),
            ConfigError::UnknownFlag(flag) => Refusal::UnknownFlag(flag@),
            ConfigError::BinsOutOfRange => Refusal::BinsOutOfRange,
            ConfigError::DepthOutOfRange => Refusal::DepthOutOfRange,
        }
    }
}

/// The switch is on.
pub open spec fn switched_on(value: Seq<char>) -> bool {
    value == "1"@ || value == "true"@
}

/// The objective that a text names.
pub open spec fn objective_named(value: Seq<char>) -> Option<Objective> {
    if value == "logistic"@ || value == "binary"@ {
        Some(Objective::Logistic)
    } else if value == "l2"@ || value == "rmse"@ || value == "reg"@ {
        Some(Objective::SquaredError)
    } else {
        None
    }
}

/// The device that a text names.
pub open spec fn device_named(value: Seq<char>) -> Option<Device> {
    if value == "cpu"@ {
        Some(Device::Cpu)
    } else if value == "gpu"@ {
        Some(Device::Gpu)
    } else {
        None
    }
}

/// The column indices among the first `k` items of a list, empty items left out.
pub open spec fn indices_in(items: Seq<Seq<char>>, k: nat) -> Option<Seq<usize>>
    decreases k,
{
    if k == 0 {
        Some(Seq::empty())
    } else {
        let before = indices_in(items, (k - 1) as nat);
        if items[k - 1].len() == 0 {
            before
        } else {
            match (before, count_within(items[k - 1], usize::MAX as nat)) {
                (Some(list), Some(v)) => Some(list.push(v as usize)),
                _ => None,
            }
        }
    }
}

/// The directions among the first `k` items of a list, empty items left out.
pub open spec fn directions_in(items: Seq<Seq<char>>, k: nat) -> Option<Seq<i32>>
    decreases k,
{
    if k == 0 {
        Some(Seq::empty())
    } else {
        let before = directions_in(items, (k - 1) as nat);
        if items[k - 1].len() == 0 {
            before
        } else {
            match (before, integer_of(items[k - 1])) {
                (Some(list), Some(v)) => if i32::MIN <= v <= i32::MAX {
                    Some(list.push(v as i32))
                } else {
                    None
                },
                _ => None,
            }
        }
    }
}

/// The column indices in a list between commas.
pub open spec fn index_list(value: Seq<char>) -> Option<Seq<usize>> {
    let items = pieces(value, ',', value.len());
    indices_in(items, items.len())
}

/// The directions in a list between commas.
pub open spec fn direction_list(value: Seq<char>) -> Option<Seq<i32>> {
    let items = pieces(value, ',', value.len());
    directions_in(items, items.len())
}

impl Settings {
    pub open spec fn with_text(self, flag: TextFlag, value: Seq<char>) -> Settings {
        match flag {
            TextFlag::Data => Settings { data_dir: value, ..self },
            TextFlag::ProfileOut => Settings { profile_out: value, ..self },
            TextFlag::SaveModel => Settings { save_model: value, ..self },
            TextFlag::LoadModel => Settings { load_model: value, ..self },
            TextFlag::DumpPred => Settings { dump_pred: value, ..self },
        }
    }

    pub open spec fn with_size(self, flag: SizeFlag, value: usize) -> Settings {
        match flag {
            SizeFlag::Trees => Settings { n_trees: value, ..self },
            SizeFlag::Depth => Settings { depth: value, ..self },
            SizeFlag::Bins => Settings { n_bins: value, ..self },
            SizeFlag::BinSample => Settings { bin_sample: value, ..self },
            SizeFlag::Gpu => Settings { gpu: value, ..self },
            SizeFlag::Replicas => Settings { replicas: value, ..self },
        }
    }

    pub open spec fn with_number(self, flag: NumberFlag, value: F32) -> Settings {
        match flag {
            NumberFlag::LearningRate => Settings { learning_rate: value, ..self },
            NumberFlag::Lambda => Settings { lambda: value, ..self },
            NumberFlag::MinChild => Settings { min_child_h: value, ..self },
            NumberFlag::Subsample => Settings { subsample: value, ..self },
            NumberFlag::Colsample => Settings { colsample: value, ..self },
            NumberFlag::TeSmoothing => Settings { te_smoothing: value, ..self },
            NumberFlag::GossTop => Settings { goss_top: value, ..self },
            NumberFlag::GossOther => Settings { goss_other: value, ..self },
            NumberFlag::ClampHessian => Settings { clamp_hessian: value, ..self },
            NumberFlag::IntScale => Settings { int_scale: value, ..self },
        }
    }

    pub open spec fn with_switch(self, flag: SwitchFlag, value: bool) -> Settings {
        match flag {
            SwitchFlag::UniqueBins => Settings { unique_bins: value, ..self },
            SwitchFlag::Subtract => Settings { subtract: value, ..self },
            SwitchFlag::Pack4 => Settings { pack4: value, ..self },
            SwitchFlag::Pgbm => Settings { pgbm: value, ..self },
            SwitchFlag::SmemHist => Settings { smem_hist: value, ..self },
            SwitchFlag::F16Hist => Settings { f16_hist: value, ..self },
            SwitchFlag::IntHist => Settings { int_hist: value, ..self },
            SwitchFlag::LatencyBench => Settings { latency_bench: value, ..self },
            SwitchFlag::ThroughputBench => Settings { throughput_bench: value, ..self },
            SwitchFlag::Serve => Settings { serve: value, ..self },
        }
    }

    /// The settings after a flag, written `text`, has been given a value, which is read as
    /// `number` where a number is wanted.
    pub open spec fn with_flag(
        self,
        flag: Flag,
        text: Seq<char>,
        value: Seq<char>,
        number: Option<F32>,
    ) -> Result<Settings, Refusal> {
        match flag {
            Flag::Text(f) => Ok(self.with_text(f, value)),
            Flag::Switch(f) => Ok(self.with_switch(f, switched_on(value))),
            Flag::Size(f) => match count_within(value, usize::MAX as nat) {
                Some(v) => Ok(self.with_size(f, v as usize)),
                None => Err(Refusal::BadNumber(text)),
            },
            Flag::Number(f) => match number {
                Some(v) => Ok(self.with_number(f, v)),
                None => Err(Refusal::BadNumber(text)),
            },
            Flag::CatHashBuckets => match count_within(value, u64::MAX as nat) {
                Some(v) => Ok(Settings { cat_hash_buckets: v as u64, ..self }),
                None => Err(Refusal::BadNumber(text)),
            },
            Flag::Monotone => match direction_list(value) {
                Some(v) => Ok(Settings { monotone: v, ..self }),
                None => Err(Refusal::BadMonotone),
            },
            Flag::Categorical => match index_list(value) {
                Some(v) => Ok(Settings { categorical: v, ..self }),
                None => Err(Refusal::BadCategorical),
            },
            Flag::Objective => match objective_named(value) {
                Some(v) => Ok(Settings { objective: v, ..self }),
                None => Err(Refusal::UnknownObjective(value)),
            },
            Flag::Device => match device_named(value) {
                Some(v) => Ok(Settings { device: v, ..self }),
                None => Err(Refusal::UnknownDevice(value)),
            },
        }
    }
}

/// The settings after the first `k` flags, each with the value that follows it. What the value
/// of a flag is read as, where a number is wanted, stands in `numbers`.
pub open spec fn settings_after(
    tokens: Seq<Seq<char>>,
    numbers: Seq<Option<F32>>,
    k: nat,
) -> Result<Settings, Refusal>
    decreases k,
{
    if k == 0 {
        Ok(defaults())
    } else {
        match settings_after(tokens, numbers, (k - 1) as nat) {
            Err(refusal) => Err(refusal),
            Ok(settings) => {
                let text = tokens[2 * k - 2];
                match flag_named(text) {
                    None => Err(Refusal::UnknownFlag(text)),
                    Some(flag) => if 2 * k - 1 < tokens.len() {
                        settings.with_flag(flag, text, tokens[2 * k - 1], numbers[k - 1])
                    } else {
                        Err(Refusal::MissingValue(text))
                    },
                }
            },
        }
    }
}

/// The number of flags on a command line.
pub open spec fn flag_count(tokens: Seq<Seq<char>>) -> nat {
    (tokens.len() + 1) / 2
}

/// The settings that a command line asks for.
pub open spec fn settings_of(
    tokens: Seq<Seq<char>>,
    numbers: Seq<Option<F32>>,
) -> Result<Settings, Refusal> {
    match settings_after(tokens, numbers, flag_count(tokens)) {
        Err(refusal) => Err(refusal),
        Ok(settings) => if settings.n_bins < 2 || settings.n_bins > 256 {
            Err(Refusal::BinsOutOfRange)
        } else if settings.depth < 1 || settings.depth > 12 {
            Err(Refusal::DepthOutOfRange)
        } else {
            Ok(settings)
        },
    }
}

/// What the values of a command line are read as, where one text is always read alike.
pub open spec fn numbers_on<A: Arith>(tokens: Seq<Seq<char>>) -> Seq<Option<F32>> {
    Seq::new(flag_count(tokens), |k: int| parsed32::<A>(tokens[2 * k + 1]))
}

/// `numbers` are readings of the values of a command line, as far as it was not refused before.
pub open spec fn read_as<A: Arith>(tokens: Seq<Seq<char>>, numbers: Seq<Option<F32>>) -> bool {
    &&& numbers.len() <= flag_count(tokens)
    &&& numbers.len() == flag_count(tokens) || settings_after(
        tokens,
        numbers,
        numbers.len(),
    ) is Err
    &&& forall|k: int|
        0 <= k < numbers.len() && (flag_named(tokens[2 * k]) matches Some(Flag::Number(_))) && 2 * k
            + 1 < tokens.len() ==> parses_to::<A>(tokens[2 * k + 1], #[trigger] numbers[k])
}

/// The readings that make every number zero: with them, a command line asks for the settings
/// that are no numbers.
pub open spec fn zeros_on(tokens: Seq<Seq<char>>) -> Seq<Option<F32>> {
    Seq::new(flag_count(tokens), |k: int| Some(F32 { bits: 0 }))
}

impl Settings {
    /// The settings but for the numbers.
    #[verifier::opaque]
    pub open spec fn without_numbers(self) -> Settings {
        let zero = F32 { bits: 0 };
        Settings {
            learning_rate: zero,
            lambda: zero,
            min_child_h: zero,
            subsample: zero,
            colsample: zero,
            te_smoothing: zero,
            goss_top: zero,
            goss_other: zero,
            clamp_hessian: zero,
            int_scale: zero,
            ..self
        }
    }
}

/// How a command line is answered.
pub open spec fn answer(r: Result<Config, ConfigError>) -> Result<Settings, Refusal> {
    match r {
        Ok(cfg) => Ok(cfg@),
        Err(e) => Err(e.refusal()),
    }
}

/// A command line is answered rightly: with the settings that it asks for, or with what it is
/// refused for, by some reading of its numbers. No number has a part in the other settings,
/// nor in whether anything else is refused.
pub open spec fn answered<A: Arith>(
    tokens: Seq<Seq<char>>,
    r: Result<Config, ConfigError>,
) -> bool {
    let plain = settings_of(tokens, zeros_on(tokens));
    &&& exists|numbers: Seq<Option<F32>>| #[trigger]
        read_as::<A>(tokens, numbers) && answer(r) == settings_of(tokens, numbers)
    &&& plain is Err ==> r is Err
    &&& r is Ok ==> plain is Ok && plain->Ok_0.without_numbers() == answer(
        r,
    )->Ok_0.without_numbers()
}

/// The texts of a command line.
pub open spec fn texts(tokens: Seq<String>) -> Seq<Seq<char>> {
    Seq::new(tokens.len(), |i: int| tokens[i]@)
}

/// The texts of the arguments of a program, without its name.
pub open spec fn flags_in(args: Seq<String>) -> Seq<Seq<char>> {
    if args.len() == 0 {
        Seq::empty()
    } else {
        texts(args).skip(1)
    }
}

/// What is refused stays refused, whatever is read afterwards.
proof fn lemma_refused(
    tokens: Seq<Seq<char>>,
    numbers: Seq<Option<F32>>,
    k: nat,
    m: nat,
)
    requires
        k <= m,
        settings_after(tokens, numbers, k) is Err,
    ensures
        settings_after(tokens, numbers, m) == settings_after(tokens, numbers, k),
    decreases m,
{
    if k < m {
        lemma_refused(tokens, numbers, k, (m - 1) as nat);
    }
}

/// The first settings depend on the first readings alone.
proof fn lemma_readings(
    tokens: Seq<Seq<char>>,
    a: Seq<Option<F32>>,
    b: Seq<Option<F32>>,
    k: nat,
)
    requires
        forall|i: int|
            0 <= i < k && 2 * i + 1 < tokens.len() && (flag_named(tokens[2 * i]) matches Some(
                Flag::Number(_),
            )) ==> #[trigger] a[i] == b[i],
    ensures
        settings_after(tokens, a, k) == settings_after(tokens, b, k),
    decreases k,
{
    if k > 0 {
        lemma_readings(tokens, a, b, (k - 1) as nat);
        let _ = a[k - 1];
    }
}

/// Numbers have no part in the other settings: where a command line is accepted, they are what
/// they are with all numbers zero.
pub proof fn lemma_other_settings(tokens: Seq<Seq<char>>, numbers: Seq<Option<F32>>, k: nat)
    requires
        k <= flag_count(tokens),
        settings_after(tokens, numbers, k) is Ok,
    ensures
        settings_after(tokens, zeros_on(tokens), k) is Ok,
        settings_after(tokens, zeros_on(tokens), k)->Ok_0.without_numbers() == settings_after(
            tokens,
            numbers,
            k,
        )->Ok_0.without_numbers(),
    decreases k,
{
    if k > 0 {
        lemma_other_settings(tokens, numbers, (k - 1) as nat);
        let a = settings_after(tokens, numbers, (k - 1) as nat)->Ok_0;
        let b = settings_after(tokens, zeros_on(tokens), (k - 1) as nat)->Ok_0;
        let text = tokens[2 * k - 2];
        let flag = flag_named(text)->0;
        let value = tokens[2 * k - 1];
        lemma_other_flag(a, flag, text, value, numbers[k - 1]);
        lemma_other_flag(b, flag, text, value, Some(F32 { bits: 0 }));
    }
}

proof fn lemma_other_text(s: Settings, f: TextFlag, v: Seq<char>)
    ensures
        s.with_text(f, v).without_numbers() == s.without_numbers().with_text(f, v),
{
    reveal(Settings::without_numbers);
}

proof fn lemma_other_size(s: Settings, f: SizeFlag, v: usize)
    ensures
        s.with_size(f, v).without_numbers() == s.without_numbers().with_size(f, v),
{
    reveal(Settings::without_numbers);
}

proof fn lemma_other_number(s: Settings, f: NumberFlag, v: F32)
    ensures
        s.with_number(f, v).without_numbers() == s.without_numbers(),
{
    reveal(Settings::without_numbers);
}

proof fn lemma_other_method_switch(s: Settings, f: SwitchFlag, v: bool)
    requires
        f == SwitchFlag::UniqueBins || f == SwitchFlag::Subtract || f == SwitchFlag::Pack4 || f == SwitchFlag::Pgbm,
    ensures
        s.with_switch(f, v).without_numbers() == s.without_numbers().with_switch(f, v),
{
    reveal(Settings::without_numbers);
}

proof fn lemma_other_hist_switch(s: Settings, f: SwitchFlag, v: bool)
    requires
        f == SwitchFlag::SmemHist || f == SwitchFlag::F16Hist || f == SwitchFlag::IntHist,
    ensures
        s.with_switch(f, v).without_numbers() == s.without_numbers().with_switch(f, v),
{
    reveal(Settings::without_numbers);
}

proof fn lemma_other_run_switch(s: Settings, f: SwitchFlag, v: bool)
    requires
        f == SwitchFlag::LatencyBench || f == SwitchFlag::ThroughputBench || f == SwitchFlag::Serve,
    ensures
        s.with_switch(f, v).without_numbers() == s.without_numbers().with_switch(f, v),
{
    reveal(Settings::without_numbers);
}

proof fn lemma_other_switch(s: Settings, f: SwitchFlag, v: bool)
    ensures
        s.with_switch(f, v).without_numbers() == s.without_numbers().with_switch(f, v),
{
    match f {
        SwitchFlag::UniqueBins
        | SwitchFlag::Subtract
        | SwitchFlag::Pack4
        | SwitchFlag::Pgbm => lemma_other_method_switch(s, f, v),
        SwitchFlag::SmemHist
        | SwitchFlag::F16Hist
        | SwitchFlag::IntHist => lemma_other_hist_switch(s, f, v),
        SwitchFlag::LatencyBench
        | SwitchFlag::ThroughputBench
        | SwitchFlag::Serve => lemma_other_run_switch(s, f, v),
    }
}

proof fn lemma_other_lists(s: Settings, buckets: u64, monotone: Seq<i32>, categorical: Seq<usize>)
    ensures
        (Settings { cat_hash_buckets: buckets, ..s }).without_numbers() == (Settings {
            cat_hash_buckets: buckets,
            ..s.without_numbers()
        }),
        (Settings { monotone, ..s }).without_numbers() == (Settings {
            monotone,
            ..s.without_numbers()
        }),
        (Settings { categorical, ..s }).without_numbers() == (Settings {
            categorical,
            ..s.without_numbers()
        }),
{
    reveal(Settings::without_numbers);
}

proof fn lemma_other_names(s: Settings, objective: Objective, device: Device)
    ensures
        (Settings { objective, ..s }).without_numbers() == (Settings {
            objective,
            ..s.without_numbers()
        }),
        (Settings { device, ..s }).without_numbers() == (Settings {
            device,
            ..s.without_numbers()
        }),
{
    reveal(Settings::without_numbers);
}

/// A flag does to the other settings what it does with all numbers zero.
proof fn lemma_other_flag(
    s: Settings,
    flag: Flag,
    text: Seq<char>,
    value: Seq<char>,
    number: Option<F32>,
)
    requires
        s.with_flag(flag, text, value, number) is Ok,
    ensures
        s.without_numbers().with_flag(flag, text, value, Some(F32 { bits: 0 })) is Ok,
        s.with_flag(flag, text, value, number)->Ok_0.without_numbers()
            == s.without_numbers().with_flag(
            flag,
            text,
            value,
            Some(F32 { bits: 0 }),
        )->Ok_0.without_numbers(),
{
    let o = s.without_numbers();
    assert(o.without_numbers() == o) by {
        reveal(Settings::without_numbers);
    }
    match flag {
        Flag::Text(f) => {
            lemma_other_text(s, f, value);
            lemma_other_text(o, f, value);
        },
        Flag::Switch(f) => {
            lemma_other_switch(s, f, switched_on(value));
            lemma_other_switch(o, f, switched_on(value));
        },
        Flag::Size(f) => {
            let v = count_within(value, usize::MAX as nat)->0 as usize;
            lemma_other_size(s, f, v);
            lemma_other_size(o, f, v);
        },
        Flag::Number(f) => {
            lemma_other_number(s, f, number->0);
            lemma_other_number(o, f, F32 { bits: 0 });
        },
        Flag::CatHashBuckets | Flag::Monotone | Flag::Categorical => {
            let buckets = count_within(value, u64::MAX as nat)->0 as u64;
            lemma_other_lists(s, buckets, direction_list(value)->0, index_list(value)->0);
            lemma_other_lists(o, buckets, direction_list(value)->0, index_list(value)->0);
        },
        Flag::Objective | Flag::Device => {
            lemma_other_names(s, objective_named(value)->0, device_named(value)->0);
            lemma_other_names(o, objective_named(value)->0, device_named(value)->0);
        },
    }
}

/// An answer by the readings so far is right.
proof fn lemma_answered<A: Arith>(
    tokens: Seq<Seq<char>>,
    numbers: Seq<Option<F32>>,
    r: Result<Config, ConfigError>,
)
    requires
        numbers.len() <= flag_count(tokens),
        numbers.len() == flag_count(tokens) || settings_after(
            tokens,
            numbers,
            numbers.len(),
        ) is Err,
        settings_after(tokens, numbers, numbers.len()) matches Err(refusal) ==> answer(r) == Err::<
            Settings,
            Refusal,
        >(refusal),
        settings_after(tokens, numbers, numbers.len()) is Ok ==> answer(r) == settings_of(
            tokens,
            numbers,
        ),
        forall|q: int|
            0 <= q < numbers.len() && (flag_named(tokens[2 * q]) matches Some(Flag::Number(_)))
                && 2 * q + 1 < tokens.len() ==> parses_to::<A>(
                tokens[2 * q + 1],
                #[trigger] numbers[q],
            ) && (deterministic::<A>() ==> numbers[q] == parsed32::<A>(tokens[2 * q + 1])),
    ensures
        answered::<A>(tokens, r),
        deterministic::<A>() ==> answer(r) == settings_of(tokens, numbers_on::<A>(tokens)),
{
    let total = flag_count(tokens);
    if settings_after(tokens, numbers, numbers.len()) is Err {
        lemma_refused(tokens, numbers, numbers.len(), total);
    }
    assert(answer(r) == settings_of(tokens, numbers));
    assert(read_as::<A>(tokens, numbers));
    if r is Ok {
        lemma_other_settings(tokens, numbers, total);
        let a = settings_after(tokens, numbers, total)->Ok_0;
        let b = settings_after(tokens, zeros_on(tokens), total)->Ok_0;
        assert(a.n_bins == b.n_bins && a.depth == b.depth) by {
            reveal(Settings::without_numbers);
            assert(a.n_bins == a.without_numbers().n_bins);
            assert(b.n_bins == b.without_numbers().n_bins);
            assert(a.depth == a.without_numbers().depth);
            assert(b.depth == b.without_numbers().depth);
        }
    }
    if deterministic::<A>() {
        let read = numbers_on::<A>(tokens);
        lemma_readings(tokens, numbers, read, numbers.len());
        if settings_after(tokens, numbers, numbers.len()) is Err {
            lemma_refused(tokens, read, numbers.len(), total);
        }
    }
}

/// The flag that a text names.
fn find_flag(text: &str) -> (r: Option<Flag>)
    ensures
        r == flag_named(text@),
{
    if same_text(text, "--data") {
        Some(Flag::Text(TextFlag::Data))
    } else if same_text(text, "--trees") {
        Some(Flag::Size(SizeFlag::Trees))
    } else if same_text(text, "--depth") {
        Some(Flag::Size(SizeFlag::Depth))
    } else if same_text(text, "--lr") {
        Some(Flag::Number(NumberFlag::LearningRate))
    } else if same_text(text, "--bins") {
        Some(Flag::Size(SizeFlag::Bins))
    } else if same_text(text, "--lambda") {
        Some(Flag::Number(NumberFlag::Lambda))
    } else if same_text(text, "--min-child") {
        Some(Flag::Number(NumberFlag::MinChild))
    } else if same_text(text, "--subsample") {
        Some(Flag::Number(NumberFlag::Subsample))
    } else if same_text(text, "--colsample") {
        Some(Flag::Number(NumberFlag::Colsample))
    } else if same_text(text, "--unique-bins") {
        Some(Flag::Switch(SwitchFlag::UniqueBins))
    } else if same_text(text, "--te-smoothing") {
        Some(Flag::Number(NumberFlag::TeSmoothing))
    } else if same_text(text, "--cat-hash-buckets") {
        Some(Flag::CatHashBuckets)
    } else if same_text(text, "--subtract") {
        Some(Flag::Switch(SwitchFlag::Subtract))
    } else if same_text(text, "--goss-top") {
        Some(Flag::Number(NumberFlag::GossTop))
    } else if same_text(text, "--goss-other") {
        Some(Flag::Number(NumberFlag::GossOther))
    } else if same_text(text, "--clamp-hessian") {
        Some(Flag::Number(NumberFlag::ClampHessian))
    } else if same_text(text, "--pack4") {
        Some(Flag::Switch(SwitchFlag::Pack4))
    } else if same_text(text, "--pgbm") {
        Some(Flag::Switch(SwitchFlag::Pgbm))
    } else if same_text(text, "--smem-hist") {
        Some(Flag::Switch(SwitchFlag::SmemHist))
    } else if same_text(text, "--f16-hist") {
        Some(Flag::Switch(SwitchFlag::F16Hist))
    } else if same_text(text, "--int-hist") {
        Some(Flag::Switch(SwitchFlag::IntHist))
    } else if same_text(text, "--int-scale") {
        Some(Flag::Number(NumberFlag::IntScale))
    } else if same_text(text, "--monotone") {
        Some(Flag::Monotone)
    } else if same_text(text, "--categorical") {
        Some(Flag::Categorical)
    } else if same_text(text, "--bin-sample") {
        Some(Flag::Size(SizeFlag::BinSample))
    } else if same_text(text, "--gpu") {
        Some(Flag::Size(SizeFlag::Gpu))
    } else if same_text(text, "--replicas") {
        Some(Flag::Size(SizeFlag::Replicas))
    } else if same_text(text, "--profile-out") {
        Some(Flag::Text(TextFlag::ProfileOut))
    } else if same_text(text, "--latency-bench") {
        Some(Flag::Switch(SwitchFlag::LatencyBench))
    } else if same_text(text, "--throughput-bench") {
        Some(Flag::Switch(SwitchFlag::ThroughputBench))
    } else if same_text(text, "--objective") {
        Some(Flag::Objective)
    } else if same_text(text, "--device") {
        Some(Flag::Device)
    } else if same_text(text, "--save-model") {
        Some(Flag::Text(TextFlag::SaveModel))
    } else if same_text(text, "--load-model") {
        Some(Flag::Text(TextFlag::LoadModel))
    } else if same_text(text, "--dump-pred") {
        Some(Flag::Text(TextFlag::DumpPred))
    } else if same_text(text, "--serve") {
        Some(Flag::Switch(SwitchFlag::Serve))
    } else {
        None
    }
}

/// The switch is on.
fn is_on(value: &str) -> (r: bool)
    ensures
        r == switched_on(value@),
{
    same_text(value, "1") || same_text(value, "true")
}

/// The column indices in a list between commas.
fn parse_indices(value: &str) -> (r: Option<Vec<usize>>)
    ensures
        match r {
            Some(list) => index_list(value@) == Some(list@),
            None => index_list(value@) is None,
        },
{
    let items = split_on(value, ',');
    let ghost all = pieces(value@, ',', value@.len());
    let mut list: Vec<usize> = Vec::new();
    let mut bad = false;
    let mut k: usize = 0;
    while k < items.len()
        invariant
            items@.len() == all.len(),
            forall|j: int| 0 <= j < items@.len() ==> #[trigger] items@[j]@ == all[j],
            k <= items@.len(),
            bad == (indices_in(all, k as nat) is None),
            !bad ==> indices_in(all, k as nat) == Some(list@),
        decreases items@.len() - k,
    {
        assert(items@[k as int]@ == all[k as int]);
        let item: &str = items[k].as_str();
        if !item.is_empty() {
            match parse_usize(item) {
                Some(v) => list.push(v),
                None => {
                    bad = true;
                },
            }
        }
        k = k + 1;
    }
    if bad {
        None
    } else {
        Some(list)
    }
}

/// The directions in a list between commas.
fn parse_directions(value: &str) -> (r: Option<Vec<i32>>)
    ensures
        match r {
            Some(list) => direction_list(value@) == Some(list@),
            None => direction_list(value@) is None,
        },
{
    let items = split_on(value, ',');
    let ghost all = pieces(value@, ',', value@.len());
    let mut list: Vec<i32> = Vec::new();
    let mut bad = false;
    let mut k: usize = 0;
    while k < items.len()
        invariant
            items@.len() == all.len(),
            forall|j: int| 0 <= j < items@.len() ==> #[trigger] items@[j]@ == all[j],
            k <= items@.len(),
            bad == (directions_in(all, k as nat) is None),
            !bad ==> directions_in(all, k as nat) == Some(list@),
        decreases items@.len() - k,
    {
        assert(items@[k as int]@ == all[k as int]);
        let item: &str = items[k].as_str();
        if !item.is_empty() {
            match parse_i32(item) {
                Some(v) => list.push(v),
                None => {
                    bad = true;
                },
            }
        }
        k = k + 1;
    }
    if bad {
        None
    } else {
        Some(list)
    }
}

/// The objective that a text names.
fn find_objective(value: &str) -> (r: Option<Objective>)
    ensures
        r == objective_named(value@),
{
    if same_text(value, "logistic") || same_text(value, "binary") {
        Some(Objective::Logistic)
    } else if same_text(value, "l2") || same_text(value, "rmse") || same_text(value, "reg") {
        Some(Objective::SquaredError)
    } else {
        None
    }
}

/// The device that a text names.
fn find_device(value: &str) -> (r: Option<Device>)
    ensures
        r == device_named(value@),
{
    if same_text(value, "cpu") {
        Some(Device::Cpu)
    } else if same_text(value, "gpu") {
        Some(Device::Gpu)
    } else {
        None
    }
}

impl Config {
    #[verifier::rlimit(40)]
    fn set_text(&mut self, flag: TextFlag, value: &str)
        ensures
            final(self)@ == old(self)@.with_text(flag, value@),
    {
        match flag {
            TextFlag::Data => {
                self.data_dir = value.to_owned();
            },
            TextFlag::ProfileOut => {
                self.profile_out = value.to_owned();
            },
            TextFlag::SaveModel => {
                self.save_model = value.to_owned();
            },
            TextFlag::LoadModel => {
                self.load_model = value.to_owned();
            },
            TextFlag::DumpPred => {
                self.dump_pred = value.to_owned();
            },
        }
    }

    #[verifier::rlimit(40)]
    fn set_size(&mut self, flag: SizeFlag, value: usize)
        ensures
            final(self)@ == old(self)@.with_size(flag, value),
    {
        match flag {
            SizeFlag::Trees => {
                self.n_trees = value;
            },
            SizeFlag::Depth => {
                self.depth = value;
            },
            SizeFlag::Bins => {
                self.n_bins = value;
            },
            SizeFlag::BinSample => {
                self.bin_sample = value;
            },
            SizeFlag::Gpu => {
                self.gpu = value;
            },
            SizeFlag::Replicas => {
                self.replicas = value;
            },
        }
    }

    #[verifier::rlimit(40)]
    fn set_number(&mut self, flag: NumberFlag, value: F32)
        ensures
            final(self)@ == old(self)@.with_number(flag, value),
    {
        match flag {
            NumberFlag::LearningRate => {
                self.learning_rate = value;
            },
            NumberFlag::Lambda => {
                self.lambda = value;
            },
            NumberFlag::MinChild => {
                self.min_child_h = value;
            },
            NumberFlag::Subsample => {
                self.subsample = value;
            },
            NumberFlag::Colsample => {
                self.colsample = value;
            },
            NumberFlag::TeSmoothing => {
                self.te_smoothing = value;
            },
            NumberFlag::GossTop => {
                self.goss_top = value;
            },
            NumberFlag::GossOther => {
                self.goss_other = value;
            },
            NumberFlag::ClampHessian => {
                self.clamp_hessian = value;
            },
            NumberFlag::IntScale => {
                self.int_scale = value;
            },
        }
    }

    #[verifier::rlimit(40)]
    fn set_method_switch(&mut self, flag: SwitchFlag, value: bool)
        requires
            flag == SwitchFlag::UniqueBins || flag == SwitchFlag::Subtract || flag == SwitchFlag::Pack4 || flag == SwitchFlag::Pgbm,
        ensures
            final(self)@ == old(self)@.with_switch(flag, value),
    {
        match flag {
            SwitchFlag::UniqueBins => {
                self.unique_bins = value;
            },
            SwitchFlag::Subtract => {
                self.subtract = value;
            },
            SwitchFlag::Pack4 => {
                self.pack4 = value;
            },
            _ => {
                self.pgbm = value;
            },
        }
    }

    fn set_hist_switch(&mut self, flag: SwitchFlag, value: bool)
        requires
            flag == SwitchFlag::SmemHist || flag == SwitchFlag::F16Hist || flag == SwitchFlag::IntHist,
        ensures
            final(self)@ == old(self)@.with_switch(flag, value),
    {
        match flag {
            SwitchFlag::SmemHist => {
                self.smem_hist = value;
            },
            SwitchFlag::F16Hist => {
                self.f16_hist = value;
            },
            _ => {
                self.int_hist = value;
            },
        }
    }

    fn set_run_switch(&mut self, flag: SwitchFlag, value: bool)
        requires
            flag == SwitchFlag::LatencyBench || flag == SwitchFlag::ThroughputBench || flag == SwitchFlag::Serve,
        ensures
            final(self)@ == old(self)@.with_switch(flag, value),
    {
        match flag {
            SwitchFlag::LatencyBench => {
                self.latency_bench = value;
            },
            SwitchFlag::ThroughputBench => {
                self.throughput_bench = value;
            },
            _ => {
                self.serve = value;
            },
        }
    }

    fn set_switch(&mut self, flag: SwitchFlag, value: bool)
        ensures
            final(self)@ == old(self)@.with_switch(flag, value),
    {
        match flag {
            SwitchFlag::UniqueBins
            | SwitchFlag::Subtract
            | SwitchFlag::Pack4
            | SwitchFlag::Pgbm => self.set_method_switch(flag, value),
            SwitchFlag::SmemHist
            | SwitchFlag::F16Hist
            | SwitchFlag::IntHist => self.set_hist_switch(flag, value),
            SwitchFlag::LatencyBench
            | SwitchFlag::ThroughputBench
            | SwitchFlag::Serve => self.set_run_switch(flag, value),
        }
    }

    /// Gives a flag, written `text`, a value.
    #[verifier::rlimit(40)]
    fn set_flag<A: Arith>(&mut self, flag: Flag, text: &str, value: &str) -> (r: (
        Result<(), ConfigError>,
        Ghost<Option<F32>>,
    ))
        ensures
            flag matches Flag::Number(_) ==> parses_to::<A>(value@, r.1@),
            deterministic::<A>() && (flag matches Flag::Number(_)) ==> r.1@ == parsed32::<A>(
                value@,
            ),
            match r.0 {
                Ok(_) => old(self)@.with_flag(flag, text@, value@, r.1@) == Ok::<Settings, Refusal>(
                    final(self)@,
                ),
                Err(e) => old(self)@.with_flag(flag, text@, value@, r.1@) == Err::<
                    Settings,
                    Refusal,
                >(e.refusal()),
            },
    {
        let ghost mut number: Option<F32> = None;
        match flag {
            Flag::Text(f) => self.set_text(f, value),
            Flag::Switch(f) => self.set_switch(f, is_on(value)),
            Flag::Size(f) => match parse_usize(value) {
                Some(v) => self.set_size(f, v),
                None => {
                    return (Err(ConfigError::BadNumber(text.to_owned())), Ghost(number));
                },
            },
            Flag::Number(f) => {
                let read = parse32::<A>(value);
                proof {
                    number = read;
                }
                match read {
                    Some(v) => self.set_number(f, v),
                    None => {
                        return (Err(ConfigError::BadNumber(text.to_owned())), Ghost(number));
                    },
                }
            },
            Flag::CatHashBuckets => match parse_count(value, u64::MAX) {
                Some(v) => {
                    self.cat_hash_buckets = v;
                },
                None => {
                    return (Err(ConfigError::BadNumber(text.to_owned())), Ghost(number));
                },
            },
            Flag::Monotone => match parse_directions(value) {
                Some(v) => {
                    self.monotone = v;
                },
                None => {
                    return (Err(ConfigError::BadMonotone), Ghost(number));
                },
            },
            Flag::Categorical => match parse_indices(value) {
                Some(v) => {
                    self.categorical = v;
                },
                None => {
                    return (Err(ConfigError::BadCategorical), Ghost(number));
                },
            },
            Flag::Objective => match find_objective(value) {
                Some(v) => {
                    self.objective = v;
                },
                None => {
                    return (Err(ConfigError::UnknownObjective(value.to_owned())), Ghost(number));
                },
            },
            Flag::Device => match find_device(value) {
                Some(v) => {
                    self.device = v;
                },
                None => {
                    return (Err(ConfigError::UnknownDevice(value.to_owned())), Ghost(number));
                },
            },
        }
        (Ok(()), Ghost(number))
    }

    /// The settings that a command line without the program's name asks for: flags, each
    /// followed by its value. The first flag that cannot be served is what it is refused for;
    /// of two that set the same, the later one counts.
    pub fn from_tokens<A: Arith>(tokens: &[String]) -> (r: Result<Config, ConfigError>)
        ensures
            r matches Ok(cfg) ==> 2 <= cfg.n_bins <= 256 && 1 <= cfg.depth <= 12,
            answered::<A>(texts(tokens@), r),
            deterministic::<A>() ==> answer(r) == settings_of(
                texts(tokens@),
                numbers_on::<A>(texts(tokens@)),
            ),
    {
        let ghost all = texts(tokens@);
        let ghost total = flag_count(all);
        let ghost mut numbers: Seq<Option<F32>> = Seq::empty();
        let mut cfg: Config = Config::default();
        let mut i: usize = 0;
        let ghost mut k: nat = 0;
        let n: usize = tokens.len();
        while i < n
            invariant
                n == tokens@.len(),
                all == texts(tokens@),
                total == flag_count(all),
                k <= total,
                i == 2 * k || (i == n && k == total),
                numbers.len() == k,
                settings_after(all, numbers, k) == Ok::<Settings, Refusal>(cfg@),
                forall|q: int|
                    0 <= q < k && (flag_named(all[2 * q]) matches Some(Flag::Number(_))) && 2 * q
                        + 1 < all.len() ==> parses_to::<A>(all[2 * q + 1], #[trigger] numbers[q])
                        && (deterministic::<A>() ==> numbers[q] == parsed32::<A>(all[2 * q + 1])),
            decreases n - i,
        {
            let text: &str = tokens[i].as_str();
            assert(text@ == all[2 * (k + 1) - 2]);
            let ghost longer = numbers.push(None);
            proof {
                lemma_readings(all, numbers, longer, k);
            }
            let flag = match find_flag(text) {
                Some(flag) => flag,
                None => {
                    let r = Err(ConfigError::UnknownFlag(text.to_owned()));
                    proof {
                        lemma_answered::<A>(all, longer, r);
                    }
                    return r;
                },
            };
            if n - i < 2 {
                let r = Err(ConfigError::MissingValue(text.to_owned()));
                proof {
                    lemma_answered::<A>(all, longer, r);
                }
                return r;
            }
            let value: &str = tokens[i + 1].as_str();
            assert(value@ == all[2 * (k + 1) - 1]);
            let (set, Ghost(number)) = cfg.set_flag::<A>(flag, text, value);
            proof {
                let before = numbers;
                numbers = numbers.push(number);
                lemma_readings(all, before, numbers, k);
                k = k + 1;
            }
            match set {
                Ok(_) => {},
                Err(e) => {
                    let r = Err(e);
                    proof {
                        lemma_answered::<A>(all, numbers, r);
                    }
                    return r;
                },
            }
            i = i + 2;
        }
        assert(k == total);
        let r = if cfg.n_bins < 2 || cfg.n_bins > 256 {
            Err(ConfigError::BinsOutOfRange)
        } else if cfg.depth < 1 || cfg.depth > 12 {
            Err(ConfigError::DepthOutOfRange)
        } else {
            Ok(cfg)
        };
        proof {
            lemma_answered::<A>(all, numbers, r);
        }
        r
    }

    /// The settings that the arguments of a program, its name first, ask for.
    pub fn from_args<A: Arith>(args: &[String]) -> (r: Result<Config, ConfigError>)
        ensures
            r matches Ok(cfg) ==> 2 <= cfg.n_bins <= 256 && 1 <= cfg.depth <= 12,
            answered::<A>(flags_in(args@), r),
            deterministic::<A>() ==> answer(r) == settings_of(
                flags_in(args@),
                numbers_on::<A>(flags_in(args@)),
            ),
    {
        if args.len() == 0 {
            assert(texts(args@) =~= Seq::<Seq<char>>::empty());
            Config::from_tokens::<A>(args)
        } else {
            let tokens = slice_subrange(args, 1, args.len());
            assert(texts(tokens@) =~= texts(args@).skip(1));
            Config::from_tokens::<A>(tokens)
        }
    }
}

/// What a refusal is told as.
pub open spec fn refusal_text(refusal: Refusal) -> Seq<char> {
    match refusal {
        Refusal::MissingValue(flag) => "missing value for "@ + flag,
        Refusal::BadNumber(flag) => "bad number for "@ + flag,
        Refusal::BadMonotone => "bad monotone value"@,
        Refusal::BadCategorical => "bad categorical index"@,
        Refusal::UnknownObjective(name) => "unknown objective "@ + name,
        Refusal::UnknownDevice(name) => "unknown device "@ + name,
        Refusal::UnknownFlag(flag) => "unknown flag "@ + flag,
        Refusal::BinsOutOfRange => "n_bins must be in 2..=256"@,
        Refusal::DepthOutOfRange => "depth must be in 1..=12"@,
    }
}

impl ConfigError {
    /// What to tell the caller.
    pub fn message(&self) -> (text: String)
        ensures
            text@ == refusal_text(self.refusal()),
    {
        match self {
            ConfigError::MissingValue(flag) => "missing value for ".to_owned().concat(
                flag.as_str(),
            ),
            ConfigError::BadNumber(flag) => "bad number for ".to_owned().concat(flag.as_str()),
            ConfigError::BadMonotone => "bad monotone value".to_owned(),
            ConfigError::BadCategorical => "bad categorical index".to_owned(),
            ConfigError::UnknownObjective(name) => "unknown objective ".to_owned().concat(
                name.as_str(),
            ),
            ConfigError::UnknownDevice(name) => "unknown device ".to_owned().concat(
                name.as_str(),
            ),
            ConfigError::UnknownFlag(flag) => "unknown flag ".to_owned().concat(flag.as_str()),
            ConfigError::BinsOutOfRange => "n_bins must be in 2..=256".to_owned(),
            ConfigError::DepthOutOfRange => "depth must be in 1..=12".to_owned(),
        }
    }
}

/// The names of the flags.
pub const FLAGS: [&'static str; 36] = [
    "--data",
    "--trees",
    "--depth",
    "--lr",
    "--bins",
    "--lambda",
    "--min-child",
    "--subsample",
    "--colsample",
    "--unique-bins",
    "--te-smoothing",
    "--cat-hash-buckets",
    "--subtract",
    "--goss-top",
    "--goss-other",
    "--clamp-hessian",
    "--pack4",
    "--pgbm",
    "--smem-hist",
    "--f16-hist",
    "--int-hist",
    "--int-scale",
    "--monotone",
    "--categorical",
    "--bin-sample",
    "--gpu",
    "--replicas",
    "--profile-out",
    "--latency-bench",
    "--throughput-bench",
    "--objective",
    "--device",
    "--save-model",
    "--load-model",
    "--dump-pred",
    "--serve",
];

/// The number of flags.
pub const N_FLAGS: usize = 36;

/// Every flag has a name on the list, and every name on the list is that of a flag.
pub proof fn lemma_flag_names(text: Seq<char>)
    ensures
        flag_named(text) is Some <==> exists|k: int| 0 <= k < N_FLAGS && #[trigger] FLAGS@[k]@ == text,
{
    if flag_named(text) is Some {
        assert(exists|k: int| 0 <= k < N_FLAGS && #[trigger] FLAGS@[k]@ == text) by {
            let _ = FLAGS@[0]@;
            let _ = FLAGS@[1]@;
            let _ = FLAGS@[2]@;
            let _ = FLAGS@[3]@;
            let _ = FLAGS@[4]@;
            let _ = FLAGS@[5]@;
            let _ = FLAGS@[6]@;
            let _ = FLAGS@[7]@;
            let _ = FLAGS@[8]@;
            let _ = FLAGS@[9]@;
            let _ = FLAGS@[10]@;
            let _ = FLAGS@[11]@;
            let _ = FLAGS@[12]@;
            let _ = FLAGS@[13]@;
            let _ = FLAGS@[14]@;
            let _ = FLAGS@[15]@;
            let _ = FLAGS@[16]@;
            let _ = FLAGS@[17]@;
            let _ = FLAGS@[18]@;
            let _ = FLAGS@[19]@;
            let _ = FLAGS@[20]@;
            let _ = FLAGS@[21]@;
            let _ = FLAGS@[22]@;
            let _ = FLAGS@[23]@;
            let _ = FLAGS@[24]@;
            let _ = FLAGS@[25]@;
            let _ = FLAGS@[26]@;
            let _ = FLAGS@[27]@;
            let _ = FLAGS@[28]@;
            let _ = FLAGS@[29]@;
            let _ = FLAGS@[30]@;
            let _ = FLAGS@[31]@;
            let _ = FLAGS@[32]@;
            let _ = FLAGS@[33]@;
            let _ = FLAGS@[34]@;
            let _ = FLAGS@[35]@;
        }
    }
}

/// The first `k` lines of the list of flags.
pub open spec fn flag_lines(k: nat) -> Seq<char>
    decreases k,
{
    if k == 0 {
        Seq::empty()
    } else {
        flag_lines((k - 1) as nat) + "\n  "@ + FLAGS@[k - 1]@ + " <value>"@
    }
}

/// How the program is used: flags with values, and which flags there are.
pub open spec fn usage_text() -> Seq<char> {
    "usage: rustwood [<flag> <value>]...\nflags:"@ + flag_lines(N_FLAGS as nat)
}

impl Config {
    /// How the program is used.
    pub fn usage() -> (text: String)
        ensures
            text@ == usage_text(),
    {
        let mut text = "usage: rustwood [<flag> <value>]...\nflags:".to_owned();
        let mut k: usize = 0;
        while k < N_FLAGS
            invariant
                k <= N_FLAGS,
                text@ == "usage: rustwood [<flag> <value>]...\nflags:"@ + flag_lines(k as nat),
            decreases N_FLAGS - k,
        {
            text = text.concat("\n  ").concat(FLAGS[k]).concat(" <value>");
            assert(text@ =~= "usage: rustwood [<flag> <value>]...\nflags:"@ + flag_lines(
                (k + 1) as nat,
            ));
            k = k + 1;
        }
        text
    }
}

impl ConfigError {
    /// What to abort with: the message, and after an unknown flag how the program is used.
    pub fn report(&self) -> (text: String)
        ensures
            text@ == match self.refusal() {
                Refusal::UnknownFlag(flag) => "unknown flag "@ + flag + "\n"@ + usage_text(),
                other => refusal_text(other),
            },
    {
        match self {
            ConfigError::UnknownFlag(flag) => {
                let usage = Config::usage();
                self.message().concat("\n").concat(usage.as_str())
            },
            _ => self.message(),
        }
    }
}

/// A command line that names a flag that there is not, leaves a flag without its value, or
/// gives a flag that takes no number a value that it cannot have.
pub open spec fn unservable(tokens: Seq<Seq<char>>, k: int) -> bool {
    match flag_named(tokens[2 * k]) {
        None => true,
        Some(flag) => 2 * k + 1 >= tokens.len() || (!(flag is Number) && defaults().with_flag(
            flag,
            tokens[2 * k],
            tokens[2 * k + 1],
            None,
        ) is Err),
    }
}

/// A command line with a flag that cannot be served is refused, whatever its numbers are read
/// as, and the flag named where no flag before it is refused.
pub proof fn lemma_unservable_refused(
    tokens: Seq<Seq<char>>,
    numbers: Seq<Option<F32>>,
    k: int,
)
    requires
        0 <= k < flag_count(tokens),
        unservable(tokens, k),
    ensures
        settings_of(tokens, numbers) is Err,
        settings_after(tokens, numbers, k as nat) is Ok && flag_named(tokens[2 * k]) is None
            ==> settings_of(tokens, numbers) == Err::<Settings, Refusal>(
            Refusal::UnknownFlag(tokens[2 * k]),
        ),
        settings_after(tokens, numbers, k as nat) is Ok && flag_named(tokens[2 * k]) is Some && 2
            * k + 1 >= tokens.len() ==> settings_of(tokens, numbers) == Err::<Settings, Refusal>(
            Refusal::MissingValue(tokens[2 * k]),
        ),
{
    assert(settings_after(tokens, numbers, (k + 1) as nat) is Err);
    lemma_refused(tokens, numbers, (k + 1) as nat, flag_count(tokens));
}

} // verus!
