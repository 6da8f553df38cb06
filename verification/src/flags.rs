//! What the flags of the command line change, and what the settings are without them.

use vstd::arithmetic::power2::lemma2_to64;
use vstd::arithmetic::power2::lemma2_to64_rest;
use vstd::arithmetic::power2::pow2;
use vstd::prelude::*;

use crate::config::defaults;
use crate::config::direction_list;
use crate::config::flag_named;
use crate::config::index_list;
use crate::config::settings_after;
use crate::config::switched_on;
use crate::config::Device;
use crate::config::Flag;
use crate::config::NumberFlag;
use crate::config::Objective;
use crate::config::Refusal;
use crate::config::Settings;
use crate::config::SizeFlag;
use crate::config::SwitchFlag;
use crate::config::TextFlag;
use crate::float::F32;
use crate::reals::lemma_constants;
use crate::reals::size_of;
use crate::reals::twos;
use crate::text::count_of;

verus! {

/// How a flag is written.
pub open spec fn name_of(flag: Flag) -> Seq<char> {
    match flag {
        Flag::Text(TextFlag::Data) => "--data"@,
        Flag::Size(SizeFlag::Trees) => "--trees"@,
        Flag::Size(SizeFlag::Depth) => "--depth"@,
        Flag::Number(NumberFlag::LearningRate) => "--lr"@,
        Flag::Size(SizeFlag::Bins) => "--bins"@,
        Flag::Number(NumberFlag::Lambda) => "--lambda"@,
        Flag::Number(NumberFlag::MinChild) => "--min-child"@,
        Flag::Number(NumberFlag::Subsample) => "--subsample"@,
        Flag::Number(NumberFlag::Colsample) => "--colsample"@,
        Flag::Switch(SwitchFlag::UniqueBins) => "--unique-bins"@,
        Flag::Number(NumberFlag::TeSmoothing) => "--te-smoothing"@,
        Flag::CatHashBuckets => "--cat-hash-buckets"@,
        Flag::Switch(SwitchFlag::Subtract) => "--subtract"@,
        Flag::Number(NumberFlag::GossTop) => "--goss-top"@,
        Flag::Number(NumberFlag::GossOther) => "--goss-other"@,
        Flag::Number(NumberFlag::ClampHessian) => "--clamp-hessian"@,
        Flag::Switch(SwitchFlag::Pack4) => "--pack4"@,
        Flag::Switch(SwitchFlag::Pgbm) => "--pgbm"@,
        Flag::Switch(SwitchFlag::SmemHist) => "--smem-hist"@,
        Flag::Switch(SwitchFlag::F16Hist) => "--f16-hist"@,
        Flag::Switch(SwitchFlag::IntHist) => "--int-hist"@,
        Flag::Number(NumberFlag::IntScale) => "--int-scale"@,
        Flag::Monotone => "--monotone"@,
        Flag::Categorical => "--categorical"@,
        Flag::Size(SizeFlag::BinSample) => "--bin-sample"@,
        Flag::Size(SizeFlag::Gpu) => "--gpu"@,
        Flag::Size(SizeFlag::Replicas) => "--replicas"@,
        Flag::Text(TextFlag::ProfileOut) => "--profile-out"@,
        Flag::Switch(SwitchFlag::LatencyBench) => "--latency-bench"@,
        Flag::Switch(SwitchFlag::ThroughputBench) => "--throughput-bench"@,
        Flag::Objective => "--objective"@,
        Flag::Device => "--device"@,
        Flag::Text(TextFlag::SaveModel) => "--save-model"@,
        Flag::Text(TextFlag::LoadModel) => "--load-model"@,
        Flag::Text(TextFlag::DumpPred) => "--dump-pred"@,
        Flag::Switch(SwitchFlag::Serve) => "--serve"@,
    }
}

/// A text is the name of a flag only where the flag is so written, and every flag that is so
/// written is found.
pub proof fn lemma_names(text: Seq<char>, flag: Flag)
    ensures
        flag_named(text) == Some(flag) <==> text == name_of(flag),
{
    if text == name_of(flag) {
        reveal_strlit("--data");
        reveal_strlit("--trees");
        reveal_strlit("--depth");
        reveal_strlit("--lr");
        reveal_strlit("--bins");
        reveal_strlit("--lambda");
        reveal_strlit("--min-child");
        reveal_strlit("--subsample");
        reveal_strlit("--colsample");
        reveal_strlit("--unique-bins");
        reveal_strlit("--te-smoothing");
        reveal_strlit("--cat-hash-buckets");
        reveal_strlit("--subtract");
        reveal_strlit("--goss-top");
        reveal_strlit("--goss-other");
        reveal_strlit("--clamp-hessian");
        reveal_strlit("--pack4");
        reveal_strlit("--pgbm");
        reveal_strlit("--smem-hist");
        reveal_strlit("--f16-hist");
        reveal_strlit("--int-hist");
        reveal_strlit("--int-scale");
        reveal_strlit("--monotone");
        reveal_strlit("--categorical");
        reveal_strlit("--bin-sample");
        reveal_strlit("--gpu");
        reveal_strlit("--replicas");
        reveal_strlit("--profile-out");
        reveal_strlit("--latency-bench");
        reveal_strlit("--throughput-bench");
        reveal_strlit("--objective");
        reveal_strlit("--device");
        reveal_strlit("--save-model");
        reveal_strlit("--load-model");
        reveal_strlit("--dump-pred");
        reveal_strlit("--serve");
        assert("--data"@ != "--bins"@) by {
            assert("--data"@[2] != "--bins"@[2]);
        }
        assert("--data"@ != "--pgbm"@) by {
            assert("--data"@[2] != "--pgbm"@[2]);
        }
        assert("--bins"@ != "--pgbm"@) by {
            assert("--bins"@[2] != "--pgbm"@[2]);
        }
        assert("--trees"@ != "--depth"@) by {
            assert("--trees"@[2] != "--depth"@[2]);
        }
        assert("--trees"@ != "--pack4"@) by {
            assert("--trees"@[2] != "--pack4"@[2]);
        }
        assert("--trees"@ != "--serve"@) by {
            assert("--trees"@[2] != "--serve"@[2]);
        }
        assert("--depth"@ != "--pack4"@) by {
            assert("--depth"@[2] != "--pack4"@[2]);
        }
        assert("--depth"@ != "--serve"@) by {
            assert("--depth"@[2] != "--serve"@[2]);
        }
        assert("--pack4"@ != "--serve"@) by {
            assert("--pack4"@[2] != "--serve"@[2]);
        }
        assert("--lambda"@ != "--device"@) by {
            assert("--lambda"@[2] != "--device"@[2]);
        }
        assert("--subtract"@ != "--goss-top"@) by {
            assert("--subtract"@[2] != "--goss-top"@[2]);
        }
        assert("--subtract"@ != "--f16-hist"@) by {
            assert("--subtract"@[2] != "--f16-hist"@[2]);
        }
        assert("--subtract"@ != "--int-hist"@) by {
            assert("--subtract"@[2] != "--int-hist"@[2]);
        }
        assert("--subtract"@ != "--monotone"@) by {
            assert("--subtract"@[2] != "--monotone"@[2]);
        }
        assert("--subtract"@ != "--replicas"@) by {
            assert("--subtract"@[2] != "--replicas"@[2]);
        }
        assert("--goss-top"@ != "--f16-hist"@) by {
            assert("--goss-top"@[2] != "--f16-hist"@[2]);
        }
        assert("--goss-top"@ != "--int-hist"@) by {
            assert("--goss-top"@[2] != "--int-hist"@[2]);
        }
        assert("--goss-top"@ != "--monotone"@) by {
            assert("--goss-top"@[2] != "--monotone"@[2]);
        }
        assert("--goss-top"@ != "--replicas"@) by {
            assert("--goss-top"@[2] != "--replicas"@[2]);
        }
        assert("--f16-hist"@ != "--int-hist"@) by {
            assert("--f16-hist"@[2] != "--int-hist"@[2]);
        }
        assert("--f16-hist"@ != "--monotone"@) by {
            assert("--f16-hist"@[2] != "--monotone"@[2]);
        }
        assert("--f16-hist"@ != "--replicas"@) by {
            assert("--f16-hist"@[2] != "--replicas"@[2]);
        }
        assert("--int-hist"@ != "--monotone"@) by {
            assert("--int-hist"@[2] != "--monotone"@[2]);
        }
        assert("--int-hist"@ != "--replicas"@) by {
            assert("--int-hist"@[2] != "--replicas"@[2]);
        }
        assert("--monotone"@ != "--replicas"@) by {
            assert("--monotone"@[2] != "--replicas"@[2]);
        }
        assert("--min-child"@ != "--subsample"@) by {
            assert("--min-child"@[2] != "--subsample"@[2]);
        }
        assert("--min-child"@ != "--colsample"@) by {
            assert("--min-child"@[2] != "--colsample"@[2]);
        }
        assert("--min-child"@ != "--smem-hist"@) by {
            assert("--min-child"@[2] != "--smem-hist"@[2]);
        }
        assert("--min-child"@ != "--int-scale"@) by {
            assert("--min-child"@[2] != "--int-scale"@[2]);
        }
        assert("--min-child"@ != "--objective"@) by {
            assert("--min-child"@[2] != "--objective"@[2]);
        }
        assert("--min-child"@ != "--dump-pred"@) by {
            assert("--min-child"@[2] != "--dump-pred"@[2]);
        }
        assert("--subsample"@ != "--colsample"@) by {
            assert("--subsample"@[2] != "--colsample"@[2]);
        }
        assert("--subsample"@ != "--smem-hist"@) by {
            assert("--subsample"@[3] != "--smem-hist"@[3]);
        }
        assert("--subsample"@ != "--int-scale"@) by {
            assert("--subsample"@[2] != "--int-scale"@[2]);
        }
        assert("--subsample"@ != "--objective"@) by {
            assert("--subsample"@[2] != "--objective"@[2]);
        }
        assert("--subsample"@ != "--dump-pred"@) by {
            assert("--subsample"@[2] != "--dump-pred"@[2]);
        }
        assert("--colsample"@ != "--smem-hist"@) by {
            assert("--colsample"@[2] != "--smem-hist"@[2]);
        }
        assert("--colsample"@ != "--int-scale"@) by {
            assert("--colsample"@[2] != "--int-scale"@[2]);
        }
        assert("--colsample"@ != "--objective"@) by {
            assert("--colsample"@[2] != "--objective"@[2]);
        }
        assert("--colsample"@ != "--dump-pred"@) by {
            assert("--colsample"@[2] != "--dump-pred"@[2]);
        }
        assert("--smem-hist"@ != "--int-scale"@) by {
            assert("--smem-hist"@[2] != "--int-scale"@[2]);
        }
        assert("--smem-hist"@ != "--objective"@) by {
            assert("--smem-hist"@[2] != "--objective"@[2]);
        }
        assert("--smem-hist"@ != "--dump-pred"@) by {
            assert("--smem-hist"@[2] != "--dump-pred"@[2]);
        }
        assert("--int-scale"@ != "--objective"@) by {
            assert("--int-scale"@[2] != "--objective"@[2]);
        }
        assert("--int-scale"@ != "--dump-pred"@) by {
            assert("--int-scale"@[2] != "--dump-pred"@[2]);
        }
        assert("--objective"@ != "--dump-pred"@) by {
            assert("--objective"@[2] != "--dump-pred"@[2]);
        }
        assert("--goss-other"@ != "--bin-sample"@) by {
            assert("--goss-other"@[2] != "--bin-sample"@[2]);
        }
        assert("--goss-other"@ != "--save-model"@) by {
            assert("--goss-other"@[2] != "--save-model"@[2]);
        }
        assert("--goss-other"@ != "--load-model"@) by {
            assert("--goss-other"@[2] != "--load-model"@[2]);
        }
        assert("--bin-sample"@ != "--save-model"@) by {
            assert("--bin-sample"@[2] != "--save-model"@[2]);
        }
        assert("--bin-sample"@ != "--load-model"@) by {
            assert("--bin-sample"@[2] != "--load-model"@[2]);
        }
        assert("--save-model"@ != "--load-model"@) by {
            assert("--save-model"@[2] != "--load-model"@[2]);
        }
        assert("--unique-bins"@ != "--categorical"@) by {
            assert("--unique-bins"@[2] != "--categorical"@[2]);
        }
        assert("--unique-bins"@ != "--profile-out"@) by {
            assert("--unique-bins"@[2] != "--profile-out"@[2]);
        }
        assert("--categorical"@ != "--profile-out"@) by {
            assert("--categorical"@[2] != "--profile-out"@[2]);
        }
        assert("--clamp-hessian"@ != "--latency-bench"@) by {
            assert("--clamp-hessian"@[2] != "--latency-bench"@[2]);
        }
        assert("--cat-hash-buckets"@ != "--throughput-bench"@) by {
            assert("--cat-hash-buckets"@[2] != "--throughput-bench"@[2]);
        }
        assert("--data"@.len() == 6);
        assert("--trees"@.len() == 7);
        assert("--depth"@.len() == 7);
        assert("--lr"@.len() == 4);
        assert("--bins"@.len() == 6);
        assert("--lambda"@.len() == 8);
        assert("--min-child"@.len() == 11);
        assert("--subsample"@.len() == 11);
        assert("--colsample"@.len() == 11);
        assert("--unique-bins"@.len() == 13);
        assert("--te-smoothing"@.len() == 14);
        assert("--cat-hash-buckets"@.len() == 18);
        assert("--subtract"@.len() == 10);
        assert("--goss-top"@.len() == 10);
        assert("--goss-other"@.len() == 12);
        assert("--clamp-hessian"@.len() == 15);
        assert("--pack4"@.len() == 7);
        assert("--pgbm"@.len() == 6);
        assert("--smem-hist"@.len() == 11);
        assert("--f16-hist"@.len() == 10);
        assert("--int-hist"@.len() == 10);
        assert("--int-scale"@.len() == 11);
        assert("--monotone"@.len() == 10);
        assert("--categorical"@.len() == 13);
        assert("--bin-sample"@.len() == 12);
        assert("--gpu"@.len() == 5);
        assert("--replicas"@.len() == 10);
        assert("--profile-out"@.len() == 13);
        assert("--latency-bench"@.len() == 15);
        assert("--throughput-bench"@.len() == 18);
        assert("--objective"@.len() == 11);
        assert("--device"@.len() == 8);
        assert("--save-model"@.len() == 12);
        assert("--load-model"@.len() == 12);
        assert("--dump-pred"@.len() == 11);
        assert("--serve"@.len() == 7);
        assert(flag_named("--data"@) == Some(Flag::Text(TextFlag::Data)));
        assert(flag_named("--trees"@) == Some(Flag::Size(SizeFlag::Trees)));
        assert(flag_named("--depth"@) == Some(Flag::Size(SizeFlag::Depth)));
        assert(flag_named("--lr"@) == Some(Flag::Number(NumberFlag::LearningRate)));
        assert(flag_named("--bins"@) == Some(Flag::Size(SizeFlag::Bins)));
        assert(flag_named("--lambda"@) == Some(Flag::Number(NumberFlag::Lambda)));
        assert(flag_named("--min-child"@) == Some(Flag::Number(NumberFlag::MinChild)));
        assert(flag_named("--subsample"@) == Some(Flag::Number(NumberFlag::Subsample)));
        assert(flag_named("--colsample"@) == Some(Flag::Number(NumberFlag::Colsample)));
        assert(flag_named("--unique-bins"@) == Some(Flag::Switch(SwitchFlag::UniqueBins)));
        assert(flag_named("--te-smoothing"@) == Some(Flag::Number(NumberFlag::TeSmoothing)));
        assert(flag_named("--cat-hash-buckets"@) == Some(Flag::CatHashBuckets));
        assert(flag_named("--subtract"@) == Some(Flag::Switch(SwitchFlag::Subtract)));
        assert(flag_named("--goss-top"@) == Some(Flag::Number(NumberFlag::GossTop)));
        assert(flag_named("--goss-other"@) == Some(Flag::Number(NumberFlag::GossOther)));
        assert(flag_named("--clamp-hessian"@) == Some(Flag::Number(NumberFlag::ClampHessian)));
        assert(flag_named("--pack4"@) == Some(Flag::Switch(SwitchFlag::Pack4)));
        assert(flag_named("--pgbm"@) == Some(Flag::Switch(SwitchFlag::Pgbm)));
        assert(flag_named("--smem-hist"@) == Some(Flag::Switch(SwitchFlag::SmemHist)));
        assert(flag_named("--f16-hist"@) == Some(Flag::Switch(SwitchFlag::F16Hist)));
        assert(flag_named("--int-hist"@) == Some(Flag::Switch(SwitchFlag::IntHist)));
        assert(flag_named("--int-scale"@) == Some(Flag::Number(NumberFlag::IntScale)));
        assert(flag_named("--monotone"@) == Some(Flag::Monotone));
        assert(flag_named("--categorical"@) == Some(Flag::Categorical));
        assert(flag_named("--bin-sample"@) == Some(Flag::Size(SizeFlag::BinSample)));
        assert(flag_named("--gpu"@) == Some(Flag::Size(SizeFlag::Gpu)));
        assert(flag_named("--replicas"@) == Some(Flag::Size(SizeFlag::Replicas)));
        assert(flag_named("--profile-out"@) == Some(Flag::Text(TextFlag::ProfileOut)));
        assert(flag_named("--latency-bench"@) == Some(Flag::Switch(SwitchFlag::LatencyBench)));
        assert(flag_named("--throughput-bench"@) == Some(Flag::Switch(SwitchFlag::ThroughputBench)));
        assert(flag_named("--objective"@) == Some(Flag::Objective));
        assert(flag_named("--device"@) == Some(Flag::Device));
        assert(flag_named("--save-model"@) == Some(Flag::Text(TextFlag::SaveModel)));
        assert(flag_named("--load-model"@) == Some(Flag::Text(TextFlag::LoadModel)));
        assert(flag_named("--dump-pred"@) == Some(Flag::Text(TextFlag::DumpPred)));
        assert(flag_named("--serve"@) == Some(Flag::Switch(SwitchFlag::Serve)));
    }
}

/// The flag `k` of a command line and its value are taken: the settings before and after it.
pub open spec fn taken(
    tokens: Seq<Seq<char>>,
    numbers: Seq<Option<F32>>,
    k: int,
    before: Settings,
    after: Settings,
) -> bool {
    &&& 0 <= k && 2 * k + 1 < tokens.len()
    &&& settings_after(tokens, numbers, k as nat) == Ok::<Settings, Refusal>(before)
    &&& settings_after(tokens, numbers, (k + 1) as nat) == Ok::<Settings, Refusal>(after)
}

/// The flag that is taken, by its name, and what it does to the settings.
proof fn lemma_taken(
    tokens: Seq<Seq<char>>,
    numbers: Seq<Option<F32>>,
    k: int,
    before: Settings,
    after: Settings,
) -> (flag: Flag)
    requires
        taken(tokens, numbers, k, before, after),
    ensures
        tokens[2 * k] == name_of(flag),
        before.with_flag(flag, tokens[2 * k], tokens[2 * k + 1], numbers[k]) == Ok::<
            Settings,
            Refusal,
        >(after),
        flag_named(tokens[2 * k]) == Some(flag),
{
    let text = tokens[2 * k];
    assert(2 * (k + 1) - 2 == 2 * k && 2 * (k + 1) - 1 == 2 * k + 1);
    let flag = flag_named(text)->Some_0;
    lemma_names(text, flag);
    flag
}

/// A value that switches something on.
pub open spec fn means_on(value: Seq<char>) -> bool {
    value == "1"@ || value == "true"@
}

/// A switch is set by its flag alone.
proof fn lemma_switch_fields(s: Settings, flag: SwitchFlag, value: bool)
    ensures
        ({
            let after = s.with_switch(flag, value);
            &&& after.unique_bins == if flag == SwitchFlag::UniqueBins {
                value
            } else {
                s.unique_bins
            }
            &&& after.subtract == if flag == SwitchFlag::Subtract {
                value
            } else {
                s.subtract
            }
            &&& after.pack4 == if flag == SwitchFlag::Pack4 {
                value
            } else {
                s.pack4
            }
            &&& after.pgbm == if flag == SwitchFlag::Pgbm {
                value
            } else {
                s.pgbm
            }
            &&& after.smem_hist == if flag == SwitchFlag::SmemHist {
                value
            } else {
                s.smem_hist
            }
            &&& after.f16_hist == if flag == SwitchFlag::F16Hist {
                value
            } else {
                s.f16_hist
            }
            &&& after.int_hist == if flag == SwitchFlag::IntHist {
                value
            } else {
                s.int_hist
            }
            &&& after.latency_bench == if flag == SwitchFlag::LatencyBench {
                value
            } else {
                s.latency_bench
            }
            &&& after.throughput_bench == if flag == SwitchFlag::ThroughputBench {
                value
            } else {
                s.throughput_bench
            }
            &&& after.serve == if flag == SwitchFlag::Serve {
                value
            } else {
                s.serve
            }
        }),
{
}

/// No other flag sets a switch.
proof fn lemma_switches_kept(s: Settings, flag: Flag, text: Seq<char>, value: Seq<char>, number: Option<F32>)
    requires
        !(flag is Switch),
        s.with_flag(flag, text, value, number) is Ok,
    ensures
        ({
            let after = s.with_flag(flag, text, value, number)->Ok_0;
            &&& after.unique_bins == s.unique_bins
            &&& after.subtract == s.subtract
            &&& after.pack4 == s.pack4
            &&& after.pgbm == s.pgbm
            &&& after.smem_hist == s.smem_hist
            &&& after.f16_hist == s.f16_hist
            &&& after.int_hist == s.int_hist
            &&& after.latency_bench == s.latency_bench
            &&& after.throughput_bench == s.throughput_bench
            &&& after.serve == s.serve
        }),
{
}

/// A directory or file is set by the flag that bears its name, to the value as it stands, and by no
/// other flag.
pub proof fn lemma_only_texts(
    tokens: Seq<Seq<char>>,
    numbers: Seq<Option<F32>>,
    k: int,
    before: Settings,
    after: Settings,
)
    requires
        taken(tokens, numbers, k, before, after),
    ensures
        tokens[2 * k] == "--data"@ ==> after.data_dir == tokens[2 * k + 1],
        tokens[2 * k] != "--data"@ ==> after.data_dir == before.data_dir,
        tokens[2 * k] == "--profile-out"@ ==> after.profile_out == tokens[2 * k + 1],
        tokens[2 * k] != "--profile-out"@ ==> after.profile_out == before.profile_out,
        tokens[2 * k] == "--save-model"@ ==> after.save_model == tokens[2 * k + 1],
        tokens[2 * k] != "--save-model"@ ==> after.save_model == before.save_model,
        tokens[2 * k] == "--load-model"@ ==> after.load_model == tokens[2 * k + 1],
        tokens[2 * k] != "--load-model"@ ==> after.load_model == before.load_model,
        tokens[2 * k] == "--dump-pred"@ ==> after.dump_pred == tokens[2 * k + 1],
        tokens[2 * k] != "--dump-pred"@ ==> after.dump_pred == before.dump_pred,
{
    let flag = lemma_taken(tokens, numbers, k, before, after);
    lemma_names(tokens[2 * k], Flag::Text(TextFlag::Data));
    lemma_names(tokens[2 * k], Flag::Text(TextFlag::ProfileOut));
    lemma_names(tokens[2 * k], Flag::Text(TextFlag::SaveModel));
    lemma_names(tokens[2 * k], Flag::Text(TextFlag::LoadModel));
    lemma_names(tokens[2 * k], Flag::Text(TextFlag::DumpPred));
    match flag {
        Flag::Text(f) => {
            assert(after == before.with_text(f, tokens[2 * k + 1]));
        },
        _ => {},
    }
}

/// A count is set by the flag that bears its name, to the count that the value stands for, and by
/// no other flag.
pub proof fn lemma_only_sizes(
    tokens: Seq<Seq<char>>,
    numbers: Seq<Option<F32>>,
    k: int,
    before: Settings,
    after: Settings,
)
    requires
        taken(tokens, numbers, k, before, after),
    ensures
        tokens[2 * k] == "--trees"@ ==> count_of(tokens[2 * k + 1]) == Some(after.n_trees as nat),
        tokens[2 * k] != "--trees"@ ==> after.n_trees == before.n_trees,
        tokens[2 * k] == "--depth"@ ==> count_of(tokens[2 * k + 1]) == Some(after.depth as nat),
        tokens[2 * k] != "--depth"@ ==> after.depth == before.depth,
        tokens[2 * k] == "--bins"@ ==> count_of(tokens[2 * k + 1]) == Some(after.n_bins as nat),
        tokens[2 * k] != "--bins"@ ==> after.n_bins == before.n_bins,
        tokens[2 * k] == "--bin-sample"@ ==> count_of(tokens[2 * k + 1]) == Some(after.bin_sample as nat),
        tokens[2 * k] != "--bin-sample"@ ==> after.bin_sample == before.bin_sample,
        tokens[2 * k] == "--gpu"@ ==> count_of(tokens[2 * k + 1]) == Some(after.gpu as nat),
        tokens[2 * k] != "--gpu"@ ==> after.gpu == before.gpu,
        tokens[2 * k] == "--replicas"@ ==> count_of(tokens[2 * k + 1]) == Some(after.replicas as nat),
        tokens[2 * k] != "--replicas"@ ==> after.replicas == before.replicas,
{
    let flag = lemma_taken(tokens, numbers, k, before, after);
    lemma_names(tokens[2 * k], Flag::Size(SizeFlag::Trees));
    lemma_names(tokens[2 * k], Flag::Size(SizeFlag::Depth));
    lemma_names(tokens[2 * k], Flag::Size(SizeFlag::Bins));
    lemma_names(tokens[2 * k], Flag::Size(SizeFlag::BinSample));
    lemma_names(tokens[2 * k], Flag::Size(SizeFlag::Gpu));
    lemma_names(tokens[2 * k], Flag::Size(SizeFlag::Replicas));
}

/// A number is set by the flag that bears its name, to what the value is read as, and by no other
/// flag.
pub proof fn lemma_only_numbers(
    tokens: Seq<Seq<char>>,
    numbers: Seq<Option<F32>>,
    k: int,
    before: Settings,
    after: Settings,
)
    requires
        taken(tokens, numbers, k, before, after),
    ensures
        tokens[2 * k] == "--lr"@ ==> numbers[k] == Some(after.learning_rate),
        tokens[2 * k] != "--lr"@ ==> after.learning_rate == before.learning_rate,
        tokens[2 * k] == "--lambda"@ ==> numbers[k] == Some(after.lambda),
        tokens[2 * k] != "--lambda"@ ==> after.lambda == before.lambda,
        tokens[2 * k] == "--min-child"@ ==> numbers[k] == Some(after.min_child_h),
        tokens[2 * k] != "--min-child"@ ==> after.min_child_h == before.min_child_h,
        tokens[2 * k] == "--subsample"@ ==> numbers[k] == Some(after.subsample),
        tokens[2 * k] != "--subsample"@ ==> after.subsample == before.subsample,
        tokens[2 * k] == "--colsample"@ ==> numbers[k] == Some(after.colsample),
        tokens[2 * k] != "--colsample"@ ==> after.colsample == before.colsample,
        tokens[2 * k] == "--te-smoothing"@ ==> numbers[k] == Some(after.te_smoothing),
        tokens[2 * k] != "--te-smoothing"@ ==> after.te_smoothing == before.te_smoothing,
        tokens[2 * k] == "--goss-top"@ ==> numbers[k] == Some(after.goss_top),
        tokens[2 * k] != "--goss-top"@ ==> after.goss_top == before.goss_top,
        tokens[2 * k] == "--goss-other"@ ==> numbers[k] == Some(after.goss_other),
        tokens[2 * k] != "--goss-other"@ ==> after.goss_other == before.goss_other,
        tokens[2 * k] == "--clamp-hessian"@ ==> numbers[k] == Some(after.clamp_hessian),
        tokens[2 * k] != "--clamp-hessian"@ ==> after.clamp_hessian == before.clamp_hessian,
        tokens[2 * k] == "--int-scale"@ ==> numbers[k] == Some(after.int_scale),
        tokens[2 * k] != "--int-scale"@ ==> after.int_scale == before.int_scale,
{
    let flag = lemma_taken(tokens, numbers, k, before, after);
    lemma_names(tokens[2 * k], Flag::Number(NumberFlag::LearningRate));
    lemma_names(tokens[2 * k], Flag::Number(NumberFlag::Lambda));
    lemma_names(tokens[2 * k], Flag::Number(NumberFlag::MinChild));
    lemma_names(tokens[2 * k], Flag::Number(NumberFlag::Subsample));
    lemma_names(tokens[2 * k], Flag::Number(NumberFlag::Colsample));
    lemma_names(tokens[2 * k], Flag::Number(NumberFlag::TeSmoothing));
    lemma_names(tokens[2 * k], Flag::Number(NumberFlag::GossTop));
    lemma_names(tokens[2 * k], Flag::Number(NumberFlag::GossOther));
    lemma_names(tokens[2 * k], Flag::Number(NumberFlag::ClampHessian));
    lemma_names(tokens[2 * k], Flag::Number(NumberFlag::IntScale));
}

/// A switch is set by the flag that bears its name, on for `1` and `true` and off for everything
/// else, and by no other flag.
pub proof fn lemma_only_switches(
    tokens: Seq<Seq<char>>,
    numbers: Seq<Option<F32>>,
    k: int,
    before: Settings,
    after: Settings,
)
    requires
        taken(tokens, numbers, k, before, after),
    ensures
        tokens[2 * k] == "--unique-bins"@ ==> after.unique_bins == means_on(tokens[2 * k + 1]),
        tokens[2 * k] != "--unique-bins"@ ==> after.unique_bins == before.unique_bins,
        tokens[2 * k] == "--subtract"@ ==> after.subtract == means_on(tokens[2 * k + 1]),
        tokens[2 * k] != "--subtract"@ ==> after.subtract == before.subtract,
        tokens[2 * k] == "--pack4"@ ==> after.pack4 == means_on(tokens[2 * k + 1]),
        tokens[2 * k] != "--pack4"@ ==> after.pack4 == before.pack4,
        tokens[2 * k] == "--pgbm"@ ==> after.pgbm == means_on(tokens[2 * k + 1]),
        tokens[2 * k] != "--pgbm"@ ==> after.pgbm == before.pgbm,
        tokens[2 * k] == "--smem-hist"@ ==> after.smem_hist == means_on(tokens[2 * k + 1]),
        tokens[2 * k] != "--smem-hist"@ ==> after.smem_hist == before.smem_hist,
        tokens[2 * k] == "--f16-hist"@ ==> after.f16_hist == means_on(tokens[2 * k + 1]),
        tokens[2 * k] != "--f16-hist"@ ==> after.f16_hist == before.f16_hist,
        tokens[2 * k] == "--int-hist"@ ==> after.int_hist == means_on(tokens[2 * k + 1]),
        tokens[2 * k] != "--int-hist"@ ==> after.int_hist == before.int_hist,
        tokens[2 * k] == "--latency-bench"@ ==> after.latency_bench == means_on(tokens[2 * k + 1]),
        tokens[2 * k] != "--latency-bench"@ ==> after.latency_bench == before.latency_bench,
        tokens[2 * k] == "--throughput-bench"@ ==> after.throughput_bench == means_on(tokens[2 * k + 1]),
        tokens[2 * k] != "--throughput-bench"@ ==> after.throughput_bench == before.throughput_bench,
        tokens[2 * k] == "--serve"@ ==> after.serve == means_on(tokens[2 * k + 1]),
        tokens[2 * k] != "--serve"@ ==> after.serve == before.serve,
{
    let flag = lemma_taken(tokens, numbers, k, before, after);
    lemma_names(tokens[2 * k], Flag::Switch(SwitchFlag::UniqueBins));
    lemma_names(tokens[2 * k], Flag::Switch(SwitchFlag::Subtract));
    lemma_names(tokens[2 * k], Flag::Switch(SwitchFlag::Pack4));
    lemma_names(tokens[2 * k], Flag::Switch(SwitchFlag::Pgbm));
    lemma_names(tokens[2 * k], Flag::Switch(SwitchFlag::SmemHist));
    lemma_names(tokens[2 * k], Flag::Switch(SwitchFlag::F16Hist));
    lemma_names(tokens[2 * k], Flag::Switch(SwitchFlag::IntHist));
    lemma_names(tokens[2 * k], Flag::Switch(SwitchFlag::LatencyBench));
    lemma_names(tokens[2 * k], Flag::Switch(SwitchFlag::ThroughputBench));
    lemma_names(tokens[2 * k], Flag::Switch(SwitchFlag::Serve));
    match flag {
        Flag::Switch(f) => {
            assert(means_on(tokens[2 * k + 1]) == switched_on(tokens[2 * k + 1]));
            lemma_switch_fields(before, f, means_on(tokens[2 * k + 1]));
        },
        _ => {
            lemma_switches_kept(before, flag, tokens[2 * k], tokens[2 * k + 1], numbers[k]);
        },
    }
}

/// The other settings are set each by the flag that bears its name, and by no other flag.
pub proof fn lemma_only_lists(
    tokens: Seq<Seq<char>>,
    numbers: Seq<Option<F32>>,
    k: int,
    before: Settings,
    after: Settings,
)
    requires
        taken(tokens, numbers, k, before, after),
    ensures
        tokens[2 * k] == "--cat-hash-buckets"@ ==> count_of(tokens[2 * k + 1]) == Some(
            after.cat_hash_buckets as nat,
        ),
        tokens[2 * k] == "--monotone"@ ==> direction_list(tokens[2 * k + 1]) == Some(
            after.monotone,
        ),
        tokens[2 * k] == "--categorical"@ ==> index_list(tokens[2 * k + 1]) == Some(
            after.categorical,
        ),
        tokens[2 * k] == "--objective"@ && after.objective == Objective::Logistic
            ==> tokens[2 * k + 1] == "logistic"@ || tokens[2 * k + 1] == "binary"@,
        tokens[2 * k] == "--objective"@ && after.objective == Objective::SquaredError
            ==> tokens[2 * k + 1] == "l2"@ || tokens[2 * k + 1] == "rmse"@ || tokens[2 * k + 1]
            == "reg"@,
        tokens[2 * k] == "--device"@ && after.device == Device::Cpu ==> tokens[2 * k + 1]
            == "cpu"@,
        tokens[2 * k] == "--device"@ && after.device == Device::Gpu ==> tokens[2 * k + 1]
            == "gpu"@,
        tokens[2 * k] != "--cat-hash-buckets"@ ==> after.cat_hash_buckets == before.cat_hash_buckets,
        tokens[2 * k] != "--monotone"@ ==> after.monotone == before.monotone,
        tokens[2 * k] != "--categorical"@ ==> after.categorical == before.categorical,
        tokens[2 * k] != "--objective"@ ==> after.objective == before.objective,
        tokens[2 * k] != "--device"@ ==> after.device == before.device,
{
    let flag = lemma_taken(tokens, numbers, k, before, after);
    lemma_names(tokens[2 * k], Flag::CatHashBuckets);
    lemma_names(tokens[2 * k], Flag::Monotone);
    lemma_names(tokens[2 * k], Flag::Categorical);
    lemma_names(tokens[2 * k], Flag::Objective);
    lemma_names(tokens[2 * k], Flag::Device);
}

/// What the numbers are where no flag says otherwise, to within the last place that can be
/// written.
pub proof fn lemma_default_numbers()
    ensures
        ({
            let d = defaults();
            &&& d.learning_rate.finite()
            &&& -1real <= (d.learning_rate.amount() * 10real - 1real) * 10000000real <= 1real
            &&& d.goss_other == d.learning_rate
            &&& d.min_child_h.finite()
            &&& -1real <= (d.min_child_h.amount() * 1000real - 1real) * 10000000real <= 1real
            &&& d.lambda.means(1real)
            &&& d.subsample.means(1real)
            &&& d.colsample.means(1real)
            &&& d.te_smoothing.means(10real)
            &&& d.goss_top.means(0real)
            &&& d.clamp_hessian.means(0real)
            &&& d.int_scale.means(16384real)
        }),
{
    lemma2_to64();
    lemma2_to64_rest();
    lemma_constants();
    let a = defaults().learning_rate.magnitude();
    assert(a / 0x80_0000 == 123 && a % 0x80_0000 == 0x4C_CCCD);
    assert(pow2(27) == 0x800_0000);
    assert(twos(-27) == 1real / (0x800_0000int as real));
    assert(size_of(a, 0x80_0000, -149) == (0xCC_CCCDint as real) * twos(-27));
    let b = defaults().min_child_h.magnitude();
    assert(b / 0x80_0000 == 117 && b % 0x80_0000 == 0x03_126F);
    assert(pow2(33) == 0x2_0000_0000);
    assert(twos(-33) == 1real / (0x2_0000_0000int as real));
    assert(size_of(b, 0x80_0000, -149) == (0x83_126Fint as real) * twos(-33));
    let c = defaults().te_smoothing.magnitude();
    assert(c / 0x80_0000 == 130 && c % 0x80_0000 == 0x20_0000);
    assert(pow2(20) == 0x10_0000);
    assert(twos(-20) == 1real / (0x10_0000int as real));
    assert(size_of(c, 0x80_0000, -149) == (0xA0_0000int as real) * twos(-20));
    let e = defaults().int_scale.magnitude();
    assert(e / 0x80_0000 == 141 && e % 0x80_0000 == 0);
    assert(pow2(9) == 0x200);
    assert(twos(-9) == 1real / (0x200int as real));
    assert(size_of(e, 0x80_0000, -149) == (0x80_0000int as real) * twos(-9));
}

} // verus!
