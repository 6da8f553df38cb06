//! Performing launches on buffers in host memory.

use vstd::arithmetic::power2::lemma2_to64;
use vstd::arithmetic::power2::lemma_pow2_strictly_increases;
use vstd::arithmetic::power2::lemma_pow2_unfold;
use vstd::arithmetic::power2::pow2;
use vstd::prelude::*;

use crate::arith::deterministic;
use crate::arith::Arith;
use crate::float::F16;
use crate::float::F32;
use crate::float::MILLIONTH32;
use crate::forest::leaf_count;
use crate::gpu::acc::Accum;
use crate::gpu::hist::build_hist;
use crate::gpu::hist::build_hist_f16;
use crate::gpu::hist::build_hist_int;
use crate::gpu::hist::build_hist_smem;
use crate::gpu::hist::lemma_groups;
use crate::gpu::hist::reduce1;
use crate::gpu::hist::reduce2;
use crate::gpu::hist::reduce2_f16to32;
use crate::gpu::hist::reduce2_int_to_f32;
use crate::gpu::hist::subtract_even;
use crate::gpu::leaf::compute_leaf_values;
use crate::gpu::leaf::leaf_hist;
use crate::gpu::leaf::update_pred;
use crate::gpu::machine::between_trees;
use crate::gpu::machine::lemma_plan_sound;
use crate::gpu::machine::may_come;
use crate::gpu::machine::next_stage;
use crate::gpu::machine::run;
use crate::gpu::machine::sound;
use crate::gpu::machine::stage_after;
use crate::gpu::machine::step;
use crate::gpu::machine::HalfState;
use crate::gpu::machine::LeafState;
use crate::gpu::machine::Machine;
use crate::gpu::machine::PairState;
use crate::gpu::machine::PickState;
use crate::gpu::machine::RowState;
use crate::gpu::machine::Stage;
use crate::gpu::machine::Task;
use crate::gpu::machine::WholeState;
use crate::gpu::plan::lemma_level_sizes;
use crate::gpu::plan::Launch;
use crate::gpu::plan::Shape;
use crate::gpu::plan::Side;
use crate::gpu::rows::apply_split;
use crate::gpu::rows::goss_apply;
use crate::gpu::rows::goss_stats;
use crate::gpu::rows::goss_thresh;
use crate::gpu::rows::grad_l2;
use crate::gpu::rows::grad_logistic;
use crate::gpu::rows::hess_clamp;
use crate::gpu::rows::hess_stats;
use crate::gpu::rows::zero2_f16;
use crate::gpu::rows::zero2_f32;
use crate::gpu::rows::zero2_i32;
use crate::gpu::rows::zero_f32;
use crate::gpu::rows::zero_u32;
use crate::gpu::split::argmax_split;
use crate::gpu::split::split_gain;
use crate::gpu::split::NO_GAIN32;

verus! {

/// What does not change during a run: the binned rows, their labels, and the settings.
pub struct Job {
    pub shape: Shape,
    /// The bins, feature by feature.
    pub bins: Vec<u8>,
    /// Two bins share a byte.
    pub packed: bool,
    /// The number of bytes of a feature.
    pub stride: u32,
    pub y: Vec<F32>,
    pub bounds: Vec<F32>,
    pub monotone: Vec<i32>,
    /// The score that all rows start from.
    pub base: F32,
    pub lambda: F32,
    pub lr: F32,
    pub min_child: F32,
    pub colsample: F32,
    pub subsample: F32,
    pub int_scale: F32,
    pub inv_scale: F32,
    /// How many standard deviations hessians may be off their mean.
    pub clamp_z: F32,
    pub goss_q: F32,
    pub amplify: F32,
    pub other_rate: F32,
}

impl View for Job {
    type V = Task;

    open spec fn view(&self) -> Task {
        Task {
            shape: self.shape,
            bins: self.bins@,
            packed: self.packed,
            stride: self.stride,
            y: self.y@,
            bounds: self.bounds@,
            monotone: self.monotone@,
            base: self.base,
            lambda: self.lambda,
            lr: self.lr,
            min_child: self.min_child,
            colsample: self.colsample,
            subsample: self.subsample,
            int_scale: self.int_scale,
            inv_scale: self.inv_scale,
            clamp_z: self.clamp_z,
            goss_q: self.goss_q,
            amplify: self.amplify,
            other_rate: self.other_rate,
        }
    }
}

/// The buffers with one place per row, and the statistics over them.
pub struct Rows {
    pub pred: Vec<F32>,
    pub g: Vec<F32>,
    pub h: Vec<F32>,
    pub leaf: Vec<u32>,
    pub stats: Vec<F32>,
    pub thresh: Vec<F32>,
}

/// A pair of histograms.
pub struct Pair {
    pub g: Vec<F32>,
    pub h: Vec<F32>,
}

/// A pair of histograms in half precision.
pub struct Half {
    pub g: Vec<F16>,
    pub h: Vec<F16>,
}

/// A pair of integer histograms.
pub struct Whole {
    pub g: Vec<i32>,
    pub h: Vec<i32>,
}

/// The buffers that splits are chosen in.
pub struct Pick {
    pub gains: Vec<F32>,
    pub split_ft: Vec<u32>,
    pub feat: Vec<u32>,
    pub thr: Vec<F32>,
    pub fi_gain: Vec<F32>,
    pub fi_count: Vec<F32>,
}

/// The buffers that leaf values are computed in.
pub struct Leaves {
    pub g: Vec<F32>,
    pub h: Vec<F32>,
    pub g2: Vec<F32>,
    pub val: Vec<F32>,
    pub var: Vec<F32>,
}

/// All buffers of a run.
pub struct Buffers {
    pub rows: Rows,
    pub a: Pair,
    pub b: Pair,
    pub half: Half,
    pub whole: Whole,
    pub pick: Pick,
    pub leaves: Leaves,
}

impl View for Buffers {
    type V = Machine;

    open spec fn view(&self) -> Machine {
        Machine {
            rows: RowState {
                pred: self.rows.pred@,
                g: self.rows.g@,
                h: self.rows.h@,
                leaf: self.rows.leaf@,
                stats: self.rows.stats@,
                thresh: self.rows.thresh@,
            },
            a: PairState { g: self.a.g@, h: self.a.h@ },
            b: PairState { g: self.b.g@, h: self.b.h@ },
            half: HalfState { g: self.half.g@, h: self.half.h@ },
            whole: WholeState { g: self.whole.g@, h: self.whole.h@ },
            pick: PickState {
                gains: self.pick.gains@,
                split_ft: self.pick.split_ft@,
                feat: self.pick.feat@,
                thr: self.pick.thr@,
                fi_gain: self.pick.fi_gain@,
                fi_count: self.pick.fi_count@,
            },
            leaves: LeafState {
                g: self.leaves.g@,
                h: self.leaves.h@,
                g2: self.leaves.g2@,
                val: self.leaves.val@,
                var: self.leaves.var@,
            },
        }
    }
}

/// A launch may be performed.
spec fn ready(j: Task, m: Machine, s: Stage, l: Launch) -> bool {
    &&& j.valid()
    &&& m.at_stage(j.shape, s)
    &&& may_come(j.shape, s, l)
}

/// A launch has been performed.
spec fn performed<A: Arith, C: Accum<A>>(
    j: Task,
    before: Machine,
    after: Machine,
    s: Stage,
    l: Launch,
) -> bool {
    &&& after.at_stage(j.shape, next_stage(s, l))
    &&& deterministic::<A>() ==> after == step::<A, C>(j, before, l)
}

impl Buffers {
    fn gradients<A: Arith, C: Accum<A>>(&mut self, j: &Job, logistic: bool, Ghost(s): Ghost<Stage>)
        requires
            ready(
                j@,
                old(self)@,
                s,
                if logistic {
                    Launch::GradLogistic
                } else {
                    Launch::GradL2
                },
            ),
        ensures
            performed::<A, C>(
                j@,
                old(self)@,
                final(self)@,
                s,
                if logistic {
                    Launch::GradLogistic
                } else {
                    Launch::GradL2
                },
            ),
    {
        reveal(step);
        if logistic {
            grad_logistic::<A>(
                self.rows.pred.as_slice(),
                j.y.as_slice(),
                &mut self.rows.g,
                &mut self.rows.h,
                j.shape.n,
            );
            proof {
                if deterministic::<A>() {
                    assert(self@ =~= step::<A, C>(j@, old(self)@, Launch::GradLogistic));
                }
            }
        } else {
            grad_l2::<A>(
                self.rows.pred.as_slice(),
                j.y.as_slice(),
                &mut self.rows.g,
                &mut self.rows.h,
                j.shape.n,
            );
            proof {
                if deterministic::<A>() {
                    assert(self@ =~= step::<A, C>(j@, old(self)@, Launch::GradL2));
                }
            }
        }
    }

    fn clear_stats<A: Arith, C: Accum<A>>(&mut self, j: &Job, Ghost(s): Ghost<Stage>)
        requires
            ready(j@, old(self)@, s, Launch::ClearStats),
        ensures
            performed::<A, C>(j@, old(self)@, final(self)@, s, Launch::ClearStats),
    {
        reveal(step);
        zero2_f32(&mut self.rows.stats, &mut self.rows.thresh, 2);
        assert(self@ =~= step::<A, C>(j@, old(self)@, Launch::ClearStats));
    }

    fn sum_hessians<A: Arith, C: Accum<A>>(&mut self, j: &Job, Ghost(s): Ghost<Stage>)
        requires
            ready(j@, old(self)@, s, Launch::HessStats),
        ensures
            performed::<A, C>(j@, old(self)@, final(self)@, s, Launch::HessStats),
    {
        reveal(step);
        hess_stats::<A>(self.rows.h.as_slice(), &mut self.rows.stats, j.shape.n);
        proof {
            if deterministic::<A>() {
                assert(self@ =~= step::<A, C>(j@, old(self)@, Launch::HessStats));
            }
        }
    }

    fn clamp_hessians<A: Arith, C: Accum<A>>(&mut self, j: &Job, Ghost(s): Ghost<Stage>)
        requires
            ready(j@, old(self)@, s, Launch::HessClamp),
        ensures
            performed::<A, C>(j@, old(self)@, final(self)@, s, Launch::HessClamp),
    {
        reveal(step);
        hess_clamp::<A>(
            &mut self.rows.h,
            self.rows.stats.as_slice(),
            j.shape.n,
            j.clamp_z,
            F32 { bits: MILLIONTH32 },
        );
        proof {
            if deterministic::<A>() {
                assert(self@ =~= step::<A, C>(j@, old(self)@, Launch::HessClamp));
            }
        }
    }

    fn sum_gradients<A: Arith, C: Accum<A>>(&mut self, j: &Job, Ghost(s): Ghost<Stage>)
        requires
            ready(j@, old(self)@, s, Launch::GossStats),
        ensures
            performed::<A, C>(j@, old(self)@, final(self)@, s, Launch::GossStats),
    {
        reveal(step);
        goss_stats::<A>(self.rows.g.as_slice(), &mut self.rows.stats, j.shape.n);
        proof {
            if deterministic::<A>() {
                assert(self@ =~= step::<A, C>(j@, old(self)@, Launch::GossStats));
            }
        }
    }

    fn set_threshold<A: Arith, C: Accum<A>>(&mut self, j: &Job, Ghost(s): Ghost<Stage>)
        requires
            ready(j@, old(self)@, s, Launch::GossThresh),
        ensures
            performed::<A, C>(j@, old(self)@, final(self)@, s, Launch::GossThresh),
    {
        reveal(step);
        goss_thresh::<A>(
            self.rows.stats.as_slice(),
            &mut self.rows.thresh,
            j.shape.n,
            j.goss_q,
        );
        proof {
            if deterministic::<A>() {
                assert(self@ =~= step::<A, C>(j@, old(self)@, Launch::GossThresh));
            }
        }
    }

    fn weigh_rows<A: Arith, C: Accum<A>>(&mut self, j: &Job, seed: u32, Ghost(s): Ghost<Stage>)
        requires
            ready(j@, old(self)@, s, Launch::GossApply { seed }),
        ensures
            performed::<A, C>(j@, old(self)@, final(self)@, s, Launch::GossApply { seed }),
    {
        reveal(step);
        goss_apply::<A>(
            &mut self.rows.g,
            &mut self.rows.h,
            self.rows.thresh.as_slice(),
            j.amplify,
            j.other_rate,
            seed,
            j.shape.n,
        );
        proof {
            if deterministic::<A>() {
                let w = step::<A, C>(j@, old(self)@, Launch::GossApply { seed });
                assert(self.rows.g@ =~= w.rows.g);
                assert(self.rows.h@ =~= w.rows.h);
                assert(self@ =~= w);
            }
        }
    }

    fn start_rows<A: Arith, C: Accum<A>>(&mut self, j: &Job, Ghost(s): Ghost<Stage>)
        requires
            ready(j@, old(self)@, s, Launch::ZeroLeaf),
        ensures
            performed::<A, C>(j@, old(self)@, final(self)@, s, Launch::ZeroLeaf),
    {
        reveal(step);
        zero_u32(&mut self.rows.leaf, j.shape.n);
        proof {
            lemma2_to64();
        }
        assert(self@ =~= step::<A, C>(j@, old(self)@, Launch::ZeroLeaf));
    }

    fn zero_half<A: Arith, C: Accum<A>>(&mut self, j: &Job, len: u32, Ghost(s): Ghost<Stage>)
        requires
            ready(j@, old(self)@, s, Launch::ZeroHalf { len }),
        ensures
            performed::<A, C>(j@, old(self)@, final(self)@, s, Launch::ZeroHalf { len }),
    {
        reveal(step);
        zero2_f16(&mut self.half.g, &mut self.half.h, len);
        assert(self@ =~= step::<A, C>(j@, old(self)@, Launch::ZeroHalf { len }));
    }

    fn zero_whole<A: Arith, C: Accum<A>>(&mut self, j: &Job, len: u32, Ghost(s): Ghost<Stage>)
        requires
            ready(j@, old(self)@, s, Launch::ZeroInt { len }),
        ensures
            performed::<A, C>(j@, old(self)@, final(self)@, s, Launch::ZeroInt { len }),
    {
        reveal(step);
        zero2_i32(&mut self.whole.g, &mut self.whole.h, len);
        assert(self@ =~= step::<A, C>(j@, old(self)@, Launch::ZeroInt { len }));
    }

    fn zero_pair<A: Arith, C: Accum<A>>(
        &mut self,
        j: &Job,
        side: Side,
        len: u32,
        Ghost(s): Ghost<Stage>,
    )
        requires
            ready(j@, old(self)@, s, Launch::ZeroHist { side, len }),
        ensures
            performed::<A, C>(j@, old(self)@, final(self)@, s, Launch::ZeroHist { side, len }),
    {
        reveal(step);
        match side {
            Side::A => zero2_f32(&mut self.a.g, &mut self.a.h, len),
            Side::B => zero2_f32(&mut self.b.g, &mut self.b.h, len),
        }
        assert(self@ =~= step::<A, C>(j@, old(self)@, Launch::ZeroHist { side, len }));
    }

    fn apply<A: Arith, C: Accum<A>>(&mut self, j: &Job, Ghost(s): Ghost<Stage>)
        requires
            ready(j@, old(self)@, s, Launch::ApplySplit),
        ensures
            performed::<A, C>(j@, old(self)@, final(self)@, s, Launch::ApplySplit),
    {
        reveal(step);
        let ghost before = self@;
        proof {
            lemma_level_sizes(j.shape, s.level);
            lemma2_to64();
            lemma_pow2_unfold(32);
            if s.level + 1 < 32 {
                lemma_pow2_strictly_increases(s.level as nat, 31);
            }
        }
        apply_split(
            j.bins.as_slice(),
            &mut self.rows.leaf,
            self.pick.split_ft.as_slice(),
            j.shape.n,
            j.shape.nf,
            j.packed,
            j.stride,
        );
        proof {
            assert forall|i: int| 0 <= i < j.shape.n implies #[trigger] self.rows.leaf@[i] < pow2(
                (s.level + 1) as nat,
            ) by {
                assert(before.rows.leaf[i] < pow2(s.level as nat));
            }
            assert(self@ =~= step::<A, C>(j@, before, Launch::ApplySplit));
        }
    }
}

/// Rows at a level can be counted.
proof fn lemma_countable(j: Task, m: Machine, s: Stage, replicas: int, seed: u32, odd_only: bool)
    requires
        j.valid(),
        m.at_stage(j.shape, s),
        0 <= s.level < j.shape.depth,
        0 < replicas,
    ensures
        j.counting(
            m.rows.leaf,
            replicas,
            j.shape.hist_len(pow2(s.level as nat) as int),
            seed,
            odd_only,
        ).fits(j.shape.n as int),
{
    let groups = pow2(s.level as nat) as int;
    let c = j.counting(m.rows.leaf, replicas, j.shape.hist_len(groups), seed, odd_only);
    lemma_level_sizes(j.shape, s.level);
    lemma_groups(c, groups);
    assert forall|i: int, f: int| 0 <= i < j.shape.n && 0 <= f < c.nf implies #[trigger] c.view.bin(
        i,
        f,
    ) < c.nb by {
        assert(j.view_bins().bin(i, f) < j.shape.nb);
    }
}

impl Buffers {
    fn build_blocks<A: Arith, C: Accum<A>>(
        &mut self,
        j: &Job,
        side: Side,
        groups: u32,
        tiles: u32,
        seed: u32,
        odd_only: bool,
        Ghost(s): Ghost<Stage>,
    )
        requires
            ready(j@, old(self)@, s, Launch::BuildSmem { side, groups, tiles, seed, odd_only }),
        ensures
            performed::<A, C>(
                j@,
                old(self)@,
                final(self)@,
                s,
                Launch::BuildSmem { side, groups, tiles, seed, odd_only },
            ),
    {
        reveal(step);
        let ghost before = self@;
        proof {
            lemma_level_sizes(j.shape, s.level);
            lemma_countable(j@, before, s, 1, seed, odd_only);
        }
        match side {
            Side::A => build_hist_smem::<A>(
                j.bins.as_slice(),
                self.rows.leaf.as_slice(),
                self.rows.g.as_slice(),
                self.rows.h.as_slice(),
                &mut self.a.g,
                &mut self.a.h,
                j.shape.n,
                j.shape.nf,
                j.shape.nb,
                groups,
                tiles,
                j.subsample,
                seed,
                odd_only,
                j.packed,
                j.stride,
            ),
            Side::B => build_hist_smem::<A>(
                j.bins.as_slice(),
                self.rows.leaf.as_slice(),
                self.rows.g.as_slice(),
                self.rows.h.as_slice(),
                &mut self.b.g,
                &mut self.b.h,
                j.shape.n,
                j.shape.nf,
                j.shape.nb,
                groups,
                tiles,
                j.subsample,
                seed,
                odd_only,
                j.packed,
                j.stride,
            ),
        }
        proof {
            if deterministic::<A>() {
                assert(self@ =~= step::<A, C>(
                    j@,
                    before,
                    Launch::BuildSmem { side, groups, tiles, seed, odd_only },
                ));
            }
        }
    }

    fn build_half<A: Arith, C: Accum<A>>(
        &mut self,
        j: &Job,
        hist_len: u32,
        seed: u32,
        odd_only: bool,
        Ghost(s): Ghost<Stage>,
    )
        requires
            ready(j@, old(self)@, s, Launch::BuildHalf { hist_len, seed, odd_only }),
        ensures
            performed::<A, C>(
                j@,
                old(self)@,
                final(self)@,
                s,
                Launch::BuildHalf { hist_len, seed, odd_only },
            ),
    {
        reveal(step);
        let ghost before = self@;
        proof {
            lemma_level_sizes(j.shape, s.level);
            lemma_countable(j@, before, s, j.shape.replicas as int, seed, odd_only);
        }
        build_hist_f16::<A>(
            j.bins.as_slice(),
            self.rows.leaf.as_slice(),
            self.rows.g.as_slice(),
            self.rows.h.as_slice(),
            &mut self.half.g,
            &mut self.half.h,
            j.shape.n,
            j.shape.nf,
            j.shape.nb,
            j.shape.replicas,
            hist_len,
            j.subsample,
            seed,
            odd_only,
            j.packed,
            j.stride,
        );
        proof {
            if deterministic::<A>() {
                assert(self@ =~= step::<A, C>(
                    j@,
                    before,
                    Launch::BuildHalf { hist_len, seed, odd_only },
                ));
            }
        }
    }

    fn build_whole<A: Arith, C: Accum<A>>(
        &mut self,
        j: &Job,
        hist_len: u32,
        seed: u32,
        odd_only: bool,
        Ghost(s): Ghost<Stage>,
    )
        requires
            ready(j@, old(self)@, s, Launch::BuildInt { hist_len, seed, odd_only }),
        ensures
            performed::<A, C>(
                j@,
                old(self)@,
                final(self)@,
                s,
                Launch::BuildInt { hist_len, seed, odd_only },
            ),
    {
        reveal(step);
        let ghost before = self@;
        proof {
            lemma_level_sizes(j.shape, s.level);
            lemma_countable(j@, before, s, j.shape.replicas as int, seed, odd_only);
        }
        build_hist_int::<A>(
            j.bins.as_slice(),
            self.rows.leaf.as_slice(),
            self.rows.g.as_slice(),
            self.rows.h.as_slice(),
            &mut self.whole.g,
            &mut self.whole.h,
            j.shape.n,
            j.shape.nf,
            j.shape.nb,
            j.shape.replicas,
            hist_len,
            j.subsample,
            seed,
            odd_only,
            j.packed,
            j.stride,
            j.int_scale,
        );
        proof {
            if deterministic::<A>() {
                assert(self@ =~= step::<A, C>(
                    j@,
                    before,
                    Launch::BuildInt { hist_len, seed, odd_only },
                ));
            }
        }
    }

    fn reduce_half<A: Arith, C: Accum<A>>(
        &mut self,
        j: &Job,
        side: Side,
        hist_len: u32,
        Ghost(s): Ghost<Stage>,
    )
        requires
            ready(j@, old(self)@, s, Launch::ReduceHalf { side, hist_len }),
        ensures
            performed::<A, C>(
                j@,
                old(self)@,
                final(self)@,
                s,
                Launch::ReduceHalf { side, hist_len },
            ),
    {
        reveal(step);
        let ghost before = self@;
        proof {
            lemma_level_sizes(j.shape, s.level);
        }
        match side {
            Side::A => reduce2_f16to32::<A>(
                self.half.g.as_slice(),
                self.half.h.as_slice(),
                &mut self.a.g,
                &mut self.a.h,
                j.shape.replicas,
                hist_len,
            ),
            Side::B => reduce2_f16to32::<A>(
                self.half.g.as_slice(),
                self.half.h.as_slice(),
                &mut self.b.g,
                &mut self.b.h,
                j.shape.replicas,
                hist_len,
            ),
        }
        proof {
            if deterministic::<A>() {
                assert(self@ =~= step::<A, C>(j@, before, Launch::ReduceHalf { side, hist_len }));
            }
        }
    }

    fn reduce_whole<A: Arith, C: Accum<A>>(
        &mut self,
        j: &Job,
        side: Side,
        hist_len: u32,
        Ghost(s): Ghost<Stage>,
    )
        requires
            ready(j@, old(self)@, s, Launch::ReduceInt { side, hist_len }),
        ensures
            performed::<A, C>(
                j@,
                old(self)@,
                final(self)@,
                s,
                Launch::ReduceInt { side, hist_len },
            ),
    {
        reveal(step);
        let ghost before = self@;
        proof {
            lemma_level_sizes(j.shape, s.level);
        }
        match side {
            Side::A => reduce2_int_to_f32::<A>(
                self.whole.g.as_slice(),
                self.whole.h.as_slice(),
                &mut self.a.g,
                &mut self.a.h,
                j.shape.replicas,
                hist_len,
                j.inv_scale,
            ),
            Side::B => reduce2_int_to_f32::<A>(
                self.whole.g.as_slice(),
                self.whole.h.as_slice(),
                &mut self.b.g,
                &mut self.b.h,
                j.shape.replicas,
                hist_len,
                j.inv_scale,
            ),
        }
        proof {
            if deterministic::<A>() {
                assert(self@ =~= step::<A, C>(j@, before, Launch::ReduceInt { side, hist_len }));
            }
        }
    }

    fn build_pair<A: Arith, C: Accum<A>>(
        &mut self,
        j: &Job,
        side: Side,
        hist_len: u32,
        seed: u32,
        odd_only: bool,
        Ghost(s): Ghost<Stage>,
    )
        requires
            ready(j@, old(self)@, s, Launch::BuildHist { side, hist_len, seed, odd_only }),
        ensures
            performed::<A, C>(
                j@,
                old(self)@,
                final(self)@,
                s,
                Launch::BuildHist { side, hist_len, seed, odd_only },
            ),
    {
        reveal(step);
        let ghost before = self@;
        proof {
            lemma_level_sizes(j.shape, s.level);
            lemma_countable(j@, before, s, j.shape.replicas as int, seed, odd_only);
        }
        match side {
            Side::A => build_hist::<A>(
                j.bins.as_slice(),
                self.rows.leaf.as_slice(),
                self.rows.g.as_slice(),
                self.rows.h.as_slice(),
                &mut self.a.g,
                &mut self.a.h,
                j.shape.n,
                j.shape.nf,
                j.shape.nb,
                j.shape.replicas,
                hist_len,
                j.subsample,
                seed,
                odd_only,
                j.packed,
                j.stride,
            ),
            Side::B => build_hist::<A>(
                j.bins.as_slice(),
                self.rows.leaf.as_slice(),
                self.rows.g.as_slice(),
                self.rows.h.as_slice(),
                &mut self.b.g,
                &mut self.b.h,
                j.shape.n,
                j.shape.nf,
                j.shape.nb,
                j.shape.replicas,
                hist_len,
                j.subsample,
                seed,
                odd_only,
                j.packed,
                j.stride,
            ),
        }
        proof {
            if deterministic::<A>() {
                assert(self@ =~= step::<A, C>(
                    j@,
                    before,
                    Launch::BuildHist { side, hist_len, seed, odd_only },
                ));
            }
        }
    }

    fn reduce_pair<A: Arith, C: Accum<A>>(
        &mut self,
        j: &Job,
        side: Side,
        hist_len: u32,
        Ghost(s): Ghost<Stage>,
    )
        requires
            ready(j@, old(self)@, s, Launch::ReduceHist { side, hist_len }),
        ensures
            performed::<A, C>(
                j@,
                old(self)@,
                final(self)@,
                s,
                Launch::ReduceHist { side, hist_len },
            ),
    {
        reveal(step);
        let ghost before = self@;
        proof {
            lemma_level_sizes(j.shape, s.level);
        }
        match side {
            Side::A => reduce2::<A, C>(
                &mut self.a.g,
                &mut self.a.h,
                j.shape.replicas,
                hist_len,
            ),
            Side::B => reduce2::<A, C>(
                &mut self.b.g,
                &mut self.b.h,
                j.shape.replicas,
                hist_len,
            ),
        }
        proof {
            if deterministic::<A>() {
                assert(self@ =~= step::<A, C>(j@, before, Launch::ReduceHist { side, hist_len }));
            }
        }
    }

    fn subtract<A: Arith, C: Accum<A>>(
        &mut self,
        j: &Job,
        side: Side,
        prev_groups: u32,
        Ghost(s): Ghost<Stage>,
    )
        requires
            ready(j@, old(self)@, s, Launch::SubtractEven { side, prev_groups }),
        ensures
            performed::<A, C>(
                j@,
                old(self)@,
                final(self)@,
                s,
                Launch::SubtractEven { side, prev_groups },
            ),
    {
        reveal(step);
        let ghost before = self@;
        proof {
            lemma_level_sizes(j.shape, s.level);
            lemma_level_sizes(j.shape, s.level - 1);
            let p = prev_groups as int;
            let nf = j.shape.nf as int;
            let nb = j.shape.nb as int;
            assert(2 * p * (nf * nb) == (2 * p) * nf * nb && p * (nf * nb) == p * nf * nb)
                by (nonlinear_arith);
        }
        match side {
            Side::A => subtract_even::<A>(
                &mut self.a.g,
                &mut self.a.h,
                self.b.g.as_slice(),
                self.b.h.as_slice(),
                prev_groups,
                j.shape.nf,
                j.shape.nb,
            ),
            Side::B => subtract_even::<A>(
                &mut self.b.g,
                &mut self.b.h,
                self.a.g.as_slice(),
                self.a.h.as_slice(),
                prev_groups,
                j.shape.nf,
                j.shape.nb,
            ),
        }
        proof {
            if deterministic::<A>() {
                assert(self@ =~= step::<A, C>(
                    j@,
                    before,
                    Launch::SubtractEven { side, prev_groups },
                ));
            }
        }
    }

    fn rate<A: Arith, C: Accum<A>>(
        &mut self,
        j: &Job,
        side: Side,
        groups: u32,
        seed: u32,
        Ghost(s): Ghost<Stage>,
    )
        requires
            ready(j@, old(self)@, s, Launch::SplitGain { side, groups, seed }),
        ensures
            performed::<A, C>(
                j@,
                old(self)@,
                final(self)@,
                s,
                Launch::SplitGain { side, groups, seed },
            ),
    {
        reveal(step);
        let ghost before = self@;
        proof {
            lemma_level_sizes(j.shape, s.level);
        }
        match side {
            Side::A => split_gain::<A, C>(
                self.a.g.as_slice(),
                self.a.h.as_slice(),
                &mut self.pick.gains,
                j.shape.nf,
                j.shape.nb,
                groups,
                j.lambda,
                j.min_child,
                j.colsample,
                seed,
                j.monotone.as_slice(),
            ),
            Side::B => split_gain::<A, C>(
                self.b.g.as_slice(),
                self.b.h.as_slice(),
                &mut self.pick.gains,
                j.shape.nf,
                j.shape.nb,
                groups,
                j.lambda,
                j.min_child,
                j.colsample,
                seed,
                j.monotone.as_slice(),
            ),
        }
        proof {
            assert forall|f: int| 0 <= f < j.shape.nf implies (
            #[trigger] self.pick.gains@[f * j.shape.nb + j.shape.nb - 1]) == (F32 {
                bits: NO_GAIN32,
            }) by {
                let nb = j.shape.nb as int;
                let nf = j.shape.nf as int;
                assert(f * nb + nb <= nf * nb) by (nonlinear_arith)
                    requires
                        0 <= f < nf,
                        nb > 0,
                ;
            }
            if deterministic::<A>() {
                assert(self@ =~= step::<A, C>(
                    j@,
                    before,
                    Launch::SplitGain { side, groups, seed },
                ));
            }
        }
    }

    fn choose_split<A: Arith, C: Accum<A>>(&mut self, j: &Job, k: u32, Ghost(s): Ghost<Stage>)
        requires
            ready(j@, old(self)@, s, Launch::ArgmaxSplit { k }),
        ensures
            performed::<A, C>(j@, old(self)@, final(self)@, s, Launch::ArgmaxSplit { k }),
    {
        reveal(step);
        let ghost before = self@;
        proof {
            lemma_level_sizes(j.shape, 0);
        }
        argmax_split::<A>(
            self.pick.gains.as_slice(),
            j.bounds.as_slice(),
            &mut self.pick.feat,
            &mut self.pick.thr,
            &mut self.pick.split_ft,
            &mut self.pick.fi_gain,
            &mut self.pick.fi_count,
            k,
            j.shape.nf,
            j.shape.nb,
        );
        proof {
            if deterministic::<A>() {
                assert(self@ =~= step::<A, C>(j@, before, Launch::ArgmaxSplit { k }));
            }
        }
    }

    fn zero_leaf_sums<A: Arith, C: Accum<A>>(&mut self, j: &Job, len: u32, Ghost(s): Ghost<Stage>)
        requires
            ready(j@, old(self)@, s, Launch::ZeroLeafSums { len }),
        ensures
            performed::<A, C>(j@, old(self)@, final(self)@, s, Launch::ZeroLeafSums { len }),
    {
        reveal(step);
        zero2_f32(&mut self.leaves.g, &mut self.leaves.h, len);
        assert(self@ =~= step::<A, C>(j@, old(self)@, Launch::ZeroLeafSums { len }));
    }

    fn zero_leaf_squares<A: Arith, C: Accum<A>>(
        &mut self,
        j: &Job,
        len: u32,
        Ghost(s): Ghost<Stage>,
    )
        requires
            ready(j@, old(self)@, s, Launch::ZeroLeafSquares { len }),
        ensures
            performed::<A, C>(j@, old(self)@, final(self)@, s, Launch::ZeroLeafSquares { len }),
    {
        reveal(step);
        zero_f32(&mut self.leaves.g2, len);
        assert(self@ =~= step::<A, C>(j@, old(self)@, Launch::ZeroLeafSquares { len }));
    }

    fn sum_leaves<A: Arith, C: Accum<A>>(
        &mut self,
        j: &Job,
        leaves: u32,
        seed: u32,
        Ghost(s): Ghost<Stage>,
    )
        requires
            leaves == j.shape.leaves(),
            ready(j@, old(self)@, s, Launch::LeafHist { seed }),
        ensures
            performed::<A, C>(j@, old(self)@, final(self)@, s, Launch::LeafHist { seed }),
    {
        reveal(step);
        let ghost before = self@;
        leaf_hist::<A>(
            self.rows.leaf.as_slice(),
            self.rows.g.as_slice(),
            self.rows.h.as_slice(),
            &mut self.leaves.g,
            &mut self.leaves.h,
            &mut self.leaves.g2,
            j.shape.n,
            leaves,
            j.shape.replicas,
            j.subsample,
            seed,
        );
        proof {
            if deterministic::<A>() {
                assert(self@ =~= step::<A, C>(j@, before, Launch::LeafHist { seed }));
            }
        }
    }

    fn reduce_leaf_sums<A: Arith, C: Accum<A>>(
        &mut self,
        j: &Job,
        leaves: u32,
        Ghost(s): Ghost<Stage>,
    )
        requires
            leaves == j.shape.leaves(),
            ready(j@, old(self)@, s, Launch::ReduceLeafSums),
        ensures
            performed::<A, C>(j@, old(self)@, final(self)@, s, Launch::ReduceLeafSums),
    {
        reveal(step);
        let ghost before = self@;
        proof {
            lemma_level_sizes(j.shape, 0);
        }
        reduce2::<A, C>(&mut self.leaves.g, &mut self.leaves.h, j.shape.replicas, leaves);
        proof {
            if deterministic::<A>() {
                assert(self@ =~= step::<A, C>(j@, before, Launch::ReduceLeafSums));
            }
        }
    }

    fn reduce_leaf_squares<A: Arith, C: Accum<A>>(
        &mut self,
        j: &Job,
        leaves: u32,
        Ghost(s): Ghost<Stage>,
    )
        requires
            leaves == j.shape.leaves(),
            ready(j@, old(self)@, s, Launch::ReduceLeafSquares),
        ensures
            performed::<A, C>(j@, old(self)@, final(self)@, s, Launch::ReduceLeafSquares),
    {
        reveal(step);
        let ghost before = self@;
        proof {
            lemma_level_sizes(j.shape, 0);
        }
        reduce1::<A, C>(&mut self.leaves.g2, j.shape.replicas, leaves);
        proof {
            if deterministic::<A>() {
                assert(self@ =~= step::<A, C>(j@, before, Launch::ReduceLeafSquares));
            }
        }
    }

    fn value_leaves<A: Arith, C: Accum<A>>(
        &mut self,
        j: &Job,
        leaves: u32,
        base: u32,
        Ghost(s): Ghost<Stage>,
    )
        requires
            leaves == j.shape.leaves(),
            ready(j@, old(self)@, s, Launch::LeafValues { base }),
        ensures
            performed::<A, C>(j@, old(self)@, final(self)@, s, Launch::LeafValues { base }),
    {
        reveal(step);
        let ghost before = self@;
        proof {
            lemma_level_sizes(j.shape, 0);
        }
        compute_leaf_values::<A>(
            self.leaves.g.as_slice(),
            self.leaves.h.as_slice(),
            self.leaves.g2.as_slice(),
            &mut self.leaves.val,
            &mut self.leaves.var,
            base,
            j.lr,
            j.lambda,
            leaves,
        );
        proof {
            if deterministic::<A>() {
                assert(self@ =~= step::<A, C>(j@, before, Launch::LeafValues { base }));
            }
        }
    }

    fn raise_scores<A: Arith, C: Accum<A>>(&mut self, j: &Job, base: u32, Ghost(s): Ghost<Stage>)
        requires
            ready(j@, old(self)@, s, Launch::UpdatePred { base }),
        ensures
            performed::<A, C>(j@, old(self)@, final(self)@, s, Launch::UpdatePred { base }),
    {
        reveal(step);
        let ghost before = self@;
        update_pred::<A>(
            self.rows.leaf.as_slice(),
            self.leaves.val.as_slice(),
            base,
            &mut self.rows.pred,
            j.shape.n,
        );
        proof {
            if deterministic::<A>() {
                assert(self@ =~= step::<A, C>(j@, before, Launch::UpdatePred { base }));
            }
        }
    }
}

impl Buffers {
    /// Performs a launch.
    fn perform<A: Arith, C: Accum<A>>(
        &mut self,
        j: &Job,
        l: Launch,
        leaves: u32,
        Ghost(s): Ghost<Stage>,
    )
        requires
            leaves == j.shape.leaves(),
            ready(j@, old(self)@, s, l),
        ensures
            performed::<A, C>(j@, old(self)@, final(self)@, s, l),
    {
        reveal(step);
        match l {
            Launch::Mark(_) => {
                assert(self@ =~= step::<A, C>(j@, self@, l));
            },
            Launch::GradLogistic => self.gradients::<A, C>(j, true, Ghost(s)),
            Launch::GradL2 => self.gradients::<A, C>(j, false, Ghost(s)),
            Launch::ClearStats => self.clear_stats::<A, C>(j, Ghost(s)),
            Launch::HessStats => self.sum_hessians::<A, C>(j, Ghost(s)),
            Launch::HessClamp => self.clamp_hessians::<A, C>(j, Ghost(s)),
            Launch::GossStats => self.sum_gradients::<A, C>(j, Ghost(s)),
            Launch::GossThresh => self.set_threshold::<A, C>(j, Ghost(s)),
            Launch::GossApply { seed } => self.weigh_rows::<A, C>(j, seed, Ghost(s)),
            Launch::ZeroLeaf => self.start_rows::<A, C>(j, Ghost(s)),
            Launch::ZeroHalf { len } => self.zero_half::<A, C>(j, len, Ghost(s)),
            Launch::ZeroInt { len } => self.zero_whole::<A, C>(j, len, Ghost(s)),
            Launch::ZeroHist { side, len } => self.zero_pair::<A, C>(j, side, len, Ghost(s)),
            Launch::BuildSmem { side, groups, tiles, seed, odd_only } => self.build_blocks::<A, C>(
                j,
                side,
                groups,
                tiles,
                seed,
                odd_only,
                Ghost(s),
            ),
            Launch::BuildHalf { hist_len, seed, odd_only } => self.build_half::<A, C>(
                j,
                hist_len,
                seed,
                odd_only,
                Ghost(s),
            ),
            Launch::ReduceHalf { side, hist_len } => self.reduce_half::<A, C>(
                j,
                side,
                hist_len,
                Ghost(s),
            ),
            Launch::BuildInt { hist_len, seed, odd_only } => self.build_whole::<A, C>(
                j,
                hist_len,
                seed,
                odd_only,
                Ghost(s),
            ),
            Launch::ReduceInt { side, hist_len } => self.reduce_whole::<A, C>(
                j,
                side,
                hist_len,
                Ghost(s),
            ),
            Launch::BuildHist { side, hist_len, seed, odd_only } => self.build_pair::<A, C>(
                j,
                side,
                hist_len,
                seed,
                odd_only,
                Ghost(s),
            ),
            Launch::ReduceHist { side, hist_len } => self.reduce_pair::<A, C>(
                j,
                side,
                hist_len,
                Ghost(s),
            ),
            Launch::SubtractEven { side, prev_groups } => self.subtract::<A, C>(
                j,
                side,
                prev_groups,
                Ghost(s),
            ),
            Launch::SplitGain { side, groups, seed } => self.rate::<A, C>(
                j,
                side,
                groups,
                seed,
                Ghost(s),
            ),
            Launch::ArgmaxSplit { k } => self.choose_split::<A, C>(j, k, Ghost(s)),
            Launch::ApplySplit => self.apply::<A, C>(j, Ghost(s)),
            Launch::ZeroLeafSums { len } => self.zero_leaf_sums::<A, C>(j, len, Ghost(s)),
            Launch::ZeroLeafSquares { len } => self.zero_leaf_squares::<A, C>(j, len, Ghost(s)),
            Launch::LeafHist { seed } => self.sum_leaves::<A, C>(j, leaves, seed, Ghost(s)),
            Launch::ReduceLeafSums => self.reduce_leaf_sums::<A, C>(j, leaves, Ghost(s)),
            Launch::ReduceLeafSquares => self.reduce_leaf_squares::<A, C>(j, leaves, Ghost(s)),
            Launch::LeafValues { base } => self.value_leaves::<A, C>(j, leaves, base, Ghost(s)),
            Launch::UpdatePred { base } => self.raise_scores::<A, C>(j, base, Ghost(s)),
        }
    }

    /// Grows tree `tree`.
    pub fn grow_tree<A: Arith, C: Accum<A>>(&mut self, j: &Job, tree: u32)
        requires
            j@.valid(),
            tree < j.shape.n_trees,
            old(self)@.at_stage(j.shape, between_trees(j.shape)),
        ensures
            final(self)@.at_stage(j.shape, between_trees(j.shape)),
            deterministic::<A>() ==> final(self)@ == run::<A, C>(
                j@,
                old(self)@,
                j.shape.tree_plan(tree as int),
            ),
    {
        let plan = j.shape.plan_tree(tree);
        let ghost start = self@;
        let ghost mut s = between_trees(j.shape);
        proof {
            lemma_plan_sound(j.shape, tree as int);
            lemma_level_sizes(j.shape, 0);
            assert(plan@.skip(0) =~= plan@);
        }
        let leaves: u32 = leaf_count(j.shape.depth as usize) as u32;
        let mut i: usize = 0;
        while i < plan.len()
            invariant
                j@.valid(),
                leaves == j.shape.leaves(),
                i <= plan@.len(),
                self@.at_stage(j.shape, s),
                sound(j.shape, s, plan@.skip(i as int)),
                stage_after(s, plan@.skip(i as int)).level == j.shape.depth,
                deterministic::<A>() ==> run::<A, C>(j@, self@, plan@.skip(i as int)) == run::<
                    A,
                    C,
                >(j@, start, plan@),
            decreases plan@.len() - i,
        {
            let ghost rest = plan@.skip(i as int);
            assert(rest[0] == plan@[i as int]);
            assert(rest.skip(1) =~= plan@.skip(i + 1));
            let ghost before = self@;
            self.perform::<A, C>(j, plan[i], leaves, Ghost(s));
            proof {
                s = next_stage(s, plan@[i as int]);
            }
            i = i + 1;
        }
    }
}

/// The buffers as a run starts with them: zero, but for the scores.
pub open spec fn fresh(j: Task) -> Machine {
    let shape = j.shape;
    let zero = F32 { bits: 0 };
    let most = (shape.replicas * shape.hist_len(shape.max_groups())) as nat;
    let half = if shape.half {
        most
    } else {
        1
    };
    let whole = if shape.integer {
        most
    } else {
        1
    };
    let sums = (shape.replicas * shape.leaves()) as nat;
    let values = (shape.n_trees * shape.leaves()) as nat;
    let splits = (shape.n_trees * shape.depth) as nat;
    let zeros = |len: nat| Seq::new(len, |i: int| zero);
    let nothing = |len: nat| Seq::new(len, |i: int| 0u32);
    let pair = PairState { g: zeros(most), h: zeros(most) };
    let halves = Seq::new(half, |i: int| F16 { bits: 0 });
    let integers = Seq::new(whole, |i: int| 0i32);
    Machine {
        rows: RowState {
            pred: Seq::new(shape.n as nat, |i: int| j.base),
            g: zeros(shape.n as nat),
            h: zeros(shape.n as nat),
            leaf: nothing(shape.n as nat),
            stats: zeros(2),
            thresh: zeros(1),
        },
        a: pair,
        b: pair,
        half: HalfState { g: halves, h: halves },
        whole: WholeState { g: integers, h: integers },
        pick: PickState {
            gains: zeros((shape.nf * shape.nb) as nat),
            split_ft: nothing(2),
            feat: nothing(splits),
            thr: zeros(splits),
            fi_gain: zeros(shape.nf as nat),
            fi_count: zeros(shape.nf as nat),
        },
        leaves: LeafState {
            g: zeros(sums),
            h: zeros(sums),
            g2: zeros(sums),
            val: zeros(values),
            var: zeros(values),
        },
    }
}

/// The buffers after `t` trees.
pub open spec fn grown<A: Arith, C: Accum<A>>(j: Task, t: nat) -> Machine
    decreases t,
{
    if t == 0 {
        fresh(j)
    } else {
        run::<A, C>(j, grown::<A, C>(j, (t - 1) as nat), j.shape.tree_plan(t - 1))
    }
}

impl Buffers {
    /// Buffers to start a run with.
    pub fn allocate(j: &Job) -> (b: Buffers)
        requires
            j@.valid(),
        ensures
            b@ == fresh(j@),
            b@.at_stage(j.shape, between_trees(j.shape)),
    {
        proof {
            lemma_level_sizes(j.shape, 0);
            lemma_level_sizes(j.shape, j.shape.depth - 1);
            let g = j.shape.max_groups();
            let nf = j.shape.nf as int;
            let nb = j.shape.nb as int;
            assert(0 <= g * nf <= g * nf * nb) by (nonlinear_arith)
                requires
                    g >= 0,
                    nf >= 1,
                    nb >= 1,
            ;
        }
        let zero = F32 { bits: 0 };
        let n: usize = j.shape.n as usize;
        let nf: usize = j.shape.nf as usize;
        let leaves: u32 = leaf_count(j.shape.depth as usize) as u32;
        let groups: u32 = leaf_count(j.shape.depth as usize - 1) as u32;
        let most: usize = (j.shape.replicas * (groups * j.shape.nf * j.shape.nb)) as usize;
        let half: usize = if j.shape.half {
            most
        } else {
            1
        };
        let whole: usize = if j.shape.integer {
            most
        } else {
            1
        };
        let cells: usize = (j.shape.nf * j.shape.nb) as usize;
        let sums: usize = (j.shape.replicas * leaves) as usize;
        let values: usize = (j.shape.n_trees * leaves) as usize;
        let splits: usize = (j.shape.n_trees * j.shape.depth) as usize;
        let b = Buffers {
            rows: Rows {
                pred: vec![j.base; n],
                g: vec![zero; n],
                h: vec![zero; n],
                leaf: vec![0u32; n],
                stats: vec![zero; 2],
                thresh: vec![zero; 1],
            },
            a: Pair { g: vec![zero; most], h: vec![zero; most] },
            b: Pair { g: vec![zero; most], h: vec![zero; most] },
            half: Half { g: vec![F16 { bits: 0 }; half], h: vec![F16 { bits: 0 }; half] },
            whole: Whole { g: vec![0i32; whole], h: vec![0i32; whole] },
            pick: Pick {
                gains: vec![zero; cells],
                split_ft: vec![0u32; 2],
                feat: vec![0u32; splits],
                thr: vec![zero; splits],
                fi_gain: vec![zero; nf],
                fi_count: vec![zero; nf],
            },
            leaves: Leaves {
                g: vec![zero; sums],
                h: vec![zero; sums],
                g2: vec![zero; sums],
                val: vec![zero; values],
                var: vec![zero; values],
            },
        };
        assert(b@.rows =~= fresh(j@).rows);
        assert(b@.a =~= fresh(j@).a);
        assert(b@.b =~= fresh(j@).b);
        assert(b@.half =~= fresh(j@).half);
        assert(b@.whole =~= fresh(j@).whole);
        assert(b@.pick =~= fresh(j@).pick);
        assert(b@.leaves =~= fresh(j@).leaves);
        b
    }
}

/// Grows all trees.
pub fn grow_forest<A: Arith, C: Accum<A>>(j: &Job) -> (b: Buffers)
    requires
        j@.valid(),
    ensures
        b@.at_stage(j.shape, between_trees(j.shape)),
        deterministic::<A>() ==> b@ == grown::<A, C>(j@, j.shape.n_trees as nat),
{
    let mut b = Buffers::allocate(j);
    let mut t: u32 = 0;
    while t < j.shape.n_trees
        invariant
            j@.valid(),
            t <= j.shape.n_trees,
            b@.at_stage(j.shape, between_trees(j.shape)),
            deterministic::<A>() ==> b@ == grown::<A, C>(j@, t as nat),
        decreases j.shape.n_trees - t,
    {
        b.grow_tree::<A, C>(j, t);
        t = t + 1;
    }
    b
}

} // verus!
