use rustwood::arith::Arith;
use rustwood::booster::Booster;
use rustwood::config::Config;
use rustwood::config::Device;
use rustwood::config::Objective;
use rustwood::data::Dataset;
use rustwood::float::F16;
use rustwood::float::F32;
use rustwood::float::F64;
use rustwood::gpu::hist::build_hist;
use rustwood::gpu::hist::build_hist_f16;
use rustwood::gpu::hist::build_hist_int;
use rustwood::gpu::hist::build_hist_smem;
use rustwood::gpu::hist::prefix_scan;
use rustwood::gpu::hist::reduce1;
use rustwood::gpu::hist::reduce2;
use rustwood::gpu::hist::reduce2_f16to32;
use rustwood::gpu::hist::reduce2_int_to_f32;
use rustwood::gpu::hist::smem_spike;
use rustwood::gpu::hist::subtract_even;
use rustwood::gpu::leaf::compute_leaf_values;
use rustwood::gpu::leaf::leaf_hist;
use rustwood::gpu::leaf::predict;
use rustwood::gpu::leaf::predict_var;
use rustwood::gpu::leaf::update_pred;
use rustwood::gpu::plan::Category;
use rustwood::gpu::plan::Launch;
use rustwood::gpu::plan::Shape;
use rustwood::gpu::plan::Side;
use rustwood::gpu::profile::Timings;
use rustwood::gpu::profile::CATEGORIES;
use rustwood::gpu::rows::apply_split;
use rustwood::gpu::rows::bin_features;
use rustwood::gpu::rows::fill_pseudo;
use rustwood::gpu::rows::goss_apply;
use rustwood::gpu::rows::goss_stats;
use rustwood::gpu::rows::goss_thresh;
use rustwood::gpu::rows::grad_l2;
use rustwood::gpu::rows::grad_logistic;
use rustwood::gpu::rows::hash01;
use rustwood::gpu::rows::hess_clamp;
use rustwood::gpu::rows::hess_stats;
use rustwood::gpu::rows::pack_bins4;
use rustwood::gpu::rows::round_i32;
use rustwood::gpu::rows::zero2_f16;
use rustwood::gpu::rows::zero2_f32;
use rustwood::gpu::rows::zero2_i32;
use rustwood::gpu::rows::zero_f32;
use rustwood::gpu::rows::zero_u32;
use rustwood::gpu::setup::all_directions;
use rustwood::gpu::setup::column_major;
use rustwood::gpu::setup::norm_ppf;
use rustwood::gpu::setup::replica_count;
use rustwood::gpu::setup::tile_count;
use rustwood::gpu::setup::tree_seed;
use rustwood::gpu::split::argmax_split;
use rustwood::gpu::split::split_gain;

/// The arithmetic of the machine.
struct Native;

fn f(v: f32) -> F32 {
    F32 { bits: v.to_bits() }
}

fn d(v: f64) -> F64 {
    F64 { bits: v.to_bits() }
}

fn v(a: F32) -> f32 {
    f32::from_bits(a.bits)
}

fn w(a: F64) -> f64 {
    f64::from_bits(a.bits)
}

fn fs(vals: &[f32]) -> Vec<F32> {
    vals.iter().map(|&x| f(x)).collect()
}

fn vs(vals: &[F32]) -> Vec<f32> {
    vals.iter().map(|&x| v(x)).collect()
}

/// The pattern in half precision that is nearest to a number.
fn to_half(x: f32) -> u16 {
    let bits = x.to_bits();
    let sign = ((bits >> 16) & 0x8000) as u16;
    let exponent = ((bits >> 23) & 0xFF) as i32 - 112;
    let fraction = bits & 0x7F_FFFF;
    if exponent == 143 {
        return sign | 0x7C00 | if fraction > 0 { 0x200 } else { 0 };
    }
    if exponent >= 31 {
        return sign | 0x7C00;
    }
    if exponent < -10 {
        return sign;
    }
    let (whole, shift) = if exponent <= 0 {
        (fraction | 0x80_0000, (14 - exponent) as u32)
    } else {
        (((exponent as u32) << 23) | fraction, 13)
    };
    let low = whole & ((1 << shift) - 1);
    let mut half = whole >> shift;
    let middle = 1u32 << (shift - 1);
    if low > middle || (low == middle && half & 1 == 1) {
        half += 1;
    }
    sign | half as u16
}

/// The number that a pattern in half precision stands for.
fn from_half(bits: u16) -> f32 {
    let sign = if bits & 0x8000 == 0 { 1.0 } else { -1.0 };
    let exponent = ((bits >> 10) & 0x1F) as i32;
    let fraction = (bits & 0x3FF) as f32;
    if exponent == 31 {
        if fraction > 0.0 { f32::NAN } else { sign * f32::INFINITY }
    } else if exponent == 0 {
        sign * fraction * 2.0f32.powi(-24)
    } else {
        sign * (fraction + 1024.0) * 2.0f32.powi(exponent - 25)
    }
}

impl Arith for Native {
    fn add16(a: F16, b: F16) -> F16 {
        F16 { bits: to_half(from_half(a.bits) + from_half(b.bits)) }
    }

    fn add32(a: F32, b: F32) -> F32 {
        f(v(a) + v(b))
    }

    fn sub32(a: F32, b: F32) -> F32 {
        f(v(a) - v(b))
    }

    fn mul32(a: F32, b: F32) -> F32 {
        f(v(a) * v(b))
    }

    fn div32(a: F32, b: F32) -> F32 {
        f(v(a) / v(b))
    }

    fn exp32(a: F32) -> F32 {
        f(v(a).exp())
    }

    fn ln32(a: F32) -> F32 {
        f(v(a).ln())
    }

    fn sqrt32(a: F32) -> F32 {
        f(v(a).sqrt())
    }

    fn add64(a: F64, b: F64) -> F64 {
        d(w(a) + w(b))
    }

    fn sub64(a: F64, b: F64) -> F64 {
        d(w(a) - w(b))
    }

    fn mul64(a: F64, b: F64) -> F64 {
        d(w(a) * w(b))
    }

    fn div64(a: F64, b: F64) -> F64 {
        d(w(a) / w(b))
    }

    fn exp64(a: F64) -> F64 {
        d(w(a).exp())
    }

    fn ln64(a: F64) -> F64 {
        d(w(a).ln())
    }

    fn sqrt64(a: F64) -> F64 {
        d(w(a).sqrt())
    }

    fn shorten(a: F32) -> F16 {
        F16 { bits: to_half(v(a)) }
    }

    fn lengthen(a: F16) -> F32 {
        f(from_half(a.bits))
    }

    fn widen(a: F32) -> F64 {
        d(v(a) as f64)
    }

    fn narrow(a: F64) -> F32 {
        f(w(a) as f32)
    }

    fn count32(a: u64) -> F32 {
        f(a as f32)
    }

    fn count64(a: u64) -> F64 {
        d(a as f64)
    }

    fn integer32(a: i32) -> F32 {
        f(a as f32)
    }

    fn parse32(text: &str) -> Option<F32> {
        text.parse::<f32>().ok().map(f)
    }
}

#[test]
fn draws_are_shares() {
    assert_eq!(v(hash01::<Native>(0, 0)), 2294768.0f32 / 16777215.0);
    assert_eq!(v(hash01::<Native>(1, 0)), 13350490.0f32 / 16777215.0);
    for id in 0..5000 {
        let u = v(hash01::<Native>(id, 99));
        assert!((0.0..1.0).contains(&u));
    }
    let mut buf = fs(&[9.0; 4]);
    fill_pseudo::<Native>(&mut buf, 3, 7);
    assert_eq!(v(buf[0]), (16126039.0f32 / 16777215.0 - 0.5) * 8.0);
    assert_eq!(v(buf[2]), (9120274.0f32 / 16777215.0 - 0.5) * 8.0);
    assert_eq!(v(buf[3]), 9.0);
}

#[test]
fn buffers_are_zeroed() {
    let mut a = fs(&[1.0, 2.0, 3.0]);
    zero_f32(&mut a, 2);
    assert_eq!(vs(&a), vec![0.0, 0.0, 3.0]);
    let mut b = fs(&[1.0]);
    zero2_f32(&mut a, &mut b, 9);
    assert_eq!((vs(&a), vs(&b)), (vec![0.0; 3], vec![0.0]));
    let (mut p, mut q) = (vec![1i32, 2], vec![3i32, 4]);
    zero2_i32(&mut p, &mut q, 1);
    assert_eq!((p, q), (vec![0, 2], vec![0, 4]));
    let mut u = vec![5u32, 6];
    zero_u32(&mut u, 1);
    assert_eq!(u, vec![0, 6]);
}

#[test]
fn features_are_binned_by_column() {
    let col = column_major(&fs(&[1.0, 10.0, 2.0, 20.0, 3.0, 30.0]), 3, 2);
    assert_eq!(vs(&col), vec![1.0, 2.0, 3.0, 10.0, 20.0, 30.0]);
    let back = column_major(&col, 2, 3);
    assert_eq!(vs(&back), vec![1.0, 10.0, 2.0, 20.0, 3.0, 30.0]);
    let mut bins = vec![9u8; 6];
    bin_features(&col, &fs(&[1.0, 2.0, 15.0, 25.0]), &mut bins, 3, 2, 3);
    assert_eq!(bins, vec![0, 1, 2, 0, 1, 2]);
}

#[test]
fn bins_are_packed() {
    let bins = vec![1u8, 2, 3, 4, 5, 6];
    let mut packed = vec![0u8; 4];
    pack_bins4(&bins, &mut packed, 3, 2, 2);
    assert_eq!(packed, vec![0x21, 0x03, 0x54, 0x06]);
    let mut plain = vec![0u32, 0, 0];
    apply_split(&bins, &mut plain, &[1, 4], 3, 2, false, 3);
    let mut from_packed = vec![0u32, 0, 0];
    apply_split(&packed, &mut from_packed, &[1, 4], 3, 2, true, 2);
    assert_eq!(plain, vec![0, 1, 1]);
    assert_eq!(plain, from_packed);
}

#[test]
fn gradients_of_a_launch() {
    let (mut g, mut h) = (fs(&[0.0; 3]), fs(&[0.0; 3]));
    grad_l2::<Native>(&fs(&[1.0, 2.0]), &fs(&[0.5, 4.0]), &mut g, &mut h, 2);
    assert_eq!(vs(&g), vec![0.5, -2.0, 0.0]);
    assert_eq!(vs(&h), vec![1.0, 1.0, 0.0]);
    grad_logistic::<Native>(&fs(&[0.0, -50.0]), &fs(&[1.0, 0.0]), &mut g, &mut h, 2);
    assert_eq!((v(g[0]), v(h[0]), v(h[1])), (-0.5, 0.25, 1e-6));
}

#[test]
fn hessians_are_clamped() {
    let mut h = fs(&[1.0, 1.0, 1.0, 5.0]);
    let mut stats = fs(&[0.0, 0.0]);
    hess_stats::<Native>(&h, &mut stats, 4);
    assert_eq!(vs(&stats), vec![8.0, 28.0]);
    hess_clamp::<Native>(&mut h, &stats, 4, f(1.0), f(1e-6));
    let std = 3.0f32.sqrt();
    assert_eq!(vs(&h), vec![1.0, 1.0, 1.0, 2.0 + std]);
    let mut low = fs(&[0.0, 0.0, 4.0]);
    hess_clamp::<Native>(&mut low, &fs(&[4.0, 16.0]), 3, f(10.0), f(1e-6));
    assert_eq!(vs(&low), vec![1e-6, 1e-6, 4.0]);
}

#[test]
fn rows_are_weighed_by_gradient() {
    let mut g = fs(&[4.0, -4.0, 0.0, 0.0]);
    let mut h = fs(&[1.0; 4]);
    let mut stats = fs(&[0.0, 0.0]);
    let mut thresh = fs(&[0.0]);
    goss_stats::<Native>(&g, &mut stats, 4);
    assert_eq!(v(stats[0]), 8.0);
    goss_thresh::<Native>(&stats, &mut thresh, 4, f(1.0));
    assert!((v(thresh[0]) - 2.0 / 0.7978846).abs() < 1e-5);
    goss_apply::<Native>(&mut g, &mut h, &thresh, f(3.0), f(1.0), 5, 4);
    assert_eq!(vs(&h), vec![1.0, 1.0, 3.0, 3.0]);
    goss_apply::<Native>(&mut g, &mut h, &thresh, f(3.0), f(0.0), 5, 4);
    assert_eq!(vs(&h), vec![1.0, 1.0, 0.0, 0.0]);
    assert_eq!(vs(&g), vec![4.0, -4.0, 0.0, 0.0]);
}

#[test]
fn fixed_point_rounds_to_nearest() {
    assert_eq!(round_i32(f(1.5)), 2);
    assert_eq!(round_i32(f(-1.5)), -2);
    assert_eq!(round_i32(f(0.49999997)), 0);
    assert_eq!(round_i32(f(1e12)), i32::MAX);
    assert_eq!(round_i32(f(-1e12)), i32::MIN);
    assert_eq!(round_i32(f(f32::NAN)), 0);
}

#[test]
fn histograms_agree_in_all_forms() {
    let bins = vec![0u8, 1, 1, 0, 1, 1, 0, 0];
    let leaf = vec![0u32, 1, 1, 0];
    let g = fs(&[1.0, 2.0, 4.0, 8.0]);
    let h = fs(&[1.0, 1.0, 1.0, 1.0]);
    let want_g = vec![9.0, 0.0, 8.0, 1.0, 0.0, 6.0, 4.0, 2.0];
    let want_h = vec![2.0, 0.0, 1.0, 1.0, 0.0, 2.0, 1.0, 1.0];
    let (mut hg, mut hh) = (fs(&[0.0; 16]), fs(&[0.0; 16]));
    build_hist::<Native>(
        &bins, &leaf, &g, &h, &mut hg, &mut hh, 4, 2, 2, 2, 8, f(1.0), 0, false, false, 4,
    );
    reduce2::<Native, F32>(&mut hg, &mut hh, 2, 8);
    assert_eq!(&vs(&hg)[0..8], &want_g[..]);
    assert_eq!(&vs(&hh)[0..8], &want_h[..]);
    let (mut bg, mut bh) = (fs(&[0.0; 8]), fs(&[0.0; 8]));
    build_hist_smem::<Native>(
        &bins, &leaf, &g, &h, &mut bg, &mut bh, 4, 2, 2, 2, 3, f(1.0), 0, false, false, 4,
    );
    assert_eq!((vs(&bg), vs(&bh)), (want_g.clone(), want_h.clone()));
    let (mut ig, mut ih) = (vec![0i32; 8], vec![0i32; 8]);
    build_hist_int::<Native>(
        &bins, &leaf, &g, &h, &mut ig, &mut ih, 4, 2, 2, 1, 8, f(1.0), 0, false, false, 4,
        f(16.0),
    );
    assert_eq!(ig[0], 144);
    let (mut fg, mut fh) = (fs(&[0.0; 8]), fs(&[0.0; 8]));
    reduce2_int_to_f32::<Native>(&ig, &ih, &mut fg, &mut fh, 1, 8, f(1.0 / 16.0));
    assert_eq!((vs(&fg), vs(&fh)), (want_g.clone(), want_h.clone()));
    let zero = F16 { bits: 0 };
    let (mut sg, mut sh) = (vec![zero; 16], vec![zero; 16]);
    build_hist_f16::<Native>(
        &bins, &leaf, &g, &h, &mut sg, &mut sh, 4, 2, 2, 2, 8, f(1.0), 0, false, false, 4,
    );
    assert_eq!(sg[0], F16 { bits: to_half(9.0) });
    let (mut fg, mut fh) = (fs(&[0.0; 8]), fs(&[0.0; 8]));
    reduce2_f16to32::<Native>(&sg, &sh, &mut fg, &mut fh, 2, 8);
    assert_eq!((vs(&fg), vs(&fh)), (want_g.clone(), want_h.clone()));
    zero2_f16(&mut sg, &mut sh, 1);
    assert_eq!((sg[0], sh[0]), (zero, zero));
    let (mut og, mut oh) = (fs(&[0.0; 8]), fs(&[0.0; 8]));
    build_hist::<Native>(
        &bins, &leaf, &g, &h, &mut og, &mut oh, 4, 2, 2, 1, 8, f(1.0), 0, true, false, 4,
    );
    assert_eq!(&vs(&og)[0..4], &[0.0; 4]);
    let parent_g = fs(&[9.0, 6.0, 12.0, 3.0]);
    let parent_h = fs(&[2.0, 2.0, 2.0, 2.0]);
    subtract_even::<Native>(&mut og, &mut oh, &parent_g, &parent_h, 1, 2, 2);
    assert_eq!((vs(&og), vs(&oh)), (want_g, want_h));
}

#[test]
fn rows_are_drawn_for_histograms() {
    let n = 64usize;
    let bins = vec![0u8; n];
    let leaf = vec![0u32; n];
    let ones = fs(&[1.0; 64]);
    let (mut hg, mut hh) = (fs(&[0.0; 2]), fs(&[0.0; 2]));
    build_hist::<Native>(
        &bins, &leaf, &ones, &ones, &mut hg, &mut hh, 64, 1, 2, 1, 2, f(0.5), 11, false, false, 64,
    );
    let drawn = (0..64).filter(|&i| v(hash01::<Native>(i, 11)) < 0.5).count();
    assert_eq!(v(hg[0]), drawn as f32);
    assert!(drawn > 0 && drawn < 64);
    let (mut bg, mut bh) = (fs(&[0.0; 2]), fs(&[0.0; 2]));
    build_hist_smem::<Native>(
        &bins, &leaf, &ones, &ones, &mut bg, &mut bh, 64, 1, 2, 1, 2, f(0.5), 11, false, false, 64,
    );
    assert_eq!(vs(&bg), vs(&hg));
}

#[test]
fn replicas_are_folded() {
    let mut a = fs(&[1.0, 2.0, 10.0, 20.0, 100.0, 200.0]);
    reduce1::<Native, F64>(&mut a, 3, 2);
    assert_eq!(vs(&a), vec![111.0, 222.0, 10.0, 20.0, 100.0, 200.0]);
    let (mut p, mut q) = (fs(&[1.0, 2.0, 3.0, 4.0]), fs(&[5.0, 6.0, 7.0, 8.0]));
    prefix_scan::<Native>(&mut p, &mut q, 2, 2, 1);
    assert_eq!((vs(&p), vs(&q)), (vec![1.0, 3.0, 3.0, 7.0], vec![5.0, 11.0, 7.0, 15.0]));
}

#[test]
fn a_block_counts_its_bins() {
    let bins: Vec<u32> = (0..256).map(|i| i % 16).collect();
    let mut out = fs(&[0.0; 16]);
    smem_spike::<Native>(&bins, &mut out, 256, 16);
    assert_eq!(vs(&out), vec![16.0; 16]);
}

#[test]
fn splits_are_rated_and_chosen() {
    let hg = fs(&[-4.0, 0.0, 4.0, 1.0, -1.0, 0.0]);
    let hh = fs(&[2.0, 2.0, 2.0, 3.0, 3.0, 0.0]);
    let mut gains = fs(&[7.0; 6]);
    split_gain::<Native, F32>(
        &hg, &hh, &mut gains, 2, 3, 1, f(0.0), f(0.0), f(1.0), 0, &[0, 0],
    );
    assert_eq!(&vs(&gains)[0..2], &[12.0, 12.0]);
    assert_eq!(v(gains[2]), -1e30);
    assert_eq!(v(gains[5]), -1e30);
    let mut directed = fs(&[0.0; 6]);
    split_gain::<Native, F32>(
        &hg, &hh, &mut directed, 2, 3, 1, f(0.0), f(0.0), f(1.0), 0, &[1, 0],
    );
    assert_eq!(v(directed[0]), -1e30);
    split_gain::<Native, F64>(
        &hg, &hh, &mut directed, 2, 3, 1, f(0.0), f(0.0), f(1.0), 0, &[-1, 0],
    );
    assert_eq!(v(directed[0]), 12.0);
    let bounds = fs(&[0.5, 1.5, 10.0, 20.0]);
    let (mut feat, mut thr) = (vec![9u32; 2], fs(&[0.0; 2]));
    let mut split_ft = vec![0u32; 2];
    let (mut fi_gain, mut fi_count) = (fs(&[0.0; 2]), fs(&[0.0; 2]));
    argmax_split::<Native>(
        &gains, &bounds, &mut feat, &mut thr, &mut split_ft, &mut fi_gain, &mut fi_count, 1, 2, 3,
    );
    assert_eq!(split_ft, vec![0, 0]);
    assert_eq!(feat, vec![9, 0]);
    assert_eq!(v(thr[1]), 0.5);
    assert_eq!((v(fi_gain[0]), v(fi_count[0])), (12.0, 1.0));
}

#[test]
fn a_split_that_may_not_be_made_is_not_chosen() {
    let hg = fs(&[-4.0, 0.0, 4.0, 1.0, -1.0, 0.0]);
    let hh = fs(&[2.0, 2.0, 2.0, 3.0, 3.0, 0.0]);
    let bounds = fs(&[0.5, 1.5, 10.0, 20.0]);
    let mut gains = fs(&[0.0; 6]);
    split_gain::<Native, F32>(
        &hg, &hh, &mut gains, 2, 3, 1, f(1.0), f(0.0), f(1.0), 0, &[1, 0],
    );
    let (mut feat, mut thr) = (vec![9u32], fs(&[0.0]));
    let mut split_ft = vec![7u32; 2];
    let (mut fi_gain, mut fi_count) = (fs(&[0.0; 2]), fs(&[0.0; 2]));
    argmax_split::<Native>(
        &gains, &bounds, &mut feat, &mut thr, &mut split_ft, &mut fi_gain, &mut fi_count, 0, 2, 3,
    );
    assert_eq!((feat, split_ft), (vec![1], vec![1, 0]));
    assert_eq!(v(thr[0]), 10.0);
    assert_eq!((vs(&fi_gain), vs(&fi_count)), (vec![0.0, 0.5], vec![0.0, 1.0]));
}

#[test]
fn no_split_is_counted_where_none_is_feasible() {
    let gains = fs(&[-1e30; 4]);
    let (mut feat, mut thr) = (vec![9u32], fs(&[0.0]));
    let mut split_ft = vec![7u32; 2];
    let (mut fi_gain, mut fi_count) = (fs(&[0.0; 2]), fs(&[0.0; 2]));
    argmax_split::<Native>(
        &gains, &fs(&[3.0, 4.0]), &mut feat, &mut thr, &mut split_ft, &mut fi_gain, &mut fi_count,
        0, 2, 2,
    );
    assert_eq!((feat, split_ft), (vec![0], vec![0, 0]));
    assert_eq!(v(thr[0]), 3.0);
    assert_eq!(vs(&fi_count), vec![0.0, 0.0]);
}

#[test]
fn leaves_are_valued() {
    let leaf = vec![0u32, 1, 1];
    let g = fs(&[2.0, 3.0, 5.0]);
    let h = fs(&[1.0, 1.0, 1.0]);
    let (mut lg, mut lh, mut lg2) = (fs(&[0.0; 2]), fs(&[0.0; 2]), fs(&[0.0; 2]));
    leaf_hist::<Native>(
        &leaf, &g, &h, &mut lg, &mut lh, &mut lg2, 3, 2, 1, f(1.0), 0,
    );
    assert_eq!((vs(&lg), vs(&lh), vs(&lg2)), (vec![2.0, 8.0], vec![1.0, 2.0], vec![4.0, 34.0]));
    let (mut val, mut var) = (fs(&[9.0; 4]), fs(&[9.0; 4]));
    compute_leaf_values::<Native>(&lg, &lh, &lg2, &mut val, &mut var, 2, f(0.5), f(0.0), 2);
    assert_eq!(vs(&val), vec![9.0, 9.0, -1.0, -2.0]);
    assert_eq!(vs(&var), vec![9.0, 9.0, 0.0, 0.25]);
    let mut pred = fs(&[1.0, 1.0, 1.0]);
    update_pred::<Native>(&leaf, &val, 2, &mut pred, 3);
    assert_eq!(vs(&pred), vec![0.0, -1.0, -1.0]);
}

#[test]
fn rows_are_scored_by_a_launch() {
    let feat = vec![0u32, 1];
    let thr = fs(&[0.5, 2.0]);
    let val = fs(&[1.0, 2.0, 3.0, 4.0]);
    let x = fs(&[0.0, 3.0, 1.0, 1.0, 1.0, 3.0]);
    let mut out = fs(&[0.0; 3]);
    predict::<Native>(&x, &feat, &thr, &val, &mut out, 3, 2, 2, 1, f(10.0));
    assert_eq!(vs(&out), vec![12.0, 13.0, 14.0]);
    predict_var::<Native>(&x, &feat, &thr, &val, &mut out, 3, 2, 2, 1);
    assert_eq!(vs(&out), vec![2.0, 3.0, 4.0]);
}

#[test]
fn quantiles_of_the_normal_distribution() {
    assert!(w(norm_ppf::<Native>(d(0.5))).abs() < 1e-9);
    assert!((w(norm_ppf::<Native>(d(0.975))) - 1.959963984540054).abs() < 1e-8);
    assert!((w(norm_ppf::<Native>(d(0.01))) + 2.3263478740408408).abs() < 1e-8);
    assert!((w(norm_ppf::<Native>(d(0.999))) - 3.090232306167813).abs() < 1e-8);
}

#[test]
fn a_run_is_set_up() {
    assert_eq!(replica_count(64, 1000), 64);
    assert_eq!(replica_count(0, 1000), 1);
    assert_eq!(replica_count(64, 0x1000_0000), 3);
    assert_eq!(replica_count(64, 0x7000_0000), 1);
    assert_eq!(tree_seed(0), 0x9E37_79B9);
    assert_eq!(tree_seed(1), 1013904234);
    assert_eq!(all_directions(&[1, -1], 3), vec![1, -1, 0]);
    assert_eq!(all_directions(&[1, -1], 1), vec![1]);
    assert_eq!((tile_count(0), tile_count(8193), tile_count(u32::MAX)), (1, 2, 4096));
}

fn shape() -> Shape {
    Shape {
        n: 10,
        nf: 2,
        nb: 4,
        depth: 2,
        n_trees: 3,
        replicas: 1,
        logistic: false,
        clamp: false,
        goss: false,
        subtract: true,
        smem: false,
        half: false,
        integer: false,
    }
}

#[test]
fn a_tree_is_planned() {
    let plan = shape().plan_tree(1);
    let seed = tree_seed(1);
    assert_eq!(
        plan,
        vec![
            Launch::GradL2,
            Launch::ZeroLeaf,
            Launch::Mark(Category::Gradients),
            Launch::ZeroHist { side: Side::A, len: 8 },
            Launch::Mark(Category::ZeroHist),
            Launch::BuildHist { side: Side::A, hist_len: 8, seed, odd_only: false },
            Launch::Mark(Category::BuildHist),
            Launch::SplitGain { side: Side::A, groups: 1, seed },
            Launch::Mark(Category::SplitGain),
            Launch::ArgmaxSplit { k: 2 },
            Launch::Mark(Category::ArgmaxSplit),
            Launch::ApplySplit,
            Launch::Mark(Category::ApplySplit),
            Launch::ZeroHist { side: Side::B, len: 16 },
            Launch::Mark(Category::ZeroHist),
            Launch::BuildHist { side: Side::B, hist_len: 16, seed, odd_only: true },
            Launch::SubtractEven { side: Side::B, prev_groups: 1 },
            Launch::Mark(Category::BuildHist),
            Launch::SplitGain { side: Side::B, groups: 2, seed },
            Launch::Mark(Category::SplitGain),
            Launch::ArgmaxSplit { k: 3 },
            Launch::Mark(Category::ArgmaxSplit),
            Launch::ApplySplit,
            Launch::Mark(Category::ApplySplit),
            Launch::ZeroLeafSums { len: 4 },
            Launch::ZeroLeafSquares { len: 4 },
            Launch::LeafHist { seed },
            Launch::Mark(Category::LeafHist),
            Launch::LeafValues { base: 4 },
            Launch::Mark(Category::LeafValues),
            Launch::UpdatePred { base: 4 },
            Launch::Mark(Category::UpdatePred),
        ]
    );
}

#[test]
fn a_plan_follows_the_settings() {
    let mut s = shape();
    s.replicas = 3;
    s.clamp = true;
    s.goss = true;
    s.logistic = true;
    let plan = s.plan_tree(0);
    let seed = tree_seed(0);
    assert_eq!(
        &plan[0..9],
        &[
            Launch::GradLogistic,
            Launch::ClearStats,
            Launch::HessStats,
            Launch::HessClamp,
            Launch::ClearStats,
            Launch::GossStats,
            Launch::GossThresh,
            Launch::GossApply { seed: seed ^ 0x00A5_A5A5 },
            Launch::ZeroLeaf,
        ]
    );
    assert!(plan.contains(&Launch::ZeroHist { side: Side::A, len: 24 }));
    assert!(plan.contains(&Launch::ReduceHist { side: Side::B, hist_len: 16 }));
    assert!(plan.contains(&Launch::ReduceLeafSums));
    assert!(plan.contains(&Launch::ReduceLeafSquares));
    s.half = true;
    let plan = s.plan_tree(0);
    assert!(plan.contains(&Launch::ZeroHalf { len: 24 }));
    assert!(plan.contains(&Launch::ReduceHalf { side: Side::A, hist_len: 8 }));
    s.half = false;
    s.integer = true;
    let plan = s.plan_tree(0);
    assert!(plan.contains(&Launch::ZeroInt { len: 24 }));
    assert!(plan.contains(&Launch::ReduceInt { side: Side::A, hist_len: 8 }));
    s.smem = true;
    let plan = s.plan_tree(0);
    assert!(plan.contains(&Launch::ZeroHist { side: Side::A, len: 8 }));
    assert!(plan.contains(&Launch::BuildSmem {
        side: Side::A,
        groups: 1,
        tiles: 1,
        seed,
        odd_only: false,
    }));
    assert!(!plan.iter().any(|l| matches!(l, Launch::BuildInt { .. })));
}

/// Eight rows with two features: the first orders the labels, the second does not.
fn rows() -> Dataset {
    Dataset {
        n_train: 8,
        n_test: 2,
        n_features: 2,
        x_train: fs(&[
            1.0, 5.0, 2.0, 1.0, 3.0, 4.0, 4.0, 8.0, 5.0, 2.0, 6.0, 7.0, 7.0, 3.0, 8.0, 6.0,
        ]),
        y_train: fs(&[0.0, 0.0, 0.0, 0.0, 0.5, 0.5, 1.0, 1.0]),
        x_test: fs(&[1.0, 9.0, 9.0, 1.0]),
        y_test: fs(&[0.0, 1.0]),
    }
}

fn device_config() -> Config {
    let mut cfg = Config::default();
    cfg.objective = Objective::SquaredError;
    cfg.n_trees = 3;
    cfg.depth = 2;
    cfg.n_bins = 8;
    cfg.learning_rate = f(1.0);
    cfg.lambda = f(0.0009765625);
    cfg.replicas = 2;
    cfg
}

fn launched(cfg: Config, ds: &Dataset) -> Booster {
    let mut b = Booster::new(cfg);
    assert!(b.can_launch(ds));
    b.fit_inner::<Native, F32>(ds, true);
    assert!(b.can_predict());
    b
}

fn close(a: &[f32], b: &[f32]) -> bool {
    a.len() == b.len() && a.iter().zip(b).all(|(p, q)| (p - q).abs() < 5e-3)
}

#[test]
fn launches_fit_a_forest() {
    let ds = rows();
    let b = launched(device_config(), &ds);
    assert_eq!(b.feat[0], 0);
    let out = b.predict::<Native>(&ds.x_train, 8);
    assert!(close(&vs(&out), &vs(&ds.y_train)));
    assert_eq!(b.fi_gain.len(), 2);
    assert!(b.leafvar.is_empty());
}

#[test]
fn launched_scores_agree_with_the_host() {
    let ds = rows();
    let b = launched(device_config(), &ds);
    let mut host = fs(&[0.0; 8]);
    b.predict_cpu::<Native>(&ds.x_train, 8, &mut host);
    assert_eq!(b.predict::<Native>(&ds.x_train, 8), host);
}

#[test]
fn ways_to_build_histograms_agree() {
    let ds = rows();
    let plain = launched(device_config(), &ds);
    let mut settings: Vec<Config> = Vec::new();
    let mut cfg = device_config();
    cfg.subtract = false;
    settings.push(cfg);
    let mut cfg = device_config();
    cfg.smem_hist = true;
    settings.push(cfg);
    let mut cfg = device_config();
    cfg.int_hist = true;
    settings.push(cfg);
    let mut cfg = device_config();
    cfg.f16_hist = true;
    settings.push(cfg);
    let mut cfg = device_config();
    cfg.pack4 = true;
    settings.push(cfg);
    let mut cfg = device_config();
    cfg.replicas = 1;
    settings.push(cfg);
    for cfg in settings {
        let other = launched(cfg, &ds);
        assert_eq!(other.feat[0..2], plain.feat[0..2]);
        assert_eq!(vs(&other.thr[0..2]), vs(&plain.thr[0..2]));
        let a = vs(&other.predict::<Native>(&ds.x_train, 8));
        let b = vs(&plain.predict::<Native>(&ds.x_train, 8));
        assert!(close(&a, &b));
    }
}

#[test]
fn host_and_launches_fit_alike() {
    let ds = rows();
    let by_launch = launched(device_config(), &ds);
    let mut cfg = device_config();
    cfg.device = Device::Cpu;
    let mut host = Booster::new(cfg);
    host.fit_cpu::<Native>(&ds, 2);
    assert_eq!(host.feat[0..2], by_launch.feat[0..2]);
    assert_eq!(vs(&host.thr[0..2]), vs(&by_launch.thr[0..2]));
    assert!(close(&vs(&host.leafval[0..4]), &vs(&by_launch.leafval[0..4])));
}

#[test]
fn sampling_on_a_device_fits() {
    let ds = rows();
    let mut cfg = device_config();
    cfg.goss_top = f(0.5);
    cfg.goss_other = f(0.5);
    cfg.clamp_hessian = f(0.05);
    cfg.subsample = f(0.9);
    cfg.colsample = f(0.9);
    cfg.monotone = vec![1];
    let b = launched(cfg, &ds);
    assert_eq!(b.leafval.len(), 12);
}

#[test]
fn variances_give_deviations() {
    let ds = rows();
    let mut cfg = device_config();
    cfg.pgbm = true;
    cfg.depth = 1;
    cfg.n_trees = 1;
    let b = launched(cfg, &ds);
    assert_eq!(b.leafvar.len(), 2);
    let std = vs(&b.predict_std::<Native>(&ds.x_train, 8));
    assert_eq!(b.feat, vec![0]);
    assert_eq!(v(b.thr[0]), 4.0);
    assert_eq!(std, vec![0.0, 0.0, 0.0, 0.0, 0.25, 0.25, 0.25, 0.25]);
}

#[test]
fn launches_count_the_splits() {
    let ds = rows();
    let b = launched(device_config(), &ds);
    let (gain, count) = b.feature_importance();
    assert_eq!((gain.len(), count.len()), (ds.n_features, ds.n_features));
    for feature in 0..ds.n_features {
        let splits = b.feat.iter().filter(|&&g| g as usize == feature).count();
        assert_eq!(v(count[feature]), splits as f32);
    }
    let mut cfg = device_config();
    cfg.min_child_h = f(1e9);
    let none = launched(cfg, &ds);
    assert!(vs(none.feature_importance().1).iter().all(|&c| c == 0.0));
    assert!(vs(none.feature_importance().0).iter().all(|&g| g == 0.0));
    assert_eq!(none.feat.len(), none.cfg.n_trees * none.cfg.depth);
}

#[test]
fn launched_models_are_saved() {
    let ds = rows();
    let mut cfg = device_config();
    cfg.categorical = vec![1];
    let b = launched(cfg, &ds);
    match Booster::load_model(&b.save_model()) {
        Ok(back) => {
            let was = b.predict::<Native>(&ds.x_test, 2);
            assert_eq!(back.predict_host::<Native>(&ds.x_test, 2), was);
        }
        Err(e) => panic!("{e:?}"),
    }
}

#[test]
fn what_cannot_be_launched() {
    let ds = rows();
    let mut cfg = device_config();
    cfg.depth = 0;
    assert!(!Booster::new(cfg).can_launch(&ds));
    let mut cfg = device_config();
    cfg.n_trees = 0x8000_0000;
    assert!(!Booster::new(cfg).can_launch(&ds));
    let mut cfg = device_config();
    cfg.depth = 31;
    assert!(!Booster::new(cfg).can_launch(&ds));
    let mut cfg = device_config();
    cfg.categorical = vec![2];
    assert!(!Booster::new(cfg).can_launch(&ds));
}

#[test]
fn times_are_kept_by_category() {
    let mut t = Timings::new();
    t.mark(Category::BuildHist, 5);
    t.mark(Category::Gradients, 1);
    t.mark(Category::BuildHist, 7);
    let p = t.profile(20);
    assert_eq!(p.per_category_ns.len(), 9);
    assert_eq!(p.per_category_ns[2], ("build_hist".to_string(), 12));
    assert_eq!(CATEGORIES[8], "update_pred");
    assert_eq!(Category::ArgmaxSplit.name(), "argmax_split");
    let text = p.to_json();
    assert!(text.starts_with("{\n  \"total_ns\": 20,\n  \"categories\": {\n    \"gradients\": 1,\n"));
    assert!(text.ends_with("    \"update_pred\": 0\n  }\n}\n"));
}

#[test]
fn half_precision_rounds_to_nearest() {
    for (x, bits) in [(1.0, 0x3C00), (-2.0, 0xC000), (65504.0, 0x7BFF), (1e6, 0x7C00), (0.0, 0)] {
        assert_eq!(Native::shorten(f(x)), F16 { bits });
    }
    assert_eq!(v(Native::lengthen(F16 { bits: 0x3555 })), 0.333251953125);
    assert_eq!(v(Native::lengthen(F16 { bits: 1 })), 2.0f32.powi(-24));
    let sum = Native::add16(F16 { bits: to_half(2048.0) }, F16 { bits: to_half(1.0) });
    assert_eq!(from_half(sum.bits), 2048.0);
}

#[test]
fn half_precision_needs_a_device_that_has_it() {
    let ds = rows();
    let mut cfg = device_config();
    cfg.f16_hist = true;
    let mut b = Booster::new(cfg);
    assert!(!b.device_job::<Native>(&ds, false).shape.half);
    assert!(b.device_job::<Native>(&ds, true).shape.half);
}
