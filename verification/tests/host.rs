use rustwood::arith::Arith;
use rustwood::binning::bin_matrix;
use rustwood::binning::find_bin;
use rustwood::booster::base_score_of;
use rustwood::booster::Booster;
use rustwood::booster::Fitted;
use rustwood::config::Config;
use rustwood::config::ConfigError;
use rustwood::config::Device;
use rustwood::config::Objective;
use rustwood::config::FLAGS;
use rustwood::cpu::thread_count;
use rustwood::cpu::train;
use rustwood::data::compute_boundaries;
use rustwood::data::Dataset;
use rustwood::encoding::fit_transform_train;
use rustwood::encoding::key_of;
use rustwood::encoding::transform;
use rustwood::float::F16;
use rustwood::float::F32;
use rustwood::float::F64;
use rustwood::histogram::build_hist;
use rustwood::leaf::compute_leaf_values;
use rustwood::metrics::accuracy;
use rustwood::metrics::auc;
use rustwood::metrics::logloss;
use rustwood::metrics::mae;
use rustwood::metrics::r2;
use rustwood::metrics::rmse;
use rustwood::model::ModelError;
use rustwood::objective::derivatives;
use rustwood::order::sort_order;
use rustwood::report::count_covered;
use rustwood::report::counts_match;
use rustwood::report::coverage;
use rustwood::report::gain_share;
use rustwood::report::max_difference;
use rustwood::report::mean_deviation;
use rustwood::report::top_features;
use rustwood::report::total_gain;
use rustwood::sampling::goss_sample;
use rustwood::sampling::strided_rows;
use rustwood::split::best_split;

/// The arithmetic of the machine.
struct Native;

fn f(v: f32) -> F32 {
    F32 { bits: v.to_bits() }
}

fn d(v: f64) -> F64 {
    F64 { bits: v.to_bits() }
}

fn v(a: F32) -> f32 {
    f32::from_bits(a.bits)
}

fn w(a: F64) -> f64 {
    f64::from_bits(a.bits)
}

fn fs(vals: &[f32]) -> Vec<F32> {
    vals.iter().map(|&x| f(x)).collect()
}

fn vs(vals: &[F32]) -> Vec<f32> {
    vals.iter().map(|&x| v(x)).collect()
}

/// The pattern in half precision that is nearest to a number.
fn to_half(x: f32) -> u16 {
    let bits = x.to_bits();
    let sign = ((bits >> 16) & 0x8000) as u16;
    let exponent = ((bits >> 23) & 0xFF) as i32 - 112;
    let fraction = bits & 0x7F_FFFF;
    if exponent == 143 {
        return sign | 0x7C00 | if fraction > 0 { 0x200 } else { 0 };
    }
    if exponent >= 31 {
        return sign | 0x7C00;
    }
    if exponent < -10 {
        return sign;
    }
    let (whole, shift) = if exponent <= 0 {
        (fraction | 0x80_0000, (14 - exponent) as u32)
    } else {
        (((exponent as u32) << 23) | fraction, 13)
    };
    let low = whole & ((1 << shift) - 1);
    let mut half = whole >> shift;
    let middle = 1u32 << (shift - 1);
    if low > middle || (low == middle && half & 1 == 1) {
        half += 1;
    }
    sign | half as u16
}

/// The number that a pattern in half precision stands for.
fn from_half(bits: u16) -> f32 {
    let sign = if bits & 0x8000 == 0 { 1.0 } else { -1.0 };
    let exponent = ((bits >> 10) & 0x1F) as i32;
    let fraction = (bits & 0x3FF) as f32;
    if exponent == 31 {
        if fraction > 0.0 { f32::NAN } else { sign * f32::INFINITY }
    } else if exponent == 0 {
        sign * fraction * 2.0f32.powi(-24)
    } else {
        sign * (fraction + 1024.0) * 2.0f32.powi(exponent - 25)
    }
}

impl Arith for Native {
    fn add16(a: F16, b: F16) -> F16 {
        F16 { bits: to_half(from_half(a.bits) + from_half(b.bits)) }
    }

    fn add32(a: F32, b: F32) -> F32 {
        f(v(a) + v(b))
    }

    fn sub32(a: F32, b: F32) -> F32 {
        f(v(a) - v(b))
    }

    fn mul32(a: F32, b: F32) -> F32 {
        f(v(a) * v(b))
    }

    fn div32(a: F32, b: F32) -> F32 {
        f(v(a) / v(b))
    }

    fn exp32(a: F32) -> F32 {
        f(v(a).exp())
    }

    fn ln32(a: F32) -> F32 {
        f(v(a).ln())
    }

    fn sqrt32(a: F32) -> F32 {
        f(v(a).sqrt())
    }

    fn add64(a: F64, b: F64) -> F64 {
        d(w(a) + w(b))
    }

    fn sub64(a: F64, b: F64) -> F64 {
        d(w(a) - w(b))
    }

    fn mul64(a: F64, b: F64) -> F64 {
        d(w(a) * w(b))
    }

    fn div64(a: F64, b: F64) -> F64 {
        d(w(a) / w(b))
    }

    fn exp64(a: F64) -> F64 {
        d(w(a).exp())
    }

    fn ln64(a: F64) -> F64 {
        d(w(a).ln())
    }

    fn sqrt64(a: F64) -> F64 {
        d(w(a).sqrt())
    }

    fn shorten(a: F32) -> F16 {
        F16 { bits: to_half(v(a)) }
    }

    fn lengthen(a: F16) -> F32 {
        f(from_half(a.bits))
    }

    fn widen(a: F32) -> F64 {
        d(v(a) as f64)
    }

    fn narrow(a: F64) -> F32 {
        f(w(a) as f32)
    }

    fn count32(a: u64) -> F32 {
        f(a as f32)
    }

    fn count64(a: u64) -> F64 {
        d(a as f64)
    }

    fn integer32(a: i32) -> F32 {
        f(a as f32)
    }

    fn parse32(text: &str) -> Option<F32> {
        text.parse::<f32>().ok().map(f)
    }
}

/// Four rows with one feature, whose labels step from zero to one.
fn steps() -> Dataset {
    Dataset {
        n_train: 4,
        n_test: 2,
        n_features: 1,
        x_train: fs(&[1.0, 2.0, 3.0, 4.0]),
        y_train: fs(&[0.0, 0.0, 1.0, 1.0]),
        x_test: fs(&[1.5, 3.5]),
        y_test: fs(&[0.0, 1.0]),
    }
}

/// Eight rows with two features: the first orders the labels, the second does not.
fn rows() -> Dataset {
    Dataset {
        n_train: 8,
        n_test: 2,
        n_features: 2,
        x_train: fs(&[
            1.0, 5.0, 2.0, 1.0, 3.0, 4.0, 4.0, 8.0, 5.0, 2.0, 6.0, 7.0, 7.0, 3.0, 8.0, 6.0,
        ]),
        y_train: fs(&[0.0, 0.0, 0.0, 0.0, 4.0, 4.0, 8.0, 8.0]),
        x_test: fs(&[1.0, 9.0, 9.0, 1.0]),
        y_test: fs(&[0.0, 8.0]),
    }
}

fn host_config(objective: Objective) -> Config {
    let mut cfg = Config::default();
    cfg.device = Device::Cpu;
    cfg.objective = objective;
    cfg.n_trees = 1;
    cfg.depth = 1;
    cfg.n_bins = 4;
    cfg.learning_rate = f(1.0);
    cfg.lambda = f(0.0);
    cfg
}

fn scores_of(b: &Booster, ds: &Dataset) -> Vec<f32> {
    let mut out = vec![f(0.0); ds.n_train];
    b.predict_cpu::<Native>(&ds.x_train, ds.n_train, &mut out);
    vs(&out)
}

#[test]
fn numbers_compare_as_floats_do() {
    assert!(f(-1.0).less(f(2.0)));
    assert!(!f(2.0).less(f(2.0)));
    assert!(f(2.0).not_less(f(2.0)));
    assert!(f(0.0).same(f(-0.0)));
    assert!(!f(f32::NAN).less(f(1.0)));
    assert!(!f(f32::NAN).same(f(f32::NAN)));
    assert!(f(f32::NAN).is_nan());
    assert!(!f(f32::INFINITY).is_nan());
    assert_eq!(v(f(-3.5).abs()), 3.5);
    assert_eq!(v(f(3.5).neg()), -3.5);
    assert_eq!(v(f(f32::NAN).max(f(1.0))), 1.0);
    assert_eq!(v(f(1.0).max(f(f32::NAN))), 1.0);
    assert_eq!(v(f(5.0).clamp(f(0.0), f(1.0))), 1.0);
    assert_eq!(v(f(-5.0).clamp(f(0.0), f(1.0))), 0.0);
}

#[test]
fn numbers_round_half_away_from_zero() {
    assert_eq!(f(2.5).round_i64(), 3);
    assert_eq!(f(-2.5).round_i64(), -3);
    assert_eq!(f(2.4).round_i64(), 2);
    assert_eq!(f(0.49999997).round_i64(), 0);
    assert_eq!(f(f32::NAN).round_i64(), 0);
    assert_eq!(f(f32::INFINITY).round_i64(), i64::MAX);
    assert_eq!(f(f32::NEG_INFINITY).round_i64(), i64::MIN);
    assert_eq!(d(2.5).round_usize(), 3);
    assert_eq!(d(-2.5).round_usize(), 0);
    assert_eq!(d(2.9).to_usize(), 2);
    assert_eq!(d(f64::NAN).to_usize(), 0);
}

#[test]
fn order_is_stable() {
    assert_eq!(sort_order(&fs(&[3.0, 1.0, 2.0, 1.0])), vec![1, 3, 2, 0]);
    assert_eq!(sort_order(&fs(&[])), Vec::<usize>::new());
}

#[test]
fn boundaries_are_quantiles() {
    let x = fs(&[30.0, 10.0, 50.0, 20.0, 40.0]);
    let b = compute_boundaries::<Native>(&x, 5, 1, 4, 100, false);
    assert_eq!(vs(&b), vec![20.0, 30.0, 40.0]);
}

#[test]
fn boundaries_ascend_with_heavy_ties() {
    let x = fs(&[1.0, 1.0, 1.0, 1.0, 1.0, 2.0]);
    let b = vs(&compute_boundaries::<Native>(&x, 6, 1, 8, 100, false));
    assert_eq!(b, vec![1.0, 1.0, 1.0, 1.0, 1.0, 1.0, 1.0]);
}

#[test]
fn boundaries_between_distinct_values() {
    let x = fs(&[1.0, 0.0, 2.0, 1.0]);
    let b = compute_boundaries::<Native>(&x, 4, 1, 4, 100, true);
    assert_eq!(vs(&b), vec![0.5, 1.5, f32::INFINITY]);
    let same = compute_boundaries::<Native>(&fs(&[7.0, 7.0]), 2, 1, 3, 100, true);
    assert_eq!(vs(&same), vec![f32::INFINITY, f32::INFINITY]);
    let many = fs(&[0.0, 1.0, 2.0, 3.0, 4.0, 5.0, 6.0, 7.0]);
    let b = compute_boundaries::<Native>(&many, 8, 1, 3, 100, true);
    assert_eq!(vs(&b), vec![2.5, 4.5]);
}

#[test]
fn boundaries_use_a_strided_sample() {
    let x = fs(&[1.0, 100.0, 2.0, 200.0, 3.0, 300.0]);
    let b = compute_boundaries::<Native>(&x, 6, 1, 3, 3, false);
    assert_eq!(vs(&b), vec![2.0, 2.0]);
}

#[test]
fn bins_split_at_boundaries() {
    let bounds = fs(&[20.0, 30.0, 40.0]);
    for (value, bin) in [(10.0, 0), (20.0, 0), (20.5, 1), (30.0, 1), (35.0, 2), (99.0, 3)] {
        assert_eq!(find_bin(&bounds, f(value)), bin);
        for t in 0..3 {
            assert_eq!(bin > t, v(bounds[t]) < value);
        }
    }
    let bins = bin_matrix(&fs(&[5.0, 25.0, 45.0]), 1, &bounds, 3);
    assert_eq!(bins, vec![0, 1, 3]);
}

#[test]
fn derivatives_of_both_objectives() {
    let (g, h) = derivatives::<Native>(false, &fs(&[0.5, 2.0]), &fs(&[1.0, 0.0]));
    assert_eq!(vs(&g), vec![-0.5, 2.0]);
    assert_eq!(vs(&h), vec![1.0, 1.0]);
    let (g, h) = derivatives::<Native>(true, &fs(&[0.0, -40.0]), &fs(&[1.0, 0.0]));
    assert_eq!(v(g[0]), -0.5);
    assert_eq!(v(h[0]), 0.25);
    assert_eq!(v(h[1]), 1e-6);
}

#[test]
fn start_score_of_both_objectives() {
    let y = fs(&[0.0, 1.0, 1.0, 1.0]);
    assert_eq!(v(base_score_of::<Native>(&y, 4, Objective::SquaredError)), 0.75);
    assert_eq!(v(base_score_of::<Native>(&y, 4, Objective::Logistic)), 3.0f32.ln());
    let ones = fs(&[1.0, 1.0]);
    assert_eq!(v(base_score_of::<Native>(&ones, 2, Objective::SquaredError)), 1.0 - 1e-6);
    let none = fs(&[0.0, 0.0]);
    assert_eq!(v(base_score_of::<Native>(&none, 2, Objective::SquaredError)), 1e-6);
}

#[test]
fn histogram_adds_up_by_node_feature_and_bin() {
    let bins: Vec<u8> = vec![0, 1, 1, 0, 1, 1];
    let node: Vec<u32> = vec![0, 1, 1];
    let g = fs(&[1.0, 2.0, 4.0]);
    let h = fs(&[10.0, 20.0, 40.0]);
    let rows: Vec<u32> = vec![0, 1, 2];
    for nt in [1, 2, 5] {
        let hist = build_hist::<Native>(&rows, nt, 2, 2, 2, &node, &g, &h, &bins, false);
        assert_eq!(
            vs(&hist),
            vec![
                1.0, 10.0, 0.0, 0.0, 0.0, 0.0, 1.0, 10.0, 0.0, 0.0, 6.0, 60.0, 2.0, 20.0, 4.0, 40.0
            ]
        );
    }
    let odd = build_hist::<Native>(&rows, 2, 1, 2, 2, &node, &g, &h, &bins, true);
    assert_eq!(vs(&odd), vec![0.0, 0.0, 6.0, 60.0, 2.0, 20.0, 4.0, 40.0]);
}

#[test]
fn best_split_has_the_largest_gain() {
    let hist = fs(&[-4.0, 2.0, 0.0, 2.0, 4.0, 2.0, 1.0, 3.0, -1.0, 3.0, 0.0, 0.0]);
    let (gain, feature, bin) = best_split::<Native>(&hist, 1, 2, 3, d(0.0), d(0.0));
    assert_eq!((feature, bin), (0, 0));
    assert_eq!(w(gain), 8.0 + 4.0);
    let (gain, feature, bin) = best_split::<Native>(&hist, 1, 2, 3, d(0.0), d(3.0));
    assert_eq!((feature, bin), (1, 0));
    assert_eq!(w(gain), 1.0 / 3.0 + 1.0 / 3.0);
}

#[test]
fn leaf_values_are_newton_steps() {
    let rows: Vec<u32> = vec![0, 1, 2];
    let node: Vec<u32> = vec![0, 1, 1];
    let g = fs(&[2.0, 3.0, 5.0]);
    let h = fs(&[1.0, 1.0, 2.0]);
    let values = compute_leaf_values::<Native>(&rows, 2, 2, &node, &g, &h, d(0.5), d(1.0));
    assert_eq!(vs(&values), vec![-0.5, -1.0]);
}

#[test]
fn gradient_sampling_keeps_the_largest() {
    let before = [5.0f32, -4.0, 0.5, 0.25, -0.125, 3.0, 0.0625, 0.03125];
    let mut g = fs(&before);
    let mut h = fs(&[0.5; 8]);
    let mut out: Vec<u32> = Vec::new();
    goss_sample::<Native>(&mut g, &mut h, d(0.375), d(0.25), 7, &mut out);
    for top in [0u32, 1, 5] {
        assert!(out.contains(&top));
        assert_eq!(v(g[top as usize]), before[top as usize]);
        assert_eq!(v(h[top as usize]), 0.5);
    }
    let factor = 2.5f32;
    for r in 0..8u32 {
        if ![0, 1, 5].contains(&r) {
            let i = r as usize;
            let weight = if out.contains(&r) { factor } else { 1.0 };
            assert_eq!(v(g[i]), before[i] * weight);
            assert_eq!(v(h[i]), 0.5 * weight);
        }
    }
    for k in 1..out.len() {
        assert!(out[k - 1] < out[k]);
    }
}

#[test]
fn gradient_sampling_of_everything_or_nothing_else() {
    let mut g = fs(&[1.0, 0.5, 0.25, 0.125]);
    let mut h = fs(&[1.0; 4]);
    let mut out: Vec<u32> = Vec::new();
    goss_sample::<Native>(&mut g, &mut h, d(0.5), d(0.5), 3, &mut out);
    assert_eq!(out, vec![0, 1, 2, 3]);
    goss_sample::<Native>(&mut g, &mut h, d(0.5), d(0.0), 3, &mut out);
    assert_eq!(out, vec![0, 1]);
}

#[test]
fn strided_rows_skip() {
    assert_eq!(strided_rows(1, 3, 8), vec![1, 4, 7]);
    assert_eq!(strided_rows(9, 3, 8), Vec::<u32>::new());
}

#[test]
fn threads_by_request_or_by_cores() {
    assert_eq!(thread_count(Some(7), 2), 7);
    assert_eq!(thread_count(Some(0), 2), 2);
    assert_eq!(thread_count(None, 16), 16);
    assert_eq!(thread_count(None, 24), 12);
    assert_eq!(thread_count(None, 200), 32);
    assert_eq!(thread_count(None, 0), 1);
}

#[test]
fn one_tree_fits_a_step() {
    let ds = steps();
    let mut b = Booster::new(host_config(Objective::SquaredError));
    assert!(b.can_fit(&ds, 2));
    assert_eq!(b.fit::<Native>(&ds, 2), Fitted::OnHost);
    assert_eq!(v(b.base_score()), 0.5);
    assert_eq!(b.feat, vec![0]);
    assert_eq!(vs(&b.thr), vec![2.0]);
    assert_eq!(vs(&b.leafval), vec![-0.5, 0.5]);
    assert_eq!(scores_of(&b, &ds), vec![0.0, 0.0, 1.0, 1.0]);
    let (gain, count) = b.feature_importance();
    assert_eq!(vs(gain), vec![1.0]);
    assert_eq!(vs(count), vec![1.0]);
}

#[test]
fn two_levels_reach_all_leaves() {
    let ds = rows();
    for subtract in [false, true] {
        for nt in [1, 3] {
            let mut cfg = host_config(Objective::SquaredError);
            cfg.depth = 2;
            cfg.n_trees = 3;
            cfg.n_bins = 8;
            cfg.lambda = f(1e-6);
            cfg.subtract = subtract;
            let mut b = Booster::new(cfg);
            b.fit_cpu::<Native>(&ds, nt);
            assert_eq!(b.feat.len(), 6);
            assert_eq!(b.leafval.len(), 12);
            assert_eq!(b.feat[0], 0);
            let got = scores_of(&b, &ds);
            for (p, y) in got.iter().zip(vs(&ds.y_train)) {
                assert!((p - y).abs() < 1e-3);
            }
        }
    }
}

#[test]
fn fitted_scores_are_those_of_the_forest() {
    let ds = rows();
    let mut cfg = host_config(Objective::Logistic);
    cfg.depth = 3;
    cfg.n_trees = 5;
    cfg.n_bins = 8;
    cfg.learning_rate = f(0.3);
    cfg.lambda = f(1.0);
    let bounds = compute_boundaries::<Native>(&ds.x_train, 8, 2, 8, 100, false);
    let labels = fs(&[0.0, 0.0, 1.0, 0.0, 1.0, 1.0, 1.0, 1.0]);
    let fit = train::<Native>(&ds.x_train, &labels, 8, 2, &bounds, f(0.25), &cfg, 2);
    let mut b = Booster::new(cfg);
    b.n_features = 2;
    b.base_score = f(0.25);
    b.feat = fit.feat;
    b.thr = fit.thr;
    b.leafval = fit.leafval;
    assert!(b.can_predict());
    let got = scores_of(&b, &ds);
    for i in 0..8 {
        let mut score = 0.25f32;
        for t in 0..5 {
            let mut leaf = 0usize;
            for level in 0..3 {
                let k = t * 3 + level;
                let x = v(ds.x_train[i * 2 + b.feat[k] as usize]);
                leaf = leaf * 2 + usize::from(x > v(b.thr[k]));
            }
            score += v(b.leafval[t * 8 + leaf]);
        }
        assert_eq!(got[i], score);
    }
    let right = got.iter().zip(vs(&labels)).filter(|(s, y)| (**s > 0.0) == (*y > 0.5)).count();
    assert!(right >= 7);
}

#[test]
fn exact_sums_grow_one_tree() {
    let ds = rows();
    let mut cfg = host_config(Objective::SquaredError);
    cfg.depth = 3;
    cfg.n_bins = 8;
    cfg.lambda = f(1.0);
    cfg.subtract = false;
    let bounds = compute_boundaries::<Native>(&ds.x_train, 8, 2, 8, 100, false);
    let built = train::<Native>(&ds.x_train, &ds.y_train, 8, 2, &bounds, f(3.0), &cfg, 1);
    cfg.subtract = true;
    for nt in [1usize, 2, 3, 8, 11] {
        let derived = train::<Native>(&ds.x_train, &ds.y_train, 8, 2, &bounds, f(3.0), &cfg, nt);
        assert_eq!(derived.feat, built.feat);
        assert_eq!(vs(&derived.thr), vs(&built.thr));
        assert_eq!(vs(&derived.leafval), vs(&built.leafval));
        assert_eq!(vs(&derived.fi_gain), vs(&built.fi_gain));
    }
}

#[test]
fn strided_rows_are_used_for_a_share_of_rows() {
    let ds = steps();
    let mut cfg = host_config(Objective::SquaredError);
    cfg.subsample = f(0.5);
    let mut b = Booster::new(cfg);
    b.fit_cpu::<Native>(&ds, 1);
    assert_eq!(vs(&b.leafval), vec![-0.5, 0.5]);
}

#[test]
fn gradient_sampling_fits() {
    let ds = rows();
    let mut cfg = host_config(Objective::SquaredError);
    cfg.goss_top = f(0.5);
    cfg.goss_other = f(0.5);
    cfg.n_bins = 8;
    let mut b = Booster::new(cfg);
    b.fit_cpu::<Native>(&ds, 2);
    assert!(b.can_predict());
    assert_eq!(b.feat, vec![0]);
}

#[test]
fn a_device_is_asked_for() {
    let ds = steps();
    let mut cfg = host_config(Objective::SquaredError);
    cfg.device = Device::Gpu;
    let mut b = Booster::new(cfg);
    assert_eq!(b.fit::<Native>(&ds, 1), Fitted::NeedsDevice);
    assert!(b.feat.is_empty());
}

#[test]
fn what_cannot_be_fitted() {
    let ds = steps();
    let ok = host_config(Objective::SquaredError);
    assert!(!Booster::new(ok.clone()).can_fit(&ds, 0));
    let mut cfg = ok.clone();
    cfg.n_bins = 1;
    assert!(!Booster::new(cfg).can_fit(&ds, 1));
    let mut cfg = ok.clone();
    cfg.depth = 32;
    assert!(!Booster::new(cfg).can_fit(&ds, 1));
    let mut cfg = ok.clone();
    cfg.categorical = vec![1];
    assert!(!Booster::new(cfg).can_fit(&ds, 1));
    let mut short = steps();
    short.x_train.pop();
    assert!(!Booster::new(ok).can_fit(&short, 1));
}

#[test]
fn categories_are_encoded_out_of_fold() {
    let mut x = fs(&[1.0, 1.0, 2.0, 1.0]);
    let y = fs(&[1.0, 0.0, 1.0, 1.0]);
    let (enc, gmean) = fit_transform_train::<Native>(&mut x, 4, 1, &y, &[0], f(1.0), 2, 0);
    assert_eq!(v(gmean), 0.75);
    assert_eq!(v(enc[0][&1]), 2.75 / 4.0);
    assert_eq!(v(enc[0][&2]), 1.75 / 2.0);
    assert_eq!(v(x[0]), (1.0 + 0.75) / 3.0);
    assert_eq!(v(x[1]), (1.0 + 0.75) / 2.0);
    assert_eq!(v(x[2]), 0.75);
    assert_eq!(v(x[3]), (1.0 + 0.75) / 2.0);
}

#[test]
fn a_row_does_not_see_the_labels_of_its_fold() {
    let codes = fs(&[1.0, 1.0, 1.0, 1.0, 1.0, 1.0]);
    let mut first = codes.clone();
    let mut second = codes.clone();
    let y1 = fs(&[1.0, 0.0, 1.0, 0.0, 1.0, 1.0]);
    let y2 = fs(&[0.0, 0.0, 1.0, 1.0, 1.0, 1.0]);
    fit_transform_train::<Native>(&mut first, 6, 1, &y1, &[0], f(0.0), 3, 0);
    fit_transform_train::<Native>(&mut second, 6, 1, &y2, &[0], f(0.0), 3, 0);
    assert_eq!(v(first[0]), v(second[0]));
    assert_eq!(v(first[3]), v(second[3]));
}

#[test]
fn no_column_of_a_row_sees_the_labels_of_its_fold() {
    let codes = fs(&[
        1.0, 0.5, 3.0, 1.0, 0.5, 3.0, 2.0, 0.5, 3.0, 1.0, 0.5, 4.0, 2.0, 0.5, 4.0, 1.0, 0.5, 4.0,
    ]);
    let mut first = codes.clone();
    let mut second = codes.clone();
    let y1 = fs(&[5.0, 2.0, 7.0, 1.0, 3.0, 8.0]);
    let y2 = fs(&[2.0, 2.0, 7.0, 4.0, 3.0, 8.0]);
    fit_transform_train::<Native>(&mut first, 6, 3, &y1, &[2, 0], f(1.0), 3, 0);
    fit_transform_train::<Native>(&mut second, 6, 3, &y2, &[2, 0], f(1.0), 3, 0);
    assert_eq!(first[0..3], second[0..3]);
    assert_eq!(first[9..12], second[9..12]);
    assert!(first[3..9] != second[3..9]);
    for i in 0..6 {
        assert_eq!(v(first[3 * i + 1]), 0.5);
    }
}

#[test]
fn keys_of_categories() {
    assert_eq!(key_of(f(2.4), 0), 2);
    assert_eq!(key_of(f(-2.5), 0), -3);
    assert_eq!(key_of(f(2.4), 10), key_of(f(1.5), 10));
    for buckets in [1u64, 7, 1 << 40, 1 << 63] {
        for code in [0.0f32, 3.0, -1.0, 1e9] {
            let key = key_of(f(code), buckets);
            assert!(key >= 0 && (key as u64) < buckets);
        }
    }
}

#[test]
fn unseen_categories_get_the_mean() {
    let mut x = fs(&[1.0, 3.0, 1.0, 4.0]);
    let y = fs(&[0.0, 1.0]);
    let (enc, gmean) = fit_transform_train::<Native>(&mut x, 2, 2, &y, &[1], f(0.0), 5, 0);
    let mut fresh = fs(&[9.0, 4.0, 9.0, 77.0]);
    transform(&mut fresh, 2, 2, &[1], &enc, gmean, 0);
    assert_eq!(vs(&fresh), vec![9.0, 1.0, 9.0, 0.5]);
}

#[test]
fn buckets_bound_the_categories() {
    let codes: Vec<f32> = (0..40).map(|c| c as f32).collect();
    let mut x = fs(&codes);
    let y = fs(&[1.0; 40]);
    let (enc, _) = fit_transform_train::<Native>(&mut x, 40, 1, &y, &[0], f(1.0), 5, 4);
    assert!(enc[0].len() <= 4);
    for key in enc[0].keys() {
        assert!((0..4).contains(key));
    }
}

#[test]
fn categorical_models_score_encoded_rows() {
    let mut ds = steps();
    ds.x_train = fs(&[7.0, 7.0, 9.0, 9.0]);
    ds.x_test = fs(&[7.0, 9.0]);
    let mut cfg = host_config(Objective::SquaredError);
    cfg.categorical = vec![0];
    cfg.te_smoothing = f(0.0);
    let mut b = Booster::new(cfg);
    b.fit_cpu::<Native>(&ds, 1);
    assert!(b.can_predict());
    let out = vs(&b.predict_host::<Native>(&ds.x_test, 2));
    assert_eq!(out, vec![0.0, 1.0]);
}

#[test]
fn saved_models_score_alike() {
    let mut ds = rows();
    ds.x_train = fs(&[
        1.0, 5.0, 2.0, 1.0, 1.0, 4.0, 2.0, 8.0, 3.0, 2.0, 3.0, 7.0, 4.0, 3.0, 4.0, 6.0,
    ]);
    let mut cfg = host_config(Objective::Logistic);
    cfg.categorical = vec![0];
    cfg.cat_hash_buckets = 16;
    cfg.depth = 2;
    cfg.n_trees = 4;
    cfg.n_bins = 8;
    let mut b = Booster::new(cfg);
    b.fit_cpu::<Native>(&ds, 2);
    let bytes = b.save_model();
    assert_eq!(&bytes[0..4], b"RWD1");
    match Booster::load_model(&bytes) {
        Ok(back) => {
            assert_eq!(back.n_features, 2);
            assert_eq!(back.config().n_trees, 4);
            assert_eq!(back.config().depth, 2);
            assert_eq!(back.config().objective, Objective::Logistic);
            assert_eq!(back.config().device, Device::Cpu);
            assert_eq!(back.config().categorical, vec![0]);
            assert_eq!(back.config().cat_hash_buckets, 16);
            let was = b.predict_host::<Native>(&ds.x_train, 8);
            assert_eq!(back.predict_host::<Native>(&ds.x_train, 8), was);
        }
        Err(e) => panic!("{e:?}"),
    }
}

#[test]
fn cut_models_are_refused() {
    let mut ds = rows();
    ds.x_train = fs(&[
        1.0, 5.0, 2.0, 1.0, 1.0, 4.0, 2.0, 8.0, 3.0, 2.0, 3.0, 7.0, 4.0, 3.0, 4.0, 6.0,
    ]);
    let mut cfg = host_config(Objective::Logistic);
    cfg.categorical = vec![0];
    cfg.depth = 2;
    let mut b = Booster::new(cfg);
    b.fit_cpu::<Native>(&ds, 1);
    let bytes = b.save_model();
    for k in 0..bytes.len() {
        match Booster::load_model(&bytes[0..k]) {
            Err(e) => assert_eq!(e, ModelError::UnexpectedEof),
            Ok(_) => panic!("accepted {k} bytes"),
        }
    }
    assert!(Booster::load_model(&bytes).is_ok());
}

#[test]
fn importance_counts_the_splits() {
    let ds = rows();
    let mut cfg = host_config(Objective::SquaredError);
    cfg.depth = 3;
    cfg.n_trees = 4;
    cfg.n_bins = 8;
    cfg.lambda = f(1.0);
    let mut b = Booster::new(cfg);
    b.fit_cpu::<Native>(&ds, 2);
    let (gain, count) = b.feature_importance();
    assert_eq!((gain.len(), count.len()), (2, 2));
    for feature in 0..2u32 {
        let splits = b.feat.iter().filter(|&&g| g == feature).count();
        assert_eq!(v(count[feature as usize]), splits as f32);
    }
    assert_eq!(vs(count).iter().sum::<f32>(), 12.0);
    assert_eq!((b.feat.len(), b.thr.len(), b.leafval.len()), (12, 12, 32));
}

#[test]
fn thresholds_are_boundaries_of_their_features() {
    let ds = rows();
    let mut cfg = host_config(Objective::SquaredError);
    cfg.depth = 3;
    cfg.n_bins = 8;
    let bounds = compute_boundaries::<Native>(&ds.x_train, 8, 2, 8, 100, false);
    let fit = train::<Native>(&ds.x_train, &ds.y_train, 8, 2, &bounds, f(3.0), &cfg, 2);
    for k in 0..3 {
        let first = fit.feat[k] as usize * 7;
        assert!(bounds[first..first + 7].contains(&fit.thr[k]));
    }
}

#[test]
fn boundaries_do_not_depend_on_the_order_of_rows() {
    let x = fs(&[1.0, 5.0, 2.0, -1.0, 2.0, 4.0, 4.0, 0.0, 9.0, 2.0]);
    let y = fs(&[9.0, 2.0, 2.0, 4.0, 1.0, 5.0, 4.0, 0.0, 2.0, -1.0]);
    for unique in [false, true] {
        for n_bins in [2usize, 4, 16] {
            let a = compute_boundaries::<Native>(&x, 5, 2, n_bins, 5, unique);
            let b = compute_boundaries::<Native>(&y, 5, 2, n_bins, 5, unique);
            assert_eq!(a, b);
        }
    }
}

#[test]
fn rows_that_are_not_listed_may_be_anywhere() {
    let node: Vec<u32> = vec![0, 900, 1];
    let bins: Vec<u8> = vec![0, 250, 1];
    let g = fs(&[2.0, 3.0, 5.0]);
    let hist = build_hist::<Native>(&[0, 2], 2, 2, 1, 2, &node, &g, &g, &bins, false);
    assert_eq!(vs(&hist), vec![2.0, 2.0, 0.0, 0.0, 0.0, 0.0, 5.0, 5.0]);
    let odd = build_hist::<Native>(&[0, 2], 1, 1, 1, 2, &node, &g, &g, &bins, true);
    assert_eq!(vs(&odd), vec![0.0, 0.0, 5.0, 5.0]);
}

#[test]
fn auc_is_the_share_of_ordered_pairs() {
    let a = auc::<Native>(&fs(&[0.1, 0.4, 0.35, 0.8]), &fs(&[0.0, 0.0, 1.0, 1.0]));
    assert_eq!(w(a), 0.75);
    let ties = auc::<Native>(&fs(&[0.5, 0.5, 0.5, 0.5]), &fs(&[0.0, 1.0, 0.0, 1.0]));
    assert_eq!(w(ties), 0.5);
    let some = auc::<Native>(&fs(&[1.0, 1.0, 0.0]), &fs(&[1.0, 0.0, 0.0]));
    assert_eq!(w(some), 0.75);
    assert!(w(auc::<Native>(&fs(&[1.0, 2.0]), &fs(&[1.0, 1.0]))).is_nan());
    assert!(w(auc::<Native>(&fs(&[1.0, 2.0]), &fs(&[0.0, 0.0]))).is_nan());
}

#[test]
fn auc_does_not_depend_on_the_order_of_rows() {
    let a = auc::<Native>(&fs(&[0.3, 0.1, 0.3, 0.9]), &fs(&[1.0, 0.0, 0.0, 1.0]));
    let b = auc::<Native>(&fs(&[0.9, 0.3, 0.1, 0.3]), &fs(&[1.0, 0.0, 0.0, 1.0]));
    assert_eq!(w(a), 0.875);
    assert_eq!(w(a), w(b));
}

#[test]
fn losses_and_errors() {
    let zero = fs(&[0.0, 0.0]);
    assert_eq!(w(logloss::<Native>(&zero, &fs(&[0.0, 1.0]))), 2.0f64.ln());
    let sure = w(logloss::<Native>(&fs(&[100.0]), &fs(&[0.0])));
    assert_eq!(sure, -((1.0f64 - (1.0 - 1e-7)).ln()));
    let s = fs(&[1.0, 2.0, 3.0]);
    let y = fs(&[1.0, 4.0, 1.0]);
    assert_eq!(w(rmse::<Native>(&s, &y)), (8.0f64 / 3.0).sqrt());
    assert_eq!(w(mae::<Native>(&s, &y)), 4.0 / 3.0);
    assert_eq!(w(r2::<Native>(&s, &y)), 1.0 - 8.0 / 6.0);
    assert!(w(r2::<Native>(&s, &fs(&[2.0, 2.0, 2.0]))).is_nan());
    let acc = accuracy::<Native>(&fs(&[1.0, -1.0, 0.0, 2.0]), &fs(&[1.0, 1.0, 0.0, 1.0]));
    assert_eq!(w(acc), 0.75);
}

#[test]
fn important_features_come_first() {
    let gain = fs(&[0.0, 5.0, 2.0, 5.0, -1.0]);
    assert_eq!(top_features(&gain), vec![1, 3, 2]);
    let many = fs(&[1.0, 2.0, 3.0, 4.0, 5.0, 6.0, 7.0, 8.0, 9.0, 10.0]);
    assert_eq!(top_features(&many), vec![9, 8, 7, 6, 5, 4, 3, 2]);
    assert_eq!(top_features(&fs(&[])), Vec::<usize>::new());
    let total = total_gain::<Native>(&gain);
    assert_eq!(w(total), 11.0);
    assert_eq!(w(gain_share::<Native>(f(5.0), total)), 500.0 / 11.0);
    assert_eq!(w(gain_share::<Native>(f(0.0), d(0.0))), 0.0);
}

#[test]
fn intervals_cover_labels() {
    let std = fs(&[1.0, 1.0, 0.5]);
    let n = count_covered::<Native>(&fs(&[0.0, 0.0, 0.0]), &fs(&[1.9, 2.0, -0.97]), &std);
    assert_eq!(n, 2);
    assert_eq!(w(coverage::<Native>(n, 3)), 200.0 / 3.0);
    assert_eq!(w(mean_deviation::<Native>(&std)), 2.5 / 3.0);
    assert_eq!(v(max_difference::<Native>(&fs(&[1.0, 2.0]), &fs(&[1.5, 1.75]))), 0.5);
    assert_eq!(v(max_difference::<Native>(&fs(&[1.0]), &fs(&[1.0]))), 0.0);
    assert!(counts_match::<Native>(&fs(&[16.0, 16.25]), f(16.0)));
    assert!(!counts_match::<Native>(&fs(&[16.0, 15.5]), f(16.0)));
}

fn tokens(line: &str) -> Vec<String> {
    line.split(' ').map(String::from).collect()
}

fn settings(line: &str) -> Config {
    match Config::from_tokens::<Native>(&tokens(line)) {
        Ok(cfg) => cfg,
        Err(e) => panic!("{e:?}"),
    }
}

fn refusal(line: &str) -> String {
    match Config::from_tokens::<Native>(&tokens(line)) {
        Ok(_) => panic!("not refused"),
        Err(e) => e.message(),
    }
}

#[test]
fn settings_that_are_not_given() {
    let cfg = Config::default();
    assert_eq!(cfg.data_dir, "data");
    assert_eq!((cfg.n_trees, cfg.depth, cfg.n_bins), (500, 6, 256));
    assert_eq!(v(cfg.learning_rate), 0.1);
    assert_eq!(v(cfg.lambda), 1.0);
    assert_eq!(v(cfg.min_child_h), 1e-3);
    assert_eq!((v(cfg.subsample), v(cfg.colsample)), (1.0, 1.0));
    assert_eq!((v(cfg.goss_top), v(cfg.goss_other)), (0.0, 0.1));
    assert_eq!(v(cfg.te_smoothing), 10.0);
    assert_eq!(v(cfg.int_scale), 16384.0);
    assert_eq!((cfg.bin_sample, cfg.replicas, cfg.gpu), (200_000, 64, 0));
    assert!(cfg.subtract && !cfg.unique_bins && !cfg.pack4 && !cfg.pgbm && !cfg.serve);
    assert_eq!(cfg.objective, Objective::Logistic);
    assert!(cfg.categorical.is_empty() && cfg.monotone.is_empty());
    match Config::from_args::<Native>(&["rustwood".to_string()]) {
        Ok(same) => assert_eq!(same.n_trees, 500),
        Err(e) => panic!("{e:?}"),
    }
}

#[test]
fn settings_are_read() {
    let cfg = settings("--data d --trees 7 --depth 3 --lr 0.25 --bins 16 --lambda 2 --min-child 0");
    assert_eq!(cfg.data_dir, "d");
    assert_eq!((cfg.n_trees, cfg.depth, cfg.n_bins), (7, 3, 16));
    assert_eq!((v(cfg.learning_rate), v(cfg.lambda), v(cfg.min_child_h)), (0.25, 2.0, 0.0));
    let cfg = settings("--categorical 0,,3 --monotone 1,-1,0 --objective rmse --device cpu");
    assert_eq!(cfg.categorical, vec![0, 3]);
    assert_eq!(cfg.monotone, vec![1, -1, 0]);
    assert_eq!(cfg.objective, Objective::SquaredError);
    assert_eq!(cfg.device, Device::Cpu);
    let cfg = settings("--pack4 1 --pgbm true --subtract yes --smem-hist 1 --int-hist true");
    assert!(cfg.pack4 && cfg.pgbm && !cfg.subtract && cfg.smem_hist && cfg.int_hist);
    let cfg = settings("--trees 1 --trees 2 --cat-hash-buckets 18446744073709551615");
    assert_eq!(cfg.n_trees, 2);
    assert_eq!(cfg.cat_hash_buckets, u64::MAX);
    let cfg = settings("--save-model m --load-model l --dump-pred p --profile-out o --serve 1");
    assert_eq!((cfg.save_model.as_str(), cfg.load_model.as_str()), ("m", "l"));
    assert_eq!((cfg.dump_pred.as_str(), cfg.profile_out.as_str()), ("p", "o"));
    assert!(cfg.serve);
    let cfg = settings("--gpu 2 --replicas 8 --bin-sample 99 --goss-top 0.2 --goss-other 0.3");
    assert_eq!((cfg.gpu, cfg.replicas, cfg.bin_sample), (2, 8, 99));
    assert_eq!((v(cfg.goss_top), v(cfg.goss_other)), (0.2, 0.3));
}

#[test]
fn settings_are_refused() {
    assert_eq!(refusal("--trees"), "missing value for --trees");
    assert_eq!(refusal("--trees -1"), "bad number for --trees");
    assert_eq!(refusal("--lr x"), "bad number for --lr");
    assert_eq!(refusal("--monotone 1,x"), "bad monotone value");
    assert_eq!(refusal("--categorical 1,x"), "bad categorical index");
    assert_eq!(refusal("--objective huber"), "unknown objective huber");
    assert_eq!(refusal("--device tpu"), "unknown device tpu");
    assert_eq!(refusal("--tree 3"), "unknown flag --tree");
    assert_eq!(refusal("--bins 1"), "n_bins must be in 2..=256");
    assert_eq!(refusal("--bins 257"), "n_bins must be in 2..=256");
    assert_eq!(refusal("--depth 0"), "depth must be in 1..=12");
    assert_eq!(refusal("--depth 13"), "depth must be in 1..=12");
    let e = Config::from_tokens::<Native>(&tokens("--depth 13"));
    assert!(matches!(e, Err(ConfigError::DepthOutOfRange)));
}

#[test]
fn an_unknown_flag_shows_the_usage() {
    let e = match Config::from_tokens::<Native>(&tokens("--foo 1")) {
        Err(e) => e,
        Ok(_) => panic!("not refused"),
    };
    let usage = Config::usage();
    assert_eq!(e.report(), format!("unknown flag --foo\n{usage}"));
    assert!(usage.starts_with("usage: rustwood [<flag> <value>]...\nflags:\n  --data <value>\n"));
    assert_eq!(usage.lines().count(), 2 + FLAGS.len());
    for name in FLAGS {
        assert!(usage.contains(&format!("\n  {name} <value>")));
        let alone = Config::from_tokens::<Native>(&[name.to_string()]);
        assert!(matches!(alone, Err(ConfigError::MissingValue(flag)) if flag == name));
    }
    let e = match Config::from_tokens::<Native>(&tokens("--depth 13")) {
        Err(e) => e,
        Ok(_) => panic!("not refused"),
    };
    assert_eq!(e.report(), "depth must be in 1..=12");
}
