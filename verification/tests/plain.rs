use rustwood::config::Config;
use rustwood::config::Device;
use rustwood::data::meta_int;
use rustwood::data::read_f32_blob;
use rustwood::data::Blob;
use rustwood::data::Count;
use rustwood::data::DataError;
use rustwood::data::Dataset;
use rustwood::data::MetaError;
use rustwood::float::F32;
use rustwood::float::F64;
use rustwood::model::read_stored;
use rustwood::model::rf32;
use rustwood::model::ru32;
use rustwood::model::rvec_f32;
use rustwood::model::rvec_u32;
use rustwood::model::warr;
use rustwood::model::wu32;
use rustwood::model::ModelError;
use rustwood::model::Reader;
use rustwood::report::host_repeats;
use rustwood::report::largest_batch;
use rustwood::report::reused_batch;
use rustwood::report::timed_batches;
use rustwood::report::Sweep;
use rustwood::report::SweepEvent;
use rustwood::report::SweepStep;
use rustwood::serve::frame;
use rustwood::serve::read_line;
use rustwood::serve::run_mode;
use rustwood::serve::run_place;
use rustwood::serve::wants_trial;
use rustwood::serve::Action;
use rustwood::serve::Event;
use rustwood::serve::Line;
use rustwood::serve::Mode;
use rustwood::serve::Request;
use rustwood::text::chars_of;
use rustwood::text::decimal_text;
use rustwood::text::find;
use rustwood::text::parse_i32;
use rustwood::text::parse_usize;
use rustwood::text::same_text;
use rustwood::text::split_on;
use rustwood::text::trim_end;
use rustwood::text::wide_decimal_text;
use rustwood::words::numbers_to_bytes;
use rustwood::words::read_word32;
use rustwood::words::read_word64;
use rustwood::words::write_word32;
use rustwood::words::write_word64;

#[test]
fn numerals_are_read() {
    assert_eq!(parse_usize("42"), Some(42));
    assert_eq!(parse_usize("+7"), Some(7));
    assert_eq!(parse_usize("007"), Some(7));
    assert_eq!(parse_usize(""), None);
    assert_eq!(parse_usize("+"), None);
    assert_eq!(parse_usize("-1"), None);
    assert_eq!(parse_usize("1x"), None);
    assert_eq!(parse_usize("99999999999999999999999"), None);
    assert_eq!(parse_i32("-5"), Some(-5));
    assert_eq!(parse_i32("+5"), Some(5));
    assert_eq!(parse_i32("-2147483648"), Some(i32::MIN));
    assert_eq!(parse_i32("2147483648"), None);
    assert_eq!(parse_i32("one"), None);
}

#[test]
fn numerals_are_written() {
    assert_eq!(decimal_text(0), "0");
    assert_eq!(decimal_text(1209), "1209");
    assert_eq!(decimal_text(u64::MAX), "18446744073709551615");
    assert_eq!(wide_decimal_text(u128::MAX), "340282366920938463463374607431768211455");
    for n in [0u64, 9, 10, 99, 100, 123456789] {
        assert_eq!(parse_usize(&decimal_text(n)), Some(n as usize));
    }
}

#[test]
fn texts_are_taken_apart() {
    assert_eq!(split_on("a\tb\t\tc", '\t'), vec!["a", "b", "", "c"]);
    assert_eq!(split_on("", ','), vec![""]);
    assert_eq!(trim_end("line \r\n"), "line");
    assert_eq!(trim_end(" \t "), "");
    assert!(same_text("QUIT", "QUIT"));
    assert!(!same_text("QUIT", "QUI"));
    assert_eq!(find(&chars_of("abcabd"), &chars_of("abd")), Some(3));
    assert_eq!(find(&chars_of("abc"), &chars_of("d")), None);
}

#[test]
fn words_are_little_endian() {
    let mut out: Vec<u8> = Vec::new();
    write_word32(&mut out, 0x0403_0201);
    write_word64(&mut out, 0x0807_0605_0403_0201);
    assert_eq!(out, vec![1, 2, 3, 4, 1, 2, 3, 4, 5, 6, 7, 8]);
    assert_eq!(read_word32(&out, 0), 0x0403_0201);
    assert_eq!(read_word64(&out, 4), 0x0807_0605_0403_0201);
    let numbers = [F32 { bits: 1.5f32.to_bits() }, F32 { bits: (-2.0f32).to_bits() }];
    let bytes = numbers_to_bytes(&numbers);
    assert_eq!(&bytes[0..4], &1.5f32.to_le_bytes());
    assert_eq!(read_f32_blob(&bytes), Some(numbers.to_vec()));
    assert_eq!(read_f32_blob(&bytes[0..7]), None);
}

#[test]
fn counts_are_found_in_the_text() {
    let meta = "{\"n_train\": 12, \"n_test\": 3,\n \"n_features\":5}";
    assert_eq!(meta_int(meta, "n_train"), Ok(12));
    assert_eq!(meta_int(meta, "n_test"), Ok(3));
    assert_eq!(meta_int(meta, "n_features"), Ok(5));
    assert_eq!(meta_int(meta, "n_rows"), Err(MetaError::Missing));
    assert_eq!(meta_int("{\"n\": }", "n"), Err(MetaError::BadInt));
    assert_eq!(meta_int("{\"n\": 99999999999999999999999}", "n"), Err(MetaError::BadInt));
}

fn blob(n: usize) -> Vec<u8> {
    vec![0u8; 4 * n]
}

#[test]
fn data_sets_are_read() {
    let meta = "{\"n_train\": 2, \"n_test\": 1, \"n_features\": 3}";
    match Dataset::load(meta, &blob(6), &blob(2), &blob(3), &blob(1)) {
        Ok(ds) => {
            assert_eq!((ds.n_train, ds.n_test, ds.n_features), (2, 1, 3));
            assert_eq!(ds.x_train.len(), 6);
            assert_eq!(ds.y_test.len(), 1);
        }
        Err(e) => panic!("{e:?}"),
    }
}

#[test]
fn data_sets_are_refused() {
    let meta = "{\"n_train\": 2, \"n_test\": 1, \"n_features\": 3}";
    let error = |meta: &str, a: &[u8], b: &[u8], c: &[u8], e: &[u8]| {
        match Dataset::load(meta, a, b, c, e) {
            Ok(_) => panic!("not refused"),
            Err(e) => e,
        }
    };
    let (a, b, c, e) = (blob(6), blob(2), blob(3), blob(1));
    assert_eq!(
        error("{}", &a, &b, &c, &e),
        DataError::Meta(Count::Train, MetaError::Missing)
    );
    assert_eq!(
        error("{\"n_train\": 2}", &a, &b, &c, &e),
        DataError::Meta(Count::Test, MetaError::Missing)
    );
    assert_eq!(
        error("{\"n_train\": 2, \"n_test\": 1, \"n_features\"}", &a, &b, &c, &e),
        DataError::Meta(Count::Features, MetaError::BadInt)
    );
    assert_eq!(error(meta, &a[1..], &b, &c, &e), DataError::Unaligned(Blob::XTrain));
    assert_eq!(error(meta, &a, &b[1..], &c, &e), DataError::Unaligned(Blob::YTrain));
    assert_eq!(error(meta, &a, &b, &c[1..], &e), DataError::Unaligned(Blob::XTest));
    assert_eq!(error(meta, &a, &b, &c, &e[1..]), DataError::Unaligned(Blob::YTest));
    assert_eq!(error(meta, &a[4..], &b, &c, &e), DataError::SizeMismatch(Blob::XTrain));
    assert_eq!(error(meta, &a, &b[4..], &c, &e), DataError::SizeMismatch(Blob::YTrain));
    assert_eq!(error(meta, &a, &b, &c[4..], &e), DataError::SizeMismatch(Blob::XTest));
    assert_eq!(error(meta, &a, &b, &c, &e[4..]), DataError::SizeMismatch(Blob::YTest));
}

#[test]
fn arrays_are_written_and_read() {
    let mut out: Vec<u8> = Vec::new();
    wu32(&mut out, 7);
    warr(&mut out, &[1u32, 2, 3]);
    warr(&mut out, &[F32 { bits: 0x3F80_0000 }]);
    assert_eq!(out.len(), 4 + 16 + 8);
    assert_eq!(&out[4..12], &[3, 0, 0, 0, 1, 0, 0, 0]);
    let mut r = Reader { bytes: &out, pos: 0 };
    assert_eq!(ru32(&mut r), Ok(7));
    assert_eq!(rvec_u32(&mut r), Ok(vec![1, 2, 3]));
    assert_eq!(rvec_f32(&mut r), Ok(vec![F32 { bits: 0x3F80_0000 }]));
    assert_eq!(ru32(&mut r), Err(ModelError::UnexpectedEof));
    let mut r = Reader { bytes: &out, pos: 24 };
    assert_eq!(rf32(&mut r), Ok(F32 { bits: 0x3F80_0000 }));
    assert_eq!(rf32(&mut r), Err(ModelError::UnexpectedEof));
}

#[test]
fn model_files_are_refused() {
    match read_stored(b"RW") {
        Err(e) => assert_eq!(e, ModelError::UnexpectedEof),
        Ok(_) => panic!("not refused"),
    }
    match read_stored(b"RWD2....") {
        Err(e) => assert_eq!(e, ModelError::InvalidData),
        Ok(_) => panic!("not refused"),
    }
    match read_stored(b"RWD1\x01\x00\x00\x00\x02\x00") {
        Err(e) => assert_eq!(e, ModelError::UnexpectedEof),
        Ok(_) => panic!("not refused"),
    }
}

#[test]
fn lines_are_read() {
    assert!(matches!(read_line("  \r\n"), Line::Skip));
    assert!(matches!(read_line("QUIT\n"), Line::Quit));
    match read_line("--data\td d\t--trees\t3 \n") {
        Line::Request(tokens) => assert_eq!(tokens, vec!["--data", "d d", "--trees", "3"]),
        _ => panic!("no request"),
    }
    assert_eq!(frame("OK n=3"), "OK n=3\n__END__\n");
}

fn reply(a: Action) -> String {
    match a {
        Action::Reply(text) => text,
        _ => panic!("no reply"),
    }
}

#[test]
fn a_loaded_model_answers() {
    let mut cfg = Config::default();
    cfg.load_model = "m.rwood".to_string();
    cfg.dump_pred = "p.bin".to_string();
    let r = Request::new(&cfg, false, false);
    assert!(matches!(r.advance(&Event::Received), Action::LoadData));
    assert!(matches!(r.advance(&Event::DataLoaded), Action::LoadModel));
    assert!(matches!(r.advance(&Event::Scored(12)), Action::Dump));
    assert_eq!(reply(r.advance(&Event::Dumped(12))), "OK n=12");
    assert_eq!(
        reply(r.advance(&Event::LoadFailed("gone".to_string()))),
        "ERROR load gone"
    );
    assert_eq!(
        reply(r.advance(&Event::DumpFailed("full".to_string()))),
        "ERROR dump full"
    );
}

#[test]
fn a_fitted_model_answers() {
    let mut cfg = Config::default();
    cfg.device = Device::Cpu;
    let r = Request::new(&cfg, false, false);
    assert!(matches!(r.advance(&Event::Received), Action::LoadData));
    assert!(matches!(r.advance(&Event::DataLoaded), Action::FitHost));
    assert_eq!(
        reply(r.advance(&Event::Fitted("0.250000".to_string()))),
        "OK train_s=0.250000"
    );
    assert_eq!(
        reply(r.advance(&Event::FitFailed("no".to_string()))),
        "ERROR fit no"
    );
    cfg.save_model = "m.rwood".to_string();
    let r = Request::new(&cfg, false, false);
    assert!(matches!(r.advance(&Event::Fitted("1".to_string())), Action::Save));
    assert_eq!(reply(r.advance(&Event::Saved("1".to_string()))), "OK train_s=1");
    assert_eq!(
        reply(r.advance(&Event::SaveFailed("no".to_string()))),
        "ERROR save no"
    );
}

#[test]
fn a_device_is_opened_once() {
    let cfg = Config::default();
    let r = Request::new(&cfg, true, false);
    assert!(matches!(r.advance(&Event::DataLoaded), Action::OpenDevice));
    assert!(matches!(r.advance(&Event::DeviceReady), Action::FitDevice));
    assert_eq!(
        reply(r.advance(&Event::DeviceFailed("none".to_string()))),
        "ERROR ctx none"
    );
    let r = Request::new(&cfg, true, true);
    assert!(matches!(r.advance(&Event::DataLoaded), Action::FitDevice));
    let r = Request::new(&cfg, false, false);
    assert_eq!(
        reply(r.advance(&Event::Received)),
        "ERROR this binary was built without the 'gpu' feature; use --device cpu"
    );
}

#[test]
fn modes_of_a_run() {
    let cfg = Config::default();
    assert_eq!(run_mode(&cfg, true), Mode::Fit);
    assert_eq!(run_mode(&cfg, false), Mode::NoDevice);
    let mut serving = cfg.clone();
    serving.serve = true;
    assert_eq!(run_mode(&serving, false), Mode::Worker);
    let mut loading = cfg.clone();
    loading.load_model = "m".to_string();
    assert_eq!(run_mode(&loading, false), Mode::Score);
    assert_eq!(run_place(&loading, false), Device::Cpu);
    assert_eq!(run_place(&loading, true), Device::Gpu);
    let mut host = cfg.clone();
    host.device = Device::Cpu;
    assert_eq!(run_mode(&host, false), Mode::Fit);
    host.latency_bench = true;
    assert_eq!(run_mode(&host, false), Mode::Fit);
    host.pgbm = true;
    assert_eq!(run_mode(&host, false), Mode::DeviceOnly);
    assert!(wants_trial(&["rustwood".to_string(), "--smem-test".to_string()]));
    assert!(!wants_trial(&["rustwood".to_string(), "--smem".to_string()]));
}

#[test]
fn batches_that_are_timed() {
    assert_eq!(timed_batches(&[1, 8, 0, 64], 10), vec![1, 8, 10]);
    assert_eq!(timed_batches(&[1, 8], 0), Vec::<usize>::new());
    assert_eq!(reused_batch(8, 5), 5);
    assert_eq!(reused_batch(8, 0), 1);
    assert_eq!(largest_batch(&[1, 512, 64], 100), 100);
    assert_eq!(largest_batch(&[1, 64], 100), 64);
    assert_eq!(largest_batch(&[], 100), 1);
    assert_eq!(host_repeats(64), 5000);
    assert_eq!(host_repeats(65), 200);
}

#[test]
fn a_sweep_ends_where_there_is_no_room() {
    let ns = F64 { bits: 0x4000_0000_0000_0000 };
    let large = u32::MAX as usize + 1;
    let mut sweep = Sweep::new(vec![large, 10, large, 20, 30]);
    assert_eq!(sweep.advance(SweepEvent::Start), SweepStep::Time(10));
    assert_eq!(sweep.advance(SweepEvent::Timed(ns)), SweepStep::Time(20));
    assert_eq!(sweep.advance(SweepEvent::NoRoom), SweepStep::Done);
    let expected = vec![(large, None), (10, Some(ns)), (large, None), (20, None)];
    assert_eq!(sweep.results, expected);
    let mut none = Sweep::new(vec![large]);
    assert_eq!(none.advance(SweepEvent::Start), SweepStep::Done);
    assert_eq!(none.results, vec![(large, None)]);
}
