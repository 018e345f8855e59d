use hush_vani::cli::{parse_args, weight_dir, weight_files, Command, Fault, USAGE};
use hush_vani::pcm::{check_format, from_ints, to_pcm16};
use hush_vani::tools::{assets, maxdiff, parse_tool, tile, Tool};
use hush_vani::F32;

fn f(x: f32) -> F32 {
    F32::from_bits(x.to_bits())
}

fn n(x: F32) -> f32 {
    f32::from_bits(x.to_bits())
}

fn list(a: &[&str]) -> Vec<String> {
    a.iter().map(|s| s.to_string()).collect()
}

fn parse(a: &[&str]) -> Result<Command, Fault> {
    let args = list(a);
    let numbers: Vec<bool> = args.iter().map(|s| s.parse::<f32>().is_ok()).collect();
    parse_args(&args, &numbers)
}

fn message(a: &[&str]) -> String {
    parse(a).err().unwrap().message().unwrap()
}

#[test]
fn help_comes_first() {
    assert!(matches!(parse(&[]), Ok(Command::Help)));
    assert!(matches!(parse(&["-h"]), Ok(Command::Help)));
    assert!(matches!(parse(&["--bogus", "--help"]), Ok(Command::Help)));
    assert!(USAGE.contains("hush-vani <input.wav> <output.wav> [OPTIONS]"));
}

#[test]
fn options_take_the_next_argument() {
    match parse(&["in.wav", "-w", "dir", "--atten", "-12.5", "out.wav"]) {
        Ok(Command::Run { input, output, weights, atten }) => {
            assert_eq!((input.as_str(), output.as_str()), ("in.wav", "out.wav"));
            assert_eq!(weights.as_deref(), Some("dir"));
            assert_eq!(atten.as_deref(), Some("-12.5"));
        }
        _ => panic!("refused"),
    }
    match parse(&["a", "b"]) {
        Ok(Command::Run { weights: None, atten: None, .. }) => {}
        _ => panic!("refused"),
    }
    match parse(&["--weights", "-x", "a", "-w", "y", "b", "-a", "1", "-a", "2"]) {
        Ok(Command::Run { weights, atten, .. }) => {
            assert_eq!(weights.as_deref(), Some("y"));
            assert_eq!(atten.as_deref(), Some("2"));
        }
        _ => panic!("refused"),
    }
}

#[test]
fn faults_are_told_in_order() {
    assert_eq!(message(&["a", "b", "-w"]), "--weights needs a directory");
    assert_eq!(message(&["a", "b", "--atten"]), "--atten needs a number");
    assert_eq!(message(&["a", "-q", "-a", "x"]), "unknown flag -q");
    assert_eq!(message(&["a"]), "expected <input.wav> <output.wav>; see --help");
    assert_eq!(message(&["a", "b", "c"]), "expected <input.wav> <output.wav>; see --help");
    let e = parse(&["-a", "x", "-q"]).err().unwrap();
    assert!(matches!(e, Fault::NotANumber(1)));
    assert!(e.message().is_none());
}

#[test]
fn weights_lie_in_two_files() {
    let (b, t) = weight_files("some/dir");
    assert_eq!((b.as_str(), t.as_str()), ("some/dir/weights.bin", "some/dir/weights.txt"));
}

#[test]
fn only_mono_sixteen_kilohertz_is_taken() {
    assert!(check_format(1, 16000).is_ok());
    assert_eq!(check_format(2, 8000), Err("expected mono, got 2 channels".to_string()));
    assert_eq!(check_format(1, 44100), Err("expected 16000 Hz, got 44100 Hz".to_string()));
}

#[test]
fn integer_samples_are_scaled_by_their_width() {
    for (v, w) in [(0i32, 16u16), (1, 16), (-32768, 16), (32767, 16), (-1, 8), (8388607, 24), (i32::MIN, 32), (i32::MAX, 32)] {
        let scale = 1.0 / (1i64 << (w - 1)) as f32;
        assert_eq!(n(from_ints(&[v], w)[0]).to_bits(), (v as f32 * scale).to_bits());
    }
}

#[test]
fn samples_are_cut_off_and_rounded_away_from_zero() {
    let x = [
        0.0f32, -0.0, 1.0, -1.0, 2.0, -3.5, 0.5, -0.5, 1.0 / 65534.0, -1.0 / 65534.0, 1e-9, 0.99999,
        f32::INFINITY, f32::NEG_INFINITY, f32::NAN, 1e-40, 0.3, -0.7,
    ];
    let got = to_pcm16(&x.map(f));
    let want: Vec<i16> = x.iter().map(|v| (v.clamp(-1.0, 1.0) * 32767.0).round() as i16).collect();
    assert_eq!(got, want);
    assert_eq!(got[2], 32767);
    assert_eq!(got[14], 0);
}

#[test]
fn rounding_agrees_with_the_machine() {
    let mut s = 1u64;
    for _ in 0..20000 {
        s = s.wrapping_mul(6364136223846793005).wrapping_add(1);
        let x = f32::from_bits((s >> 32) as u32);
        let want = x.round() as i64;
        let want = want.clamp(-100, 90) as i32;
        assert_eq!(f(x).round_into(-100, 90), want, "{x}");
    }
    for x in [0.5f32, 1.5, 2.5, -0.5, -1.5, 0.49999997, 8388607.5, 4194303.5] {
        assert_eq!(f(x).round_into(i32::MIN, i32::MAX), x.round() as i32);
    }
}

#[test]
fn fixtures_lie_under_assets() {
    assert_eq!(assets("/root", "e0.bin"), "/root/assets/e0.bin");
}

#[test]
fn tiling_repeats_and_cuts() {
    let a: Vec<F32> = [1.0f32, 2.0, 3.0].map(f).to_vec();
    let t = tile(&a, 4, 2);
    assert_eq!(t.iter().map(|&v| n(v)).collect::<Vec<_>>(), [1.0, 2.0, 3.0, 1.0, 2.0, 3.0, 1.0, 2.0]);
    assert!(tile(&[], 16000, 0).is_empty());
}

#[test]
fn differences_are_magnitudes() {
    let a = [1.0f32, -2.0, 3.0].map(f);
    let b = [1.5f32, 2.0, 3.0].map(f);
    assert_eq!(n(maxdiff(&a, &b)), 4.0);
    assert_eq!(n(maxdiff(&[], &[])), 0.0);
    assert_eq!(n(maxdiff(&[F32::nan(), f(1.0)], &[f(0.0), f(0.5)])), 0.5);
}

#[test]
fn the_tool_has_defaults() {
    assert_eq!(parse_tool(&list(&[])), Tool::Usage);
    assert_eq!(parse_tool(&list(&["x"])), Tool::Usage);
    assert_eq!(parse_tool(&list(&["verify"])), Tool::Verify);
    assert_eq!(parse_tool(&list(&["bench"])), Tool::Bench { secs: 5 });
    assert_eq!(parse_tool(&list(&["bench", "12"])), Tool::Bench { secs: 12 });
    assert_eq!(parse_tool(&list(&["bench", "x"])), Tool::Bench { secs: 5 });
    assert_eq!(
        parse_tool(&list(&["raw", "1", "2", "3", "nn"])),
        Tool::Raw { secs: 1, reps: 2, threads: 3, nn: true }
    );
    assert_eq!(parse_tool(&list(&["raw"])), Tool::Raw { secs: 5, reps: 50, threads: 1, nn: false });
}

#[test]
fn the_flag_goes_before_the_environment() {
    let s = |x: &str| Some(x.to_string());
    assert_eq!(weight_dir(s("a"), s("b")), "a");
    assert_eq!(weight_dir(s("a"), None), "a");
    assert_eq!(weight_dir(None, s("b")), "b");
    assert_eq!(weight_dir(None, None), ".");
}
