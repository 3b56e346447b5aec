use kangaroo::key_hex::{key_hex, key_hex_display};
use kangaroo::run::{cpu_dp_bits, expected_ops, gpu_dp_bits, speed_refresh_due, Report, Verdict};
use kangaroo::Args;

fn args() -> Args {
    Args {
        pubkey: "02".to_string(),
        start: "1".to_string(),
        range: 32,
        dp_bits: None,
        kangaroos: None,
        gpu: 0,
        output: None,
        quiet: false,
        max_ops: 0,
        cpu: false,
        json: false,
    }
}

#[test]
fn dp_bits_on_the_cpu() {
    assert_eq!(cpu_dp_bits(0), 8);
    assert_eq!(cpu_dp_bits(32), 14);
    assert_eq!(cpu_dp_bits(44), 20);
    assert_eq!(cpu_dp_bits(256), 20);
    assert_eq!(args().dp_bits_on_cpu(), 14);
    assert_eq!(Args { dp_bits: Some(3), ..args() }.dp_bits_on_cpu(), 3);
}

#[test]
fn dp_bits_on_a_device() {
    assert_eq!(gpu_dp_bits(32, 65_536), 8);
    assert_eq!(gpu_dp_bits(64, 65_536), 24);
    assert_eq!(gpu_dp_bits(64, 65_535), 25);
    assert_eq!(gpu_dp_bits(64, 0), 32);
    assert_eq!(gpu_dp_bits(256, 1), 40);
    assert_eq!(args().dp_bits_on_gpu(1), 16);
    assert_eq!(Args { dp_bits: Some(50), ..args() }.dp_bits_on_gpu(1), 50);
}

#[test]
fn dp_bits_as_computed_with_floats() {
    for range in 0..260u32 {
        for n in [0u32, 1, 2, 3, 1000, 4096, 65_535, 65_536, u32::MAX] {
            let auto_dp = (range / 2).saturating_sub((n as f64).log2() as u32 / 2);
            assert_eq!(gpu_dp_bits(range, n), auto_dp.clamp(8, 40));
        }
    }
}

#[test]
fn kangaroos_default_to_the_device() {
    assert_eq!(args().num_kangaroos(77), 77);
    assert_eq!(Args { kangaroos: Some(5), ..args() }.num_kangaroos(77), 5);
}

#[test]
fn expected_operations() {
    assert_eq!(expected_ops(32), 65_536);
    assert_eq!(expected_ops(33), 65_536);
    assert_eq!(expected_ops(127), 1 << 63);
    assert_eq!(expected_ops(128), 0);
    assert_eq!(expected_ops(255), 0);
}

#[test]
fn json_goes_before_quiet() {
    assert_eq!(args().report(), Report::Verbose);
    assert!(!args().is_silent());
    let quiet = Args { quiet: true, ..args() };
    assert_eq!(quiet.report(), Report::Quiet);
    assert!(quiet.is_silent());
    let both = Args { quiet: true, json: true, ..args() };
    assert_eq!(both.report(), Report::Json);
    assert!(Args { json: true, ..args() }.is_silent());
}

#[test]
fn a_verified_key_ends_the_search() {
    let a = Args { max_ops: 10, ..args() };
    assert_eq!(a.verdict(Some(true), 100), Verdict::Found);
    assert_eq!(a.verdict(Some(true), 0), Verdict::Found);
}

#[test]
fn the_limit_ends_a_search_without_a_verified_key() {
    let a = Args { max_ops: 10, ..args() };
    assert_eq!(a.verdict(None, 9), Verdict::Continue);
    assert_eq!(a.verdict(None, 10), Verdict::LimitReached);
    assert_eq!(a.verdict(Some(false), 9), Verdict::Continue);
    assert_eq!(a.verdict(Some(false), 10), Verdict::LimitReached);
}

#[test]
fn no_limit_is_never_reached() {
    assert_eq!(args().verdict(None, u64::MAX), Verdict::Continue);
    assert_eq!(args().verdict(Some(false), u64::MAX), Verdict::Continue);
}

#[test]
fn speed_is_shown_twice_a_second() {
    assert!(!speed_refresh_due(499));
    assert!(speed_refresh_due(500));
}

#[test]
fn keys_are_shown_without_leading_zeros() {
    let full = key_hex(&vec![0x0a, 0xbc, 0x00, 0xf9]);
    assert_eq!(full, "0abc00f9");
    assert_eq!(key_hex_display(&full), "abc00f9");
    assert_eq!(key_hex_display(&key_hex(&vec![0])), "0");
    assert_eq!(key_hex_display(&key_hex(&vec![])), "0");
    assert_eq!(key_hex_display(&key_hex(&vec![0x10])), "10");
}
