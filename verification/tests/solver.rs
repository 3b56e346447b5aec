use k256::elliptic_curve::bigint::Encoding;
use k256::elliptic_curve::ops::{MulByGenerator, Reduce};
use k256::elliptic_curve::sec1::ToEncodedPoint;
use k256::{ProjectivePoint, Scalar, U256};
use kangaroo::cpu::init::InitError;
use kangaroo::curve::times_generator;
use kangaroo::gpu::{
    point_count, split_records, staging_len, workgroups, GpuConfig, GpuDistinguishedPoint,
};
use kangaroo::solver::{search_fits, Calibration, MAX_DISTINGUISHED_POINTS};
use kangaroo::KangarooSolver;

fn limbs(v: u128) -> [u32; 8] {
    let mut l = [0u32; 8];
    for i in 0..4 {
        l[i] = (v >> (32 * i)) as u32;
    }
    l
}

fn dp(x: u128, dist: u128, ktype: u32) -> GpuDistinguishedPoint {
    GpuDistinguishedPoint { x: limbs(x), dist: limbs(dist), ktype }
}

fn number_le(v: u128) -> [u8; 32] {
    let mut b = [0u8; 32];
    b[0..16].copy_from_slice(&v.to_le_bytes());
    b
}

fn number_be(v: u128) -> [u8; 32] {
    let mut b = number_le(v);
    b.reverse();
    b
}

/// A search for key 5 from `start`, with four kangaroos.
fn search(start: u128) -> KangarooSolver {
    let pubkey = times_generator(&number_be(5));
    match KangarooSolver::new(&pubkey, number_le(start), 16, 8, 4, 64, &[0xff, 0, 0, 0, 0, 0, 0, 0]) {
        Ok((solver, _)) => solver,
        Err(_) => panic!("no search"),
    }
}

#[test]
fn caps_steps_when_dp_buffer_would_overflow() {
    let steps = KangarooSolver::select_steps_per_call(4_096, 16_384, 8, MAX_DISTINGUISHED_POINTS);
    assert!(steps <= 4_096);
    assert!(steps > 0);
}

#[test]
fn keeps_optimal_when_within_budget() {
    let steps = KangarooSolver::select_steps_per_call(4_096, 4_096, 16, MAX_DISTINGUISHED_POINTS);
    assert_eq!(steps, 4_096);
}

#[test]
fn capped_steps_fill_nine_tenths() {
    // 65536 * 9 / 10 = 58982; 58982 * 256 / 16384 = 921
    assert_eq!(KangarooSolver::select_steps_per_call(4_096, 16_384, 8, 65_536), 921);
    // not even one step fits
    assert_eq!(KangarooSolver::select_steps_per_call(4_096, 1_000_000, 0, 65_536), 1);
    // no room at all still leaves a budget of one
    assert_eq!(KangarooSolver::select_steps_per_call(4_096, 2, 8, 0), 128);
    assert_eq!(KangarooSolver::select_steps_per_call(4_096, 2, 8, 1), 128);
}

#[test]
fn nothing_to_do_is_one_step() {
    assert_eq!(KangarooSolver::select_steps_per_call(4_096, 0, 200, 65_536), 1);
    assert_eq!(KangarooSolver::select_steps_per_call(0, 16, 200, 65_536), 1);
}

#[test]
fn many_bits_leave_the_steps_alone() {
    assert_eq!(KangarooSolver::select_steps_per_call(u32::MAX, 1, 112, 65_536), u32::MAX);
}

#[test]
fn a_new_search_sets_up_the_device() {
    let pubkey = times_generator(&number_be(5));
    let mask = [1u32, 2, 3, 4, 5, 6, 7, 8];
    let Ok((solver, setup)) = KangarooSolver::new(&pubkey, number_le(1), 16, 8, 6, 64, &mask) else {
        panic!("no search");
    };
    assert_eq!(solver.total_operations(), 0);
    assert_eq!(solver.ops_per_dispatch(), 6 * 64);
    assert!(solver.dp_table().is_empty());
    assert_eq!(setup.jump_points.len(), 256);
    assert_eq!(setup.jump_distances.len(), 256);
    assert_eq!(setup.kangaroos.len(), 6);
    let c = setup.config;
    assert_eq!(c.dp_mask_lo, [1, 2, 3, 4]);
    assert_eq!(c.dp_mask_hi, [5, 6, 7, 8]);
    assert_eq!((c.num_kangaroos, c.steps_per_call, c.jump_table_size, c._padding), (6, 64, 256, 0));
}

#[test]
fn a_start_at_infinity_is_an_error() {
    // the group order, little-endian: the first tame kangaroo jitters by at most
    // half a grid step, so the range is made so small that it cannot
    let mut order = [0u8; 32];
    order.copy_from_slice(&U256::from_be_hex(
        "FFFFFFFFFFFFFFFFFFFFFFFFFFFFFFFEBAAEDCE6AF48A03BBFD25E8CD0364141",
    )
    .to_le_bytes());
    let pubkey = times_generator(&number_be(5));
    let r = KangarooSolver::new(&pubkey, order, 0, 8, 2, 64, &[0; 8]);
    match r {
        Err(e) => assert_eq!(e, InitError::PointAtInfinity),
        Ok(_) => panic!("placed at infinity"),
    }
}

#[test]
fn dispatches_are_counted_and_logged() {
    let mut s = search(0);
    for n in 1..=41u64 {
        let r = s.count_dispatch(0);
        assert_eq!(s.total_operations(), n * 256);
        assert_eq!(r.log_due, n % 20 == 0);
        assert_eq!(r.speed_sample, None);
    }
}

#[test]
fn speed_is_measured_once_a_second() {
    let mut s = search(0);
    assert_eq!(s.count_dispatch(999).speed_sample, None);
    assert_eq!(s.count_dispatch(1000).speed_sample, Some(512));
    assert_eq!(s.count_dispatch(0).speed_sample, None);
    assert_eq!(s.count_dispatch(5000).speed_sample, Some(512));
}

#[test]
fn a_step_stops_at_the_first_collision() {
    let mut s = search(100);
    let batch = vec![dp(7, 350, 0), dp(8, 1, 0), dp(7, 80, 1), dp(8, 1, 1), dp(9, 0, 0)];
    assert_eq!(s.step(&batch), Some(vec![0x01, 0x72]));
    assert_eq!(s.dp_table().total_dps(), 2);
    assert_eq!(s.step(&vec![]), None);
    assert_eq!(s.step(&vec![dp(9, 3, 1)]), None);
    assert_eq!(s.dp_table().count_by_type(), (2, 1));
}

#[test]
fn two_batches_are_as_good_as_one() {
    let (mut one, mut two) = (search(100), search(100));
    let all = vec![dp(1, 1, 0), dp(2, 2, 1), dp(3, 3, 0)];
    assert_eq!(one.step(&all), None);
    assert_eq!(two.step(&all[0..1].to_vec()), None);
    assert_eq!(two.step(&all[1..3].to_vec()), None);
    assert_eq!(one.dp_table().count_by_type(), two.dp_table().count_by_type());
    assert_eq!(one.step(&vec![dp(2, 5, 0)]), two.step(&vec![dp(2, 5, 0)]));
}

#[test]
fn a_meeting_on_the_curve_reveals_the_key() {
    // key 1234, search from 1000: a tame kangaroo 300 on, a wild one 66 on
    let (start, key, tame, wild) = (1000u128, 1234u128, 300u128, 66u128);
    let x_of = |k: u128| {
        let p = ProjectivePoint::mul_by_generator(&Scalar::reduce(U256::from_u128(k))).to_affine();
        let e = p.to_encoded_point(false);
        let mut b = [0u8; 32];
        b.copy_from_slice(&e.as_bytes()[1..33]);
        kangaroo::bytes::scalar_be_to_limbs(&b)
    };
    let mut s = search(start);
    let t = GpuDistinguishedPoint { x: x_of(start + tame), dist: limbs(tame), ktype: 0 };
    let w = GpuDistinguishedPoint { x: x_of(key + wild), dist: limbs(wild), ktype: 1 };
    assert_eq!(s.step(&vec![t, w]), Some(vec![0x04, 0xd2]));
}

#[test]
fn only_points_with_room_are_read() {
    assert_eq!(KangarooSolver::points_to_read(0), 0);
    assert_eq!(KangarooSolver::points_to_read(65_536), 65_536);
    assert_eq!(KangarooSolver::points_to_read(65_537), 65_536);
}

/// Runs a calibration in which candidate `i` takes `ms[i]`.
fn calibrate(num_kangaroos: u32, dp_bits: u32, ms: &[u128]) -> (Vec<u32>, u32) {
    let mut c = Calibration::new(num_kangaroos, dp_bits);
    let mut tried = vec![];
    while let Some(config) = c.next_trial() {
        assert_eq!(config.dp_mask_lo, [0; 4]);
        assert_eq!(config.dp_mask_hi, [0; 4]);
        assert_eq!((config.num_kangaroos, config.jump_table_size, config._padding), (num_kangaroos, 256, 0));
        c.record_trial(ms[tried.len()]);
        tried.push(config.steps_per_call);
    }
    (tried, c.best())
}

#[test]
fn calibration_takes_the_last_fast_trial() {
    assert_eq!(calibrate(64, 20, &[0; 9]), (vec![16, 32, 64, 128, 256, 512, 1024, 2048, 4096], 4096));
    assert_eq!(calibrate(64, 20, &[1, 5, 19, 20]), (vec![16, 32, 64, 128], 64));
    assert_eq!(calibrate(64, 20, &[20]), (vec![16], 16));
}

#[test]
fn calibration_leaves_room_for_points() {
    // 58982 * 256 / 16384 = 921 steps fit
    assert_eq!(calibrate(16_384, 8, &[0; 9]), (vec![16, 32, 64, 128, 256, 512], 512));
    // nothing fits, and nothing is tried
    assert_eq!(calibrate(u32::MAX, 8, &[]), (vec![], 16));
    assert_eq!(calibrate(0, 8, &[]), (vec![], 16));
}

#[test]
fn a_search_takes_a_calibration_over() {
    let mut s = search(0);
    let mut c = Calibration::new(4, 8);
    c.record_trial(3);
    c.record_trial(3);
    s.apply_calibration(&c);
    assert_eq!(s.ops_per_dispatch(), 4 * 32);
    let config: GpuConfig = s.config(&[9; 8]);
    assert_eq!((config.steps_per_call, config.num_kangaroos), (32, 4));
    assert_eq!((config.dp_mask_lo, config.dp_mask_hi), ([9; 4], [9; 4]));
}

#[test]
fn workgroups_cover_all_kangaroos() {
    assert_eq!(workgroups(0), 0);
    assert_eq!(workgroups(1), 1);
    assert_eq!(workgroups(64), 1);
    assert_eq!(workgroups(65), 2);
    assert_eq!(workgroups(u32::MAX), 67_108_864);
}

#[test]
fn records_follow_the_count() {
    assert_eq!(point_count(&[0x78, 0x56, 0x34, 0x12]), 0x1234_5678);
    assert_eq!(staging_len(3, 100), 304);
    let data = vec![2, 0, 0, 0, 10, 11, 12, 20, 21, 22, 30, 31];
    assert_eq!(split_records(&data, 3, 2), vec![&[10u8, 11, 12][..], &[20, 21, 22][..]]);
    assert_eq!(split_records(&data, 3, 1), vec![&[10u8, 11, 12][..]]);
    // the third record is not complete
    assert_eq!(split_records(&data, 3, 9).len(), 2);
    assert_eq!(split_records(&data[0..4], 3, 9).len(), 0);
}

#[test]
fn searches_that_fit() {
    assert!(search_fits(32, 16, 65_536));
    assert!(search_fits(512, 8, 2));
    // jumps of 257 bits
    assert!(!search_fits(514, 8, 2));
    // two wild kangaroos, 2^127 apart, fit in 128 bits, but not three
    assert!(search_fits(254, 8, 4));
    assert!(!search_fits(254, 8, 5));
    assert!(search_fits(192, 8, u32::MAX));
    // the budget is just below 2^16
    assert!(search_fits(32, 112, 2));
    assert!(!search_fits(32, 113, 2));
    assert!(!search_fits(32, 128, 2));
    assert!(search_fits(32, 128, 0));
}

#[test]
fn dispatches_that_can_be_counted() {
    let mut s = search(0);
    assert!(s.can_count_dispatch());
    s.count_dispatch(0);
    assert!(s.can_count_dispatch());
    let pubkey = times_generator(&number_be(5));
    let Ok((none, _)) = KangarooSolver::new(&pubkey, number_le(1), 16, 8, 0, 64, &[0; 8]) else {
        panic!("no search");
    };
    assert!(!none.can_count_dispatch());
}
