use kangaroo::bytes::{
    is_zero, le_limbs_to_be_bytes, limbs_to_le_bytes, reversed, same_bytes, scalar_be_to_limbs,
    strip_leading_zeros, top_u64, u128_to_be_bytes,
};
use kangaroo::math::{floor_log2, power_of_two};

fn counting() -> [u8; 32] {
    let mut b = [0u8; 32];
    for i in 0..32 {
        b[i] = i as u8 + 1;
    }
    b
}

#[test]
fn limbs_to_bytes_both_ways() {
    let limbs = [0x0403_0201u32, 0x0807_0605, 0x0c0b_0a09, 0x100f_0e0d, 0x1413_1211, 0x1817_1615,
        0x1c1b_1a19, 0x201f_1e1d];
    assert_eq!(limbs_to_le_bytes(&limbs), counting());
    assert_eq!(le_limbs_to_be_bytes(&limbs), reversed(&counting()));
    assert_eq!(scalar_be_to_limbs(&reversed(&counting())), limbs);
}

#[test]
fn u128_takes_the_low_half() {
    let b = u128_to_be_bytes(0x0102_0304_0506_0708_090a_0b0c_0d0e_0f10);
    assert_eq!(b[0..16], [0u8; 16]);
    assert_eq!(b[16..32], counting()[0..16]);
}

#[test]
fn top_bytes_are_big_endian() {
    assert_eq!(top_u64(&counting()), 0x0102_0304_0506_0708);
}

#[test]
fn leading_zeros_are_stripped() {
    let mut b = [0u8; 32];
    assert_eq!(strip_leading_zeros(&b), vec![0]);
    assert!(is_zero(&b));
    b[30] = 1;
    assert_eq!(strip_leading_zeros(&b), vec![1, 0]);
    assert!(!is_zero(&b));
    assert_eq!(strip_leading_zeros(&counting()), counting().to_vec());
}

#[test]
fn bytes_are_compared_to_the_end() {
    let mut b = counting();
    assert!(same_bytes(&b, &counting()));
    b[31] = 0;
    assert!(!same_bytes(&b, &counting()));
}

#[test]
fn powers_and_logarithms() {
    assert_eq!(power_of_two(0), 1);
    assert_eq!(power_of_two(127), 1u128 << 127);
    assert_eq!(floor_log2(0), 0);
    assert_eq!(floor_log2(1), 0);
    assert_eq!(floor_log2(3), 1);
    assert_eq!(floor_log2(4), 2);
    assert_eq!(floor_log2(u32::MAX), 31);
}

#[test]
fn logarithm_is_that_of_floats() {
    for e in 0..32u32 {
        for n in [(1u32 << e) - 1, 1u32 << e, (1u32 << e) + 1] {
            assert_eq!(floor_log2(n), (n as f64).log2() as u32);
        }
    }
}
