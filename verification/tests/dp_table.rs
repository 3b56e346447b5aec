use kangaroo::bytes::{add_le, sub_le};
use kangaroo::gpu::GpuDistinguishedPoint;
use kangaroo::DPTable;

fn le32(v: u128) -> [u8; 32] {
    let mut b = [0u8; 32];
    b[0..16].copy_from_slice(&v.to_le_bytes());
    b
}

fn limbs(v: u128) -> [u32; 8] {
    let mut l = [0u32; 8];
    for i in 0..4 {
        l[i] = (v >> (32 * i)) as u32;
    }
    l
}

fn dp(x: [u32; 8], dist: u128, ktype: u32) -> GpuDistinguishedPoint {
    GpuDistinguishedPoint { x, dist: limbs(dist), ktype }
}

/// An X coordinate with the given top and bottom limb.
fn x_at(top: u32, bottom: u32) -> [u32; 8] {
    [bottom, 0, 0, 0, 0, 0, 7, top]
}

#[test]
fn add_sub_roundtrip() {
    let a = le32(0xDEADBEEF_12345678);
    let b = le32(0x11111111_FFFFFFFF);
    let mut s = [0u8; 32];
    let mut r = [0u8; 32];
    add_le(&a, &b, &mut s);
    sub_le(&s, &b, &mut r);
    assert_eq!(r, a);
}

#[test]
fn key_recovery() {
    // start=100  tame_dist=350  wild_dist=80  => key = 370
    let start = le32(100);
    let tame_d = le32(350);
    let wild_d = le32(80);
    let mut tmp = [0u8; 32];
    let mut key = [0u8; 32];
    add_le(&start, &tame_d, &mut tmp);
    sub_le(&tmp, &wild_d, &mut key);
    key.reverse();
    let first = key.iter().position(|&b| b != 0).unwrap_or(31);
    let val = key[first..].iter().fold(0u128, |a, &b| (a << 8) | b as u128);
    assert_eq!(val, 370);
}

#[test]
fn arithmetic_wraps_at_256_bits() {
    let ones = [0xffu8; 32];
    let one = le32(1);
    let mut out = [7u8; 32];
    add_le(&ones, &one, &mut out);
    assert_eq!(out, [0u8; 32]);
    sub_le(&[0u8; 32], &one, &mut out);
    assert_eq!(out, ones);
}

#[test]
fn a_new_table_is_empty() {
    let t = DPTable::new(le32(1));
    assert!(t.is_empty());
    assert_eq!(t.len(), 0);
    assert_eq!(t.total_dps(), 0);
    assert_eq!(t.count_by_type(), (0, 0));
}

#[test]
fn wild_after_tame_gives_the_key() {
    let mut t = DPTable::new(le32(100));
    let x = x_at(1, 2);
    assert_eq!(t.insert_and_check(dp(x, 350, 0)), None);
    assert_eq!(t.insert_and_check(dp(x, 80, 1)), Some(vec![0x01, 0x72]));
    assert_eq!(t.count_by_type(), (1, 0));
}

#[test]
fn tame_after_wild_gives_the_same_key() {
    let mut t = DPTable::new(le32(100));
    let x = x_at(1, 2);
    assert_eq!(t.insert_and_check(dp(x, 80, 1)), None);
    assert_eq!(t.insert_and_check(dp(x, 350, 0)), Some(vec![0x01, 0x72]));
    assert_eq!(t.count_by_type(), (0, 1));
}

#[test]
fn key_zero_is_one_zero_byte() {
    let mut t = DPTable::new(le32(10));
    let x = x_at(9, 9);
    assert_eq!(t.insert_and_check(dp(x, 5, 0)), None);
    assert_eq!(t.insert_and_check(dp(x, 15, 1)), Some(vec![0]));
}

#[test]
fn a_key_below_zero_wraps() {
    let mut t = DPTable::new(le32(0));
    let x = x_at(9, 9);
    assert_eq!(t.insert_and_check(dp(x, 0, 0)), None);
    assert_eq!(t.insert_and_check(dp(x, 1, 1)), Some(vec![0xff; 32]));
}

#[test]
fn same_kind_is_ignored() {
    let mut t = DPTable::new(le32(100));
    let x = x_at(3, 4);
    assert_eq!(t.insert_and_check(dp(x, 350, 0)), None);
    assert_eq!(t.insert_and_check(dp(x, 999, 0)), None);
    assert_eq!(t.total_dps(), 1);
    // the first distance is the one that counts
    assert_eq!(t.insert_and_check(dp(x, 80, 1)), Some(vec![0x01, 0x72]));
}

#[test]
fn points_of_one_bucket_are_told_apart() {
    let mut t = DPTable::new(le32(0));
    assert_eq!(t.insert_and_check(dp(x_at(1, 1), 10, 0)), None);
    assert_eq!(t.insert_and_check(dp(x_at(1, 2), 20, 1)), None);
    assert_eq!(t.insert_and_check(dp(x_at(2, 1), 30, 1)), None);
    assert_eq!(t.len(), 2);
    assert_eq!(t.total_dps(), 3);
    assert_eq!(t.count_by_type(), (1, 2));
    assert!(!t.is_empty());
    assert_eq!(t.insert_and_check(dp(x_at(1, 2), 25, 0)), Some(vec![5]));
    assert_eq!(t.total_dps(), 3);
}

#[test]
fn any_kind_but_zero_is_wild() {
    let mut t = DPTable::new(le32(1000));
    let x = x_at(5, 5);
    assert_eq!(t.insert_and_check(dp(x, 7, 2)), None);
    assert_eq!(t.count_by_type(), (0, 1));
    // two wild ones do not collide
    assert_eq!(t.insert_and_check(dp(x, 9, 1)), None);
    assert_eq!(t.insert_and_check(dp(x, 9, 0)), Some(vec![0x03, 0xea]));
}
