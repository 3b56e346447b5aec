use k256::elliptic_curve::bigint::Encoding;
use k256::elliptic_curve::ops::{MulByGenerator, Reduce};
use k256::elliptic_curve::sec1::ToEncodedPoint;
use k256::{AffinePoint, ProjectivePoint, Scalar, U256};
use kangaroo::bytes::scalar_be_to_limbs;
use kangaroo::cpu::init::{
    generate_jump_table, hash_u128, initialize_kangaroos, limbs_one, tame_init,
    wild_init, InitError,
};
use kangaroo::cpu::wild::wild_distances;
use kangaroo::curve::{affine_to_gpu, times_generator};
use kangaroo::gpu::GpuKangaroo;
use kangaroo::Point;

fn number_be(v: u128) -> [u8; 32] {
    let mut b = [0u8; 32];
    b[16..32].copy_from_slice(&v.to_be_bytes());
    b
}

fn number_le(v: u128) -> [u8; 32] {
    let mut b = number_be(v);
    b.reverse();
    b
}

/// The limbs of the coordinates of a point.
fn coordinates(p: AffinePoint) -> ([u32; 8], [u32; 8]) {
    let e = p.to_encoded_point(false);
    let (mut x, mut y) = ([0u8; 32], [0u8; 32]);
    x.copy_from_slice(&e.as_bytes()[1..33]);
    y.copy_from_slice(&e.as_bytes()[33..65]);
    (scalar_be_to_limbs(&x), scalar_be_to_limbs(&y))
}

fn g_times(n: U256) -> ([u32; 8], [u32; 8]) {
    coordinates(ProjectivePoint::mul_by_generator(&Scalar::reduce(n)).to_affine())
}

/// The bytes of jump `i`, drawn from a hash.
fn jump_bytes(i: u32, mean_exp: u32) -> [u8; 32] {
    let mut h = 0x811c9dc5u32;
    h = (h ^ i).wrapping_mul(0x01000193);
    h = (h ^ (h >> 16)).wrapping_mul(0x45d9f3b);
    let num_bytes = ((mean_exp + 7) / 8) as usize;
    let mut scalar_be = [0u8; 32];
    for b in 0..num_bytes {
        h = h.wrapping_mul(0x01000193) ^ (b as u32);
        scalar_be[32 - num_bytes + b] = (h >> 24) as u8;
    }
    let rem = mean_exp % 8;
    if rem != 0 {
        scalar_be[32 - num_bytes] &= (1u8 << rem) - 1;
    }
    if scalar_be.iter().all(|&x| x == 0) {
        scalar_be[31] = (i as u8).max(1);
    }
    scalar_be
}

#[test]
fn jump_tables_for_many_ranges() {
    for range_bits in [0u32, 16, 17, 32, 39, 64, 71, 100, 256, 510, 512] {
        let (points, distances) = generate_jump_table(range_bits);
        assert_eq!(points.len(), 256);
        assert_eq!(distances.len(), 256);
        for i in 0..256u32 {
            let be = jump_bytes(i, (range_bits / 2).max(8));
            assert_eq!(distances[i as usize], scalar_be_to_limbs(&be));
            let (x, y) = g_times(U256::from_be_slice(&be));
            assert_eq!((points[i as usize].x, points[i as usize].y), (x, y));
        }
    }
}

#[test]
fn jumps_are_short_and_never_zero() {
    let (_, distances) = generate_jump_table(20);
    for d in distances {
        assert!(d[0] > 0 && d[0] < 1 << 10);
        assert_eq!(d[1..8], [0u32; 7]);
    }
}

#[test]
fn one_in_limbs() {
    assert_eq!(limbs_one(), [1, 0, 0, 0, 0, 0, 0, 0]);
}

#[test]
fn jitter_is_deterministic() {
    assert_eq!(hash_u128(7, 0xCAFEBABE), hash_u128(7, 0xCAFEBABE));
    assert_ne!(hash_u128(7, 0xCAFEBABE), hash_u128(8, 0xCAFEBABE));
    assert_ne!(hash_u128(7, 0xCAFEBABE), hash_u128(7, 0xDEADBEEF));
    let mut h = 0xcbf29ce484222325u64 ^ 7;
    h = h.wrapping_mul(0x100000001b3) ^ 0xCAFEBABE;
    h = h.wrapping_mul(0x100000001b3);
    h ^= h >> 33;
    h = h.wrapping_mul(0xff51afd7ed558ccd);
    h ^= h >> 33;
    let low = h.wrapping_mul(0xc4ceb9fe1a85ec53) ^ 7u64.wrapping_mul(0x9e3779b97f4a7c15);
    assert_eq!(hash_u128(7, 0xCAFEBABE), ((h as u128) << 64) | low as u128);
}

/// Places kangaroos for the key `key`.
fn place(key: u128, start: u128, range_bits: u32, n: u32) -> Vec<GpuKangaroo> {
    let pubkey = times_generator(&number_be(key));
    match initialize_kangaroos(&pubkey, &number_le(start), range_bits, n) {
        Ok(ks) => ks,
        Err(_) => panic!("not placed"),
    }
}

fn distance(k: &GpuKangaroo) -> u128 {
    assert_eq!(k.dist[4..8], [0u32; 4]);
    (0..4).fold(0u128, |d, i| d | (k.dist[i] as u128) << (32 * i))
}

/// The distances that wild kangaroos draw.
fn wild_draws(range_bits: u32, n: u32) -> Vec<u128> {
    let range: u128 = if range_bits >= 128 { u128::MAX } else { 1 << range_bits };
    let stride = 1u128 << (range_bits / 2).max(8).min(127);
    (n / 2..n)
        .map(|i| {
            let jitter = hash_u128(i, 0xDEADBEEF) % stride;
            ((i - n / 2) as u128 * stride + jitter) % range
        })
        .collect()
}

/// The draws, with the least unused number in place of each repeated one.
fn wild_starts(range_bits: u32, n: u32) -> Vec<u128> {
    let draws = wild_draws(range_bits, n);
    let mut starts: Vec<u128> = vec![];
    for i in 0..draws.len() {
        if draws[0..i].contains(&draws[i]) {
            let mut d = 0;
            while draws.contains(&d) || starts.contains(&d) {
                d += 1;
            }
            starts.push(d);
        } else {
            starts.push(draws[i]);
        }
    }
    starts
}

#[test]
fn kangaroos_stand_where_their_distances_say() {
    let (key, start) = (0x1234_5678u128, 0x1000_0000u128);
    for (range_bits, n) in [(32u32, 9u32), (8, 6), (40, 2), (100, 7), (128, 3), (200, 3), (32, 0), (32, 1), (0, 4),
        (1, 4), (4, 34), (4, 7), (9, 6), (10, 100), (194, 60), (256, 4), (300, 3)] {
        let ks = place(key, start, range_bits, n);
        assert_eq!(ks.len(), n as usize);
        let range: u128 = if range_bits >= 128 { u128::MAX } else { 1 << range_bits };
        let half = n / 2;
        let delta = range / (half as u128).max(1);
        let wild = wild_starts(range_bits, n);
        for i in 0..n {
            let k = &ks[i as usize];
            assert_eq!((k.z, k.is_active, k._padding), (limbs_one(), 1, [0, 0]));
            let d = distance(k);
            if i < half {
                assert_eq!(k.ktype, 0);
                let jitter = hash_u128(i, 0xCAFEBABE) % (delta / 2 + 1);
                assert_eq!(d, (i as u128 * delta + jitter) % range);
                let at = U256::from_u128(start).wrapping_add(&U256::from_u128(d));
                assert_eq!((k.x, k.y), g_times(at));
            } else {
                assert_eq!(k.ktype, 1);
                assert_eq!(d, wild[(i - half) as usize]);
                let at = U256::from_u128(key).wrapping_add(&U256::from_u128(d));
                assert_eq!((k.x, k.y), g_times(at));
            }
        }
    }
}

#[test]
fn tame_starts_increase_inside_the_range() {
    let ks = place(5, 1, 20, 64);
    for i in 1..32 {
        assert!(distance(&ks[i - 1]) < distance(&ks[i]));
    }
    assert!(distance(&ks[31]) < 1 << 20);
}

#[test]
fn wild_starts_differ() {
    let ks = place(5, 1, 32, 64);
    for i in 32..64 {
        for j in 32..i {
            assert_ne!(distance(&ks[i]), distance(&ks[j]));
            assert_ne!(ks[i].x, ks[j].x);
        }
    }
}

#[test]
fn wild_starts_differ_in_a_small_range() {
    for (range_bits, n) in [(0u32, 4u32), (1, 4), (4, 32), (4, 34), (8, 200), (16, 2000)] {
        let ks = place(5, 1, range_bits, n);
        let wild = &ks[(n / 2) as usize..];
        let mut dist: Vec<u128> = wild.iter().map(distance).collect();
        assert_eq!(dist, wild_starts(range_bits, n));
        if wild.len() <= 1 << range_bits {
            assert!(dist.iter().all(|d| *d < 1 << range_bits));
        }
        dist.sort();
        dist.dedup();
        assert_eq!(dist.len(), wild.len());
        let mut at: Vec<([u32; 8], [u32; 8])> = wild.iter().map(|k| (k.x, k.y)).collect();
        at.sort();
        at.dedup();
        assert_eq!(at.len(), wild.len());
    }
}

#[test]
fn a_repeated_draw_takes_what_is_left() {
    assert_eq!(wild_draws(1, 4), vec![1, 1]);
    assert_eq!(wild_distances(1, 4), vec![1, 0]);
    assert_eq!(wild_draws(0, 4), vec![0, 0]);
    assert_eq!(wild_distances(0, 4), vec![0, 1]);
}

#[test]
fn draws_that_differ_are_kept() {
    // three strides of 256 in 512 keys
    let d = wild_distances(9, 6);
    assert_eq!(d, wild_draws(9, 6));
    assert_eq!((d[0], d[2]), (229, 1));
    // 32 strides of 2^16 in 2^32 keys
    assert_eq!(wild_distances(32, 64), wild_draws(32, 64));
}

#[test]
fn only_repeated_draws_are_moved() {
    let (draws, d) = (wild_draws(8, 60), wild_distances(8, 60));
    let mut moved = 0;
    for i in 0..d.len() {
        if draws[0..i].contains(&draws[i]) {
            moved += 1;
            assert!(d[i] < 30);
            assert!(!draws.contains(&d[i]));
        } else {
            assert_eq!(d[i], draws[i]);
        }
    }
    assert!(moved > 0);
}

#[test]
fn a_wild_start_of_a_known_key_is_a_tame_start() {
    for rand in [0u128, 1, 77, u128::MAX] {
        let (tame, tame_dist) = tame_init(&number_le(1234), rand);
        let (wild, wild_dist) = wild_init(&times_generator(&number_be(1234)), rand);
        let (t, w) = (affine_to_gpu(&tame), affine_to_gpu(&wild));
        assert_eq!((t.x, t.y, tame_dist), (w.x, w.y, wild_dist));
        assert_eq!(wild_dist[4..8], [0u32; 4]);
    }
}

#[test]
fn infinity_adds_nothing() {
    let p = times_generator(&number_be(99));
    let (q, dist) = wild_init(&p, 0);
    let (a, b) = (affine_to_gpu(&p), affine_to_gpu(&q));
    assert_eq!((a.x, a.y), (b.x, b.y));
    assert_eq!(dist, [0u32; 8]);
}

#[test]
fn a_kangaroo_at_infinity_is_refused() {
    let mut order = [0u8; 32];
    order.copy_from_slice(
        &U256::from_be_hex("FFFFFFFFFFFFFFFFFFFFFFFFFFFFFFFEBAAEDCE6AF48A03BBFD25E8CD0364141")
            .to_le_bytes(),
    );
    let pubkey = times_generator(&number_be(5));
    match initialize_kangaroos(&pubkey, &order, 0, 2) {
        Err(e) => assert_eq!(e, InitError::PointAtInfinity),
        Ok(_) => panic!("placed at infinity"),
    }
}

#[test]
fn starts_wrap_at_256_bits() {
    let pubkey = times_generator(&number_be(5));
    let Ok(ks) = initialize_kangaroos(&pubkey, &[0xff; 32], 32, 4) else {
        panic!("not placed");
    };
    let d = distance(&ks[1]);
    assert!(d > 0);
    assert_eq!((ks[1].x, ks[1].y), g_times(U256::from_u128(d - 1)));
}

#[test]
fn points_from_coordinates() {
    let g = affine_to_gpu(&times_generator(&number_be(1)));
    assert_eq!((g.x, g.y), coordinates(AffinePoint::GENERATOR));
    let e = AffinePoint::GENERATOR.to_encoded_point(false);
    let (mut x, mut y) = ([0u8; 32], [0u8; 32]);
    x.copy_from_slice(&e.as_bytes()[1..33]);
    y.copy_from_slice(&e.as_bytes()[33..65]);
    let p = Point::from_coordinates(&x, &y).unwrap();
    let back = affine_to_gpu(&p);
    assert_eq!((back.x, back.y), (g.x, g.y));
    assert!(!p.is_infinity());
    y[31] ^= 1;
    assert!(Point::from_coordinates(&x, &y).is_none());
    assert!(Point::from_coordinates(&[0xff; 32], &y).is_none());
    assert!(Point::from_coordinates(&[0; 32], &[0; 32]).is_none());
}

#[test]
fn multiples_wrap_at_the_group_order() {
    assert!(times_generator(&[0; 32]).is_infinity());
    let order = U256::from_be_hex("FFFFFFFFFFFFFFFFFFFFFFFFFFFFFFFEBAAEDCE6AF48A03BBFD25E8CD0364141");
    assert!(times_generator(&order.to_be_bytes()).is_infinity());
    let p = affine_to_gpu(&times_generator(&order.wrapping_add(&U256::from_u8(3)).to_be_bytes()));
    let q = affine_to_gpu(&times_generator(&number_be(3)));
    assert_eq!((p.x, p.y), (q.x, q.y));
}

#[test]
fn a_wild_start_at_infinity_is_refused() {
    // the wild kangaroo of two starts below 256 away; its distance is subtracted
    let d = place(5, 1, 16, 2)[1].dist[0];
    let order = U256::from_be_hex("FFFFFFFFFFFFFFFFFFFFFFFFFFFFFFFEBAAEDCE6AF48A03BBFD25E8CD0364141");
    let pubkey = times_generator(&order.wrapping_sub(&U256::from_u32(d)).to_be_bytes());
    match initialize_kangaroos(&pubkey, &number_le(1), 16, 2) {
        Err(e) => assert_eq!(e, InitError::PointAtInfinity),
        Ok(_) => panic!("placed at infinity"),
    }
}
