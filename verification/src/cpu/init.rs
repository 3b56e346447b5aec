//! Jump table and starting positions.
//!
//! Tame kangaroo `i` starts at `(start + offset_i) * G` with distance
//! `offset_i`; wild kangaroo `i` at `pubkey + rand_i * G` with distance
//! `rand_i`, no two of them with the same one.

use crate::bytes;
use crate::cpu::dp_table;
use crate::cpu::wild;
use crate::curve;
use crate::curve::Point;
use crate::gpu;
use crate::gpu::{GpuAffinePoint, GpuKangaroo};
use crate::math;
use crate::parallel;
use vstd::arithmetic::div_mod::*;
use vstd::arithmetic::power2::*;
use vstd::prelude::*;

verus! {

// ---------------------------------------------------------------------------
// Jump table
// ---------------------------------------------------------------------------

/// How many jumps there are.
pub const TABLE_SIZE: u32 = 256;

/// Jumps are shorter than `2` to this power: half the bits of the range, and
/// eight at least.
pub open spec fn jump_exponent(range_bits: u32) -> u32 {
    if range_bits / 2 < 8 {
        8
    } else {
        range_bits / 2
    }
}

/// Jumps are shorter than `2` to this power.
pub fn jump_bits(range_bits: u32) -> (r: u32)
    ensures
        r == jump_exponent(range_bits),
{
    if range_bits / 2 < 8 {
        8
    } else {
        range_bits / 2
    }
}

/// The hash state from which the bytes of jump `i` are drawn.
pub open spec fn jump_seed(i: u32) -> u32 {
    let h = (0x811c9dc5u32 ^ i).wrapping_mul(0x01000193);
    (h ^ (h >> 16)).wrapping_mul(0x45d9f3b)
}

/// The hash state after `b` bytes of jump `i`.
pub open spec fn jump_state(i: u32, b: nat) -> u32
    decreases b,
{
    if b == 0 {
        jump_seed(i)
    } else {
        jump_state(i, (b - 1) as nat).wrapping_mul(0x01000193) ^ ((b - 1) as u32)
    }
}

/// Byte `b` of jump `i`: the top byte of the hash state.
pub open spec fn jump_byte(i: u32, b: nat) -> u8 {
    (jump_state(i, b + 1) >> 24) as u8
}

/// The first `n` bytes of jump `i`.
pub open spec fn jump_bytes(i: u32, n: nat) -> Seq<u8> {
    Seq::new(n, |b: int| jump_byte(i, b as nat))
}

/// The length of jump `i`: `e` bits of hash, or the index where these are zero.
pub open spec fn jump_distance(i: u32, e: u32) -> nat {
    let v = bytes::be_value(jump_bytes(i, ((e + 7) / 8) as nat)) % pow2(e as nat);
    if v > 0 {
        v
    } else if i > 0 {
        i as nat
    } else {
        1
    }
}

/// Five bytes of a jump in a row are never all ones.
proof fn lemma_no_long_run_of_ones(i: u32)
    ensures
        exists|b: nat| b < 5 && #[trigger] jump_byte(i, b) != 0xff,
{
    let (s1, s2, s3, s4, s5) = (
        jump_state(i, 1),
        jump_state(i, 2),
        jump_state(i, 3),
        jump_state(i, 4),
        jump_state(i, 5),
    );
    let m1 = s1.wrapping_mul(0x01000193);
    let m2 = s2.wrapping_mul(0x01000193);
    let m3 = s3.wrapping_mul(0x01000193);
    let m4 = s4.wrapping_mul(0x01000193);
    assert(s1 >> 24 <= 0xff && s2 >> 24 <= 0xff && s3 >> 24 <= 0xff && s4 >> 24 <= 0xff && s5 >> 24
        <= 0xff) by (bit_vector);
    assert(s1 >> 24 != 0xff || s2 >> 24 != 0xff || s3 >> 24 != 0xff || s4 >> 24 != 0xff || s5 >> 24
        != 0xff) by (bit_vector)
        requires
            m1 == (s1 * 0x0100_0193u32) % 0x1_0000_0000,
            s2 == m1 ^ 1,
            m2 == (s2 * 0x0100_0193u32) % 0x1_0000_0000,
            s3 == m2 ^ 2,
            m3 == (s3 * 0x0100_0193u32) % 0x1_0000_0000,
            s4 == m3 ^ 3,
            m4 == (s4 * 0x0100_0193u32) % 0x1_0000_0000,
            s5 == m4 ^ 4,
    ;
    assert(jump_byte(i, 0) == s1 >> 24);
    assert(jump_byte(i, 1) == s2 >> 24);
    assert(jump_byte(i, 2) == s3 >> 24);
    assert(jump_byte(i, 3) == s4 >> 24);
    assert(jump_byte(i, 4) == s5 >> 24);
}

/// The values of the powers of two around the group order.
pub proof fn lemma_powers_around_order()
    ensures
        pow2(128) == 0x1_0000_0000_0000_0000_0000_0000_0000_0000,
        pow2(255) < curve::group_order(),
        pow2(256) < 2 * curve::group_order(),
        pow2(256) > curve::group_order(),
        curve::group_order() / pow2(216) + 1 == pow2(40),
{
    lemma2_to64();
    lemma2_to64_rest();
    lemma_pow2_adds(64, 64);
    lemma_pow2_adds(128, 64);
    lemma_pow2_adds(192, 24);
    lemma_pow2_adds(192, 63);
    lemma_pow2_unfold(256);
    let (p24, p63, p64) = (pow2(24), pow2(63), pow2(64));
    assert(p64 * p64 == 0x1_0000_0000_0000_0000_0000_0000_0000_0000) by (nonlinear_arith)
        requires
            p64 == 0x1_0000_0000_0000_0000,
    ;
    let p128 = pow2(128);
    assert(p128 * p64 == 0x1_0000_0000_0000_0000_0000_0000_0000_0000_0000_0000_0000_0000nat)
        by (nonlinear_arith)
        requires
            p64 == 0x1_0000_0000_0000_0000,
            p128 == 0x1_0000_0000_0000_0000_0000_0000_0000_0000,
    ;
    let p192 = pow2(192);
    assert(p192 * p24
        == 0x1_0000_0000_0000_0000_0000_0000_0000_0000_0000_0000_0000_0000_000000nat)
        by (nonlinear_arith)
        requires
            p24 == 0x100_0000,
            p192 == 0x1_0000_0000_0000_0000_0000_0000_0000_0000_0000_0000_0000_0000nat,
    ;
    assert(p192 * p63
        == 0x8000_0000_0000_0000_0000_0000_0000_0000_0000_0000_0000_0000_0000_0000_0000_0000nat)
        by (nonlinear_arith)
        requires
            p63 == 0x8000_0000_0000_0000,
            p192 == 0x1_0000_0000_0000_0000_0000_0000_0000_0000_0000_0000_0000_0000nat,
    ;
    let n = curve::group_order();
    lemma_fundamental_div_mod_converse(
        n as int,
        pow2(216) as int,
        0xFF_FFFF_FFFF,
        0xFFFFFF_FFFFFFFF_FFFFFFFE_BAAEDCE6_AF48A03B_BFD25E8C_D0364141int,
    );
}

/// A jump is at least one and shorter than `2^e`, and no multiple of the group
/// order.
pub proof fn lemma_jump_distance_bounds(i: u32, e: u32)
    requires
        i < TABLE_SIZE,
        8 <= e <= 256,
    ensures
        1 <= jump_distance(i, e) < pow2(e as nat),
        jump_distance(i, e) % curve::group_order() != 0,
{
    let n = curve::group_order();
    let nb = ((e + 7) / 8) as nat;
    let s = jump_bytes(i, nb);
    let v = bytes::be_value(s) % pow2(e as nat);
    lemma2_to64();
    lemma_pow2_pos(e as nat);
    lemma_mod_bound(bytes::be_value(s) as int, pow2(e as nat) as int);
    if e > 8 {
        lemma_pow2_strictly_increases(8, e as nat);
    }
    lemma_powers_around_order();
    let d = jump_distance(i, e);
    if e < 256 {
        if e < 255 {
            lemma_pow2_strictly_increases(e as nat, 255);
        }
        lemma_small_mod(d, n);
    } else {
        bytes::lemma_be_bound(s);
        lemma_small_mod(bytes::be_value(s), pow2(256));
        if d % n == 0 {
            lemma_fundamental_div_mod(d as int, n as int);
            let q = d / n;
            assert(q == 1) by (nonlinear_arith)
                requires
                    d == n * q,
                    1 <= d,
                    d < 2 * n,
                    q >= 0,
            ;
            assert(d == n);
            lemma_no_long_run_of_ones(i);
            let b = choose|b: nat| b < 5 && #[trigger] jump_byte(i, b) != 0xff;
            let head = s.take(5);
            let tail = s.skip(5);
            assert(s =~= head + tail);
            assert(head[b as int] == jump_byte(i, b));
            bytes::lemma_be_not_all_ones(head, b as int);
            bytes::lemma_be_concat(head, tail);
            bytes::lemma_be_bound(tail);
            lemma_fundamental_div_mod_converse(
                d as int,
                pow2(216) as int,
                bytes::be_value(head) as int,
                bytes::be_value(tail) as int,
            );
        }
    }
}

/// `b` modulo `2^bits`.
fn low_bits(b: u8, bits: u32) -> (r: u8)
    requires
        bits < 8,
    ensures
        r as nat == b as nat % pow2(bits as nat),
{
    let m: u128 = math::power_of_two(bits);
    proof {
        lemma2_to64();
        lemma_pow2_pos(bits as nat);
        lemma_pow2_strictly_increases(bits as nat, 8);
        lemma_mod_bound(b as int, m as int);
    }
    (b as u128 % m) as u8
}

/// The first bytes of jump `i`, at the end of 32.
fn draw_bytes(i: u32, num_bytes: usize) -> (b: [u8; 32])
    requires
        num_bytes <= 32,
    ensures
        forall|j: int| 0 <= j < 32 - num_bytes ==> b@[j] == 0,
        b@.skip(32 - num_bytes) == jump_bytes(i, num_bytes as nat),
{
    let mut h: u32 = 0x811c9dc5;
    h = (h ^ i).wrapping_mul(0x01000193);
    h = (h ^ (h >> 16)).wrapping_mul(0x45d9f3b);

    let first: usize = 32 - num_bytes;
    let mut b = [0u8; 32];
    for k in 0..num_bytes
        invariant
            first + num_bytes == 32,
            h == jump_state(i, k as nat),
            forall|j: int| 0 <= j < first ==> b@[j] == 0,
            forall|j: int|
                first <= j < first + k ==> #[trigger] b@[j] == jump_byte(i, (j - first) as nat),
    {
        h = h.wrapping_mul(0x01000193) ^ (k as u32);
        b[first + k] = (h >> 24) as u8;
    }
    assert(b@.skip(32 - num_bytes) =~= jump_bytes(i, num_bytes as nat));
    b
}

/// Leading zero bytes do not count.
proof fn lemma_be_skip_zeros(s: Seq<u8>, n: int)
    requires
        0 <= n <= s.len(),
        forall|j: int| 0 <= j < n ==> s[j] == 0,
    ensures
        bytes::be_value(s) == bytes::be_value(s.skip(n)),
{
    assert(s =~= s.take(n) + s.skip(n));
    bytes::lemma_be_concat(s.take(n), s.skip(n));
    bytes::lemma_be_zeros(s.take(n));
    assert(0 * pow2(8 * s.skip(n).len()) == 0);
}

/// The length of jump `i`, as big-endian bytes.
fn jump_scalar(i: u32, mean_exp: u32) -> (scalar_be: [u8; 32])
    requires
        i < TABLE_SIZE,
        8 <= mean_exp <= 256,
    ensures
        bytes::be_value(scalar_be@) == jump_distance(i, mean_exp),
{
    let num_bytes: usize = ((mean_exp + 7) / 8) as usize;
    let first: usize = 32 - num_bytes;
    let mut scalar_be = draw_bytes(i, num_bytes);
    let ghost raw = jump_bytes(i, num_bytes as nat);
    let rem: u32 = mean_exp % 8;
    if rem != 0 {
        let lead: u8 = low_bits(scalar_be[first], rem);
        assert(raw[0] == scalar_be@[first as int]) by {
            assert(scalar_be@.skip(first as int)[0] == scalar_be@[first as int]);
        }
        let ghost before = scalar_be@;
        scalar_be[first] = lead;
        proof {
            assert(scalar_be@.skip(first as int) =~= before.skip(first as int).update(0, lead));
            bytes::lemma_be_reduce_lead(raw, rem as nat);
        }
    } else {
        proof {
            bytes::lemma_be_bound(raw);
            lemma_small_mod(bytes::be_value(raw), pow2(mean_exp as nat));
        }
    }
    proof {
        lemma_be_skip_zeros(scalar_be@, first as int);
    }
    if bytes::is_zero(&scalar_be) {
        scalar_be = bytes::u128_to_be_bytes(if i > 0 { i as u128 } else { 1 });
    }
    scalar_be
}

/// An entry of the jump table.
pub struct Jump {
    pub point: GpuAffinePoint,
    pub distance: [u32; 8],
}

/// `distance` is the length of jump `i`, and `point` that multiple of `G`.
pub open spec fn is_jump(i: u32, e: u32, point: GpuAffinePoint, distance: [u32; 8]) -> bool {
    &&& bytes::limbs_value(distance@) == jump_distance(i, e)
    &&& curve::multiple(jump_distance(i, e)) == Some(point@)
}

/// Jump `i`, for jumps shorter than `2^mean_exp`.
pub fn jump_entry(i: u32, mean_exp: u32) -> (r: Jump)
    requires
        i < TABLE_SIZE,
        8 <= mean_exp <= 256,
    ensures
        is_jump(i, mean_exp, r.point, r.distance),
{
    let scalar_be = jump_scalar(i, mean_exp);
    proof {
        lemma_jump_distance_bounds(i, mean_exp);
    }
    let point = curve::times_generator(&scalar_be);
    Jump {
        point: curve::affine_to_gpu(&point),
        distance: bytes::scalar_be_to_limbs(&scalar_be),
    }
}

/// The points and distances of all jumps for a range.
pub open spec fn is_jump_table(
    range_bits: u32,
    points: Seq<GpuAffinePoint>,
    distances: Seq<[u32; 8]>,
) -> bool {
    &&& points.len() == TABLE_SIZE
    &&& distances.len() == TABLE_SIZE
    &&& forall|i: u32|
        i < TABLE_SIZE ==> is_jump(
            i,
            jump_exponent(range_bits),
            #[trigger] points[i as int],
            distances[i as int],
        )
}

/// The jump table: 256 points with the distances that lead to them.
pub fn generate_jump_table(range_bits: u32) -> (r: (Vec<GpuAffinePoint>, Vec<[u32; 8]>))
    requires
        range_bits / 2 <= 256,
    ensures
        is_jump_table(range_bits, r.0@, r.1@),
{
    let mean_exp: u32 = jump_bits(range_bits);
    let entry = |i: u32| -> (e: Jump)
        requires
            i < TABLE_SIZE,
        ensures
            is_jump(i, mean_exp, e.point, e.distance),
        { jump_entry(i, mean_exp) };
    let results = parallel::par_map(TABLE_SIZE, entry);
    let mut points: Vec<GpuAffinePoint> = Vec::new();
    let mut distances: Vec<[u32; 8]> = Vec::new();
    for k in 0..results.len()
        invariant
            results@.len() == TABLE_SIZE,
            points@.len() == k,
            distances@.len() == k,
            forall|i: u32|
                i < TABLE_SIZE ==> is_jump(
                    i,
                    mean_exp,
                    (#[trigger] results@[i as int]).point,
                    results@[i as int].distance,
                ),
            forall|i: int| 0 <= i < k ==> #[trigger] points@[i] == results@[i].point,
            forall|i: int| 0 <= i < k ==> #[trigger] distances@[i] == results@[i].distance,
    {
        points.push(results[k].point);
        distances.push(results[k].distance);
    }
    assert forall|i: u32| i < TABLE_SIZE implies is_jump(
        i,
        jump_exponent(range_bits),
        #[trigger] points@[i as int],
        distances@[i as int],
    ) by {
        assert(is_jump(i, mean_exp, results@[i as int].point, results@[i as int].distance));
        assert(distances@[i as int] == results@[i as int].distance);
    }
    (points, distances)
}

// ---------------------------------------------------------------------------
// Starting positions
// ---------------------------------------------------------------------------

/// A deterministic 128-bit hash of an index, for jitter.
#[verifier::opaque]
pub open spec fn jitter_hash(index: u32, salt: u64) -> u128 {
    let a = (0xcbf29ce484222325u64 ^ index as u64).wrapping_mul(0x100000001b3);
    let b = (a ^ salt).wrapping_mul(0x100000001b3);
    let c = (b ^ (b >> 33)).wrapping_mul(0xff51afd7ed558ccd);
    let h = c ^ (c >> 33);
    let h2 = h.wrapping_mul(0xc4ceb9fe1a85ec53) ^ (index as u64).wrapping_mul(0x9e3779b97f4a7c15);
    ((h as u128) << 64) | (h2 as u128)
}

/// The salt of the tame kangaroos' jitter.
pub const TAME_SALT: u64 = 0xCAFEBABE;

/// The salt of the wild kangaroos' jitter.
pub const WILD_SALT: u64 = 0xDEADBEEF;

/// How many keys are searched: `2^range_bits`, or the largest 128-bit number.
pub open spec fn range_size(range_bits: u32) -> nat {
    if range_bits >= 128 {
        u128::MAX as nat
    } else {
        pow2(range_bits as nat)
    }
}

/// How many keys are searched.
pub fn range_len(range_bits: u32) -> (r: u128)
    ensures
        r == range_size(range_bits),
{
    if range_bits >= 128 {
        u128::MAX
    } else {
        math::power_of_two(range_bits)
    }
}

/// The distance between the grid points of the tame kangaroos.
pub open spec fn grid_delta(range_bits: u32, num_kangaroos: u32) -> nat {
    let half = num_kangaroos / 2;
    range_size(range_bits) / (if half == 0 {
        1
    } else {
        half as nat
    })
}

/// The distance between the grid points of the tame kangaroos.
pub fn grid_step(range_bits: u32, num_kangaroos: u32) -> (r: u128)
    ensures
        r == grid_delta(range_bits, num_kangaroos),
{
    let half: u32 = num_kangaroos / 2;
    range_len(range_bits) / (if half == 0 {
        1
    } else {
        half as u128
    })
}

/// Where tame kangaroo `i` starts, counted from the start of the range: at grid
/// point `i`, moved on by at most half a grid step.
pub open spec fn tame_offset(range_bits: u32, num_kangaroos: u32, i: u32) -> nat {
    let delta = grid_delta(range_bits, num_kangaroos);
    (i as nat * delta + jitter_hash(i, TAME_SALT) as nat % (delta / 2 + 1)) % range_size(range_bits)
}

/// The distance that kangaroo `i` starts with: the first half is tame, the rest
/// wild.
pub open spec fn start_distance(range_bits: u32, num_kangaroos: u32, i: u32) -> nat {
    if i < num_kangaroos / 2 {
        tame_offset(range_bits, num_kangaroos, i)
    } else {
        wild::wild_offset(range_bits, num_kangaroos, i)
    }
}

/// The point that kangaroo `i` starts at.
pub open spec fn start_point(
    pubkey: Option<(nat, nat)>,
    start: nat,
    range_bits: u32,
    num_kangaroos: u32,
    i: u32,
) -> Option<(nat, nat)> {
    let dist = start_distance(range_bits, num_kangaroos, i);
    if i < num_kangaroos / 2 {
        curve::multiple((start + dist) % pow2(256))
    } else {
        curve::point_sum(pubkey, curve::multiple(dist))
    }
}

/// A deterministic 128-bit hash of an index, for jitter.
pub fn hash_u128(index: u32, salt: u64) -> (r: u128)
    ensures
        r == jitter_hash(index, salt),
{
    reveal(jitter_hash);
    let mut h: u64 = 0xcbf29ce484222325;
    h = h ^ (index as u64);
    h = h.wrapping_mul(0x100000001b3);
    h = h ^ salt;
    h = h.wrapping_mul(0x100000001b3);
    h = h ^ (h >> 33);
    h = h.wrapping_mul(0xff51afd7ed558ccd);
    h = h ^ (h >> 33);
    let h2: u64 = h.wrapping_mul(0xc4ceb9fe1a85ec53) ^ (index as u64).wrapping_mul(
        0x9e3779b97f4a7c15,
    );
    ((h as u128) << 64) | (h2 as u128)
}

/// The limbs of one.
pub fn limbs_one() -> (r: [u32; 8])
    ensures
        bytes::limbs_value(r@) == 1,
{
    let r: [u32; 8] = [1, 0, 0, 0, 0, 0, 0, 0];
    proof {
        lemma2_to64();
        let s = r@.skip(1);
        assert(r@ =~= seq![1u32] + s);
        bytes::lemma_limbs_concat(seq![1u32], s);
        bytes::lemma_limbs_single(1);
        bytes::lemma_limbs_zeros(s);
        assert(pow2(32) * 0 == 0) by (nonlinear_arith);
    }
    r
}

/// `point` is `(start + offset) * G`, reached by no other multiplier, and `dist`
/// the offset as limbs.
pub open spec fn is_tame_start(
    start: nat,
    offset: nat,
    point: Option<(nat, nat)>,
    dist: Seq<u32>,
) -> bool {
    let k = (start + offset) % pow2(256);
    &&& point == curve::multiple(k)
    &&& point is None <==> k % curve::group_order() == 0
    &&& curve::only_multiple(point, k)
    &&& dist.len() == 8
    &&& bytes::limbs_value(dist) == offset
}

/// `point` is `pubkey + rand * G`, and `dist` is `rand` as limbs.
pub open spec fn is_wild_start(
    pubkey: Option<(nat, nat)>,
    rand: nat,
    point: Option<(nat, nat)>,
    dist: Seq<u32>,
) -> bool {
    &&& point == curve::point_sum(pubkey, curve::multiple(rand))
    &&& rand == 0 ==> point == pubkey
    &&& forall|key: nat| #[trigger]
        curve::is_key_of(pubkey, key) ==> point == curve::multiple(key + rand) && (point is None
            <==> (key + rand) % curve::group_order() == 0)
    &&& dist.len() == 8
    &&& bytes::limbs_value(dist) == rand
}

/// A tame start: the point `(start + offset) * G`, and the offset as limbs.
pub fn tame_init(start: &[u8; 32], offset: u128) -> (r: (Point, [u32; 8]))
    ensures
        r.0.wf(),
        is_tame_start(bytes::le_value(start@), offset as nat, r.0@, r.1@),
{
    let off_be = bytes::u128_to_be_bytes(offset);
    let off_le = bytes::reversed(&off_be);
    let sum_le = curve::wrapping_add(start, &off_le);
    let point = curve::times_generator(&bytes::reversed(&sum_le));
    (point, bytes::scalar_be_to_limbs(&off_be))
}

/// A wild start: the point `pubkey + rand * G`, and `rand` as limbs.
pub fn wild_init(pubkey: &Point, rand: u128) -> (r: (Point, [u32; 8]))
    requires
        pubkey.wf(),
    ensures
        r.0.wf(),
        is_wild_start(pubkey@, rand as nat, r.0@, r.1@),
        forall|o: Option<(nat, nat)>|
            curve::is_point_view(o) && #[trigger] curve::point_sum(pubkey@, o) == r.0@ ==> o
                == curve::multiple(rand as nat),
        curve::only_multiple(curve::multiple(rand as nat), rand as nat),
        curve::is_point_view(curve::multiple(rand as nat)),
{
    let rand_be = bytes::u128_to_be_bytes(rand);
    let rand_point = curve::times_generator(&rand_be);
    let point = curve::add_points(pubkey, &rand_point);
    assert(curve::is_key_of(rand_point@, rand as nat));
    (point, bytes::scalar_be_to_limbs(&rand_be))
}

/// A wild start from a public key whose private key is known is the tame start
/// from that key, point and limbs alike, and the upper limbs are zero.
pub proof fn lemma_wild_start_of_known_key(
    start: nat,
    rand: nat,
    tame: (Option<(nat, nat)>, Seq<u32>),
    wild: (Option<(nat, nat)>, Seq<u32>),
)
    requires
        rand < pow2(128),
        start + rand < pow2(256),
        is_tame_start(start, rand, tame.0, tame.1),
        is_wild_start(curve::multiple(start), rand, wild.0, wild.1),
    ensures
        wild == tame,
        forall|i: int| 4 <= i < 8 ==> wild.1[i] == 0,
{
    lemma_small_mod(start + rand, pow2(256));
    assert(curve::is_key_of(curve::multiple(start), start));
    bytes::lemma_limbs_unique(wild.1, tame.1);
    lemma_wild_limbs_are_short(curve::multiple(start), rand, wild.0, wild.1);
}

/// The upper limbs of a wild start's distance are zero.
pub proof fn lemma_wild_limbs_are_short(
    pubkey: Option<(nat, nat)>,
    rand: nat,
    point: Option<(nat, nat)>,
    dist: Seq<u32>,
)
    requires
        rand < pow2(128),
        is_wild_start(pubkey, rand, point, dist),
    ensures
        forall|i: int| 4 <= i < 8 ==> dist[i] == 0,
{
    bytes::lemma_short_limbs(dist);
}

/// The record of kangaroo `i`, if it starts at an affine point.
pub open spec fn is_kangaroo(
    pubkey: Option<(nat, nat)>,
    start: nat,
    range_bits: u32,
    num_kangaroos: u32,
    i: u32,
    k: Option<GpuKangaroo>,
) -> bool {
    match start_point(pubkey, start, range_bits, num_kangaroos, i) {
        Some(at) => k matches Some(k) && k@ == gpu::placed_at(
            at,
            start_distance(range_bits, num_kangaroos, i),
            if i < num_kangaroos / 2 {
                0
            } else {
                1
            },
        ),
        None => k is None,
    }
}

/// Tame kangaroo `i` starts at a point that no other multiplier leads to, and at
/// infinity only where its multiplier is a multiple of the group order.
pub open spec fn tame_start_is_known(
    start: nat,
    range_bits: u32,
    num_kangaroos: u32,
    i: u32,
) -> bool {
    let k = (start + tame_offset(range_bits, num_kangaroos, i)) % pow2(256);
    &&& curve::only_multiple(curve::multiple(k), k)
    &&& curve::multiple(k) is None <==> k % curve::group_order() == 0
}

/// Wild kangaroo `i` starts its distance away from the public key, whatever the
/// private key is, and at infinity only where the two cancel.
pub open spec fn wild_start_is_known(
    pubkey: Option<(nat, nat)>,
    range_bits: u32,
    num_kangaroos: u32,
    i: u32,
) -> bool {
    let dist = wild::wild_offset(range_bits, num_kangaroos, i);
    let p = curve::point_sum(pubkey, curve::multiple(dist));
    &&& dist == 0 ==> p == pubkey
    &&& forall|key: nat| #[trigger]
        curve::is_key_of(pubkey, key) ==> p == curve::multiple(key + dist) && (p is None <==> (key
            + dist) % curve::group_order() == 0)
}

/// Every start is known.
pub open spec fn starts_are_known(
    pubkey: Option<(nat, nat)>,
    start: nat,
    range_bits: u32,
    num_kangaroos: u32,
) -> bool {
    &&& forall|i: u32|
        i < num_kangaroos / 2 ==> #[trigger] tame_start_is_known(
            start,
            range_bits,
            num_kangaroos,
            i,
        )
    &&& forall|i: u32|
        num_kangaroos / 2 <= i < num_kangaroos ==> #[trigger] wild_start_is_known(
            pubkey,
            range_bits,
            num_kangaroos,
            i,
        )
}

/// No other point than `dist * G`, added to the public key, gives the start of
/// wild kangaroo `i`.
spec fn wild_start_cancels(
    pubkey: Option<(nat, nat)>,
    range_bits: u32,
    num_kangaroos: u32,
    i: u32,
) -> bool {
    let p = curve::multiple(wild::wild_offset(range_bits, num_kangaroos, i));
    &&& curve::is_point_view(p)
    &&& curve::only_multiple(p, wild::wild_offset(range_bits, num_kangaroos, i))
    &&& forall|o: Option<(nat, nat)>|
        curve::is_point_view(o) && #[trigger] curve::point_sum(pubkey, o) == curve::point_sum(
            pubkey,
            p,
        ) ==> o == p
}

/// A tame kangaroo's offset lies within half a step after its grid point, inside
/// the range.
pub proof fn lemma_tame_on_grid(range_bits: u32, num_kangaroos: u32, i: u32)
    requires
        i < num_kangaroos / 2,
    ensures
        ({
            let delta = grid_delta(range_bits, num_kangaroos);
            let offset = tame_offset(range_bits, num_kangaroos, i);
            &&& offset == i * delta + jitter_hash(i, TAME_SALT) as nat % (delta / 2 + 1)
            &&& i * delta <= offset <= i * delta + delta / 2
            &&& offset < range_size(range_bits)
        }),
{
    let r = range_size(range_bits);
    let half = (num_kangaroos / 2) as nat;
    let delta = grid_delta(range_bits, num_kangaroos);
    let jitter = jitter_hash(i, TAME_SALT) as nat % (delta / 2 + 1);
    lemma_pow2_pos(range_bits as nat);
    lemma_fundamental_div_mod(r as int, half as int);
    lemma_mod_bound(r as int, half as int);
    lemma_mod_bound(jitter_hash(i, TAME_SALT) as int, (delta / 2 + 1) as int);
    assert(i * delta + delta <= half * delta) by (nonlinear_arith)
        requires
            i + 1 <= half,
            delta >= 0,
    ;
    if delta > 0 {
        assert(i * delta + jitter < r);
    } else {
        assert(i * delta == 0) by (nonlinear_arith)
            requires
                delta == 0,
        ;
    }
    assert(i as nat * delta + jitter < r);
    lemma_small_mod((i as nat * delta + jitter) as nat, r);
}

/// Tame kangaroos start in the order of their indices, no two at one offset,
/// wherever the range has a grid point for each.
pub proof fn lemma_tame_offsets_increase(range_bits: u32, num_kangaroos: u32, i: u32, j: u32)
    requires
        i < j < num_kangaroos / 2,
        num_kangaroos / 2 <= range_size(range_bits),
    ensures
        tame_offset(range_bits, num_kangaroos, i) < tame_offset(range_bits, num_kangaroos, j),
{
    let r = range_size(range_bits);
    let half = (num_kangaroos / 2) as nat;
    let delta = grid_delta(range_bits, num_kangaroos);
    lemma_tame_on_grid(range_bits, num_kangaroos, i);
    lemma_tame_on_grid(range_bits, num_kangaroos, j);
    lemma_div_non_zero(r as int, half as int);
    assert(i * delta + delta <= j * delta) by (nonlinear_arith)
        requires
            i + 1 <= j,
            delta >= 0,
    ;
}

/// Why kangaroos could not be placed.
#[derive(Debug, Clone, Copy, PartialEq, Eq, Structural)]
pub enum InitError {
    /// A kangaroo would start at the point at infinity, which has no affine
    /// coordinates.
    PointAtInfinity,
}

/// A kangaroo's record, unless it starts at infinity.
fn kangaroo_at(point: &Point, dist: [u32; 8], ktype: u32) -> (k: Option<GpuKangaroo>)
    ensures
        match point@ {
            Some(at) => k matches Some(k) && k@ == gpu::placed_at(
                at,
                bytes::limbs_value(dist@),
                ktype,
            ),
            None => k is None,
        },
{
    if point.is_infinity() {
        return None;
    }
    let gp = curve::affine_to_gpu(point);
    let k = GpuKangaroo {
        x: gp.x,
        y: gp.y,
        z: limbs_one(),
        dist,
        ktype,
        is_active: 1,
        _padding: [0u32, 0u32],
    };
    assert(k@.padding =~= seq![0u32, 0u32]);
    Some(k)
}

/// How far from the start of the range tame kangaroo `i` starts.
fn tame_distance(
    range_bits: u32,
    num_kangaroos: u32,
    range: u128,
    delta: u128,
    i: u32,
) -> (r: u128)
    requires
        i < num_kangaroos / 2,
        range == range_size(range_bits),
        delta == grid_delta(range_bits, num_kangaroos),
    ensures
        r == tame_offset(range_bits, num_kangaroos, i),
{
    proof {
        lemma_pow2_pos(range_bits as nat);
        lemma_tame_on_grid(range_bits, num_kangaroos, i);
    }
    let grid_pos: u128 = i as u128 * delta;
    let jitter: u128 = hash_u128(i, TAME_SALT) % (delta / 2 + 1);
    (grid_pos + jitter) % range
}

/// Kangaroo `i`, unless it starts at infinity.
fn place_kangaroo(
    pubkey: &Point,
    start: &[u8; 32],
    range_bits: u32,
    num_kangaroos: u32,
    range: u128,
    delta: u128,
    wild_distances: &Vec<u128>,
    i: u32,
) -> (k: Option<GpuKangaroo>)
    requires
        pubkey.wf(),
        i < num_kangaroos,
        range == range_size(range_bits),
        delta == grid_delta(range_bits, num_kangaroos),
        wild_distances@.len() == wild::wild_count(num_kangaroos),
        forall|k: int|
            0 <= k < wild_distances@.len() ==> #[trigger] wild_distances@[k] == wild::wild_offset(
                range_bits,
                num_kangaroos,
                (num_kangaroos / 2 + k) as u32,
            ),
    ensures
        is_kangaroo(pubkey@, bytes::le_value(start@), range_bits, num_kangaroos, i, k),
        i < num_kangaroos / 2 ==> tame_start_is_known(
            bytes::le_value(start@),
            range_bits,
            num_kangaroos,
            i,
        ),
        i >= num_kangaroos / 2 ==> wild_start_is_known(pubkey@, range_bits, num_kangaroos, i)
            && wild_start_cancels(pubkey@, range_bits, num_kangaroos, i),
{
    if i < num_kangaroos / 2 {
        let offset: u128 = tame_distance(range_bits, num_kangaroos, range, delta, i);
        let (point, dist) = tame_init(start, offset);
        kangaroo_at(&point, dist, 0)
    } else {
        let k: usize = (i - num_kangaroos / 2) as usize;
        assert((num_kangaroos / 2 + k as int) as u32 == i);
        let rand: u128 = wild_distances[k];
        let (point, dist) = wild_init(pubkey, rand);
        kangaroo_at(&point, dist, 1)
    }
}

/// No two wild kangaroos have the same distance or the same position.
pub open spec fn wild_starts_differ(num_kangaroos: u32, ks: Seq<GpuKangaroo>) -> bool {
    forall|i: int, j: int|
        num_kangaroos / 2 <= i < j < num_kangaroos ==> (#[trigger] ks[i])@.dist != (
        #[trigger] ks[j])@.dist && (ks[i]@.x, ks[i]@.y) != (ks[j]@.x, ks[j]@.y)
}

/// Every kangaroo stands at its start, and no two wild ones at one point.
pub open spec fn all_placed(
    pubkey: Option<(nat, nat)>,
    start: nat,
    range_bits: u32,
    num_kangaroos: u32,
    ks: Seq<GpuKangaroo>,
) -> bool {
    &&& ks.len() == num_kangaroos
    &&& forall|i: u32|
        i < num_kangaroos ==> is_kangaroo(
            pubkey,
            start,
            range_bits,
            num_kangaroos,
            i,
            Some(#[trigger] ks[i as int]),
        )
    &&& wild_starts_differ(num_kangaroos, ks)
}

/// Some kangaroo would start at infinity.
pub open spec fn some_start_at_infinity(
    pubkey: Option<(nat, nat)>,
    start: nat,
    range_bits: u32,
    num_kangaroos: u32,
) -> bool {
    exists|i: u32|
        i < num_kangaroos && #[trigger] start_point(
            pubkey,
            start,
            range_bits,
            num_kangaroos,
            i,
        ) is None
}

/// The records of all kangaroos, or the index of the first one that is missing.
fn all_present(placed: &Vec<Option<GpuKangaroo>>) -> (r: Result<Vec<GpuKangaroo>, usize>)
    ensures
        match r {
            Ok(ks) => ks@.len() == placed@.len() && forall|i: int|
                0 <= i < placed@.len() ==> #[trigger] placed@[i] == Some(ks@[i]),
            Err(n) => n < placed@.len() && placed@[n as int] is None && forall|i: int|
                0 <= i < n ==> #[trigger] placed@[i] is Some,
        },
{
    let mut ks: Vec<GpuKangaroo> = Vec::new();
    for n in 0..placed.len()
        invariant
            ks@.len() == n,
            forall|i: int| 0 <= i < n ==> #[trigger] placed@[i] == Some(ks@[i]),
    {
        match placed[n] {
            Some(k) => {
                ks.push(k);
            },
            None => {
                return Err(n);
            },
        }
    }
    Ok(ks)
}

/// All kangaroos at their starts.
///
/// The tame ones are spread over the range that begins at `start`
/// (little-endian). The wild ones start at distances from `pubkey`, each at one
/// of its own.
pub fn initialize_kangaroos(
    pubkey: &Point,
    start: &[u8; 32],
    range_bits: u32,
    num_kangaroos: u32,
) -> (r: Result<Vec<GpuKangaroo>, InitError>)
    requires
        pubkey.wf(),
        wild::wild_seeds_fit(range_bits, num_kangaroos),
    ensures
        match r {
            Ok(ks) => all_placed(
                pubkey@,
                bytes::le_value(start@),
                range_bits,
                num_kangaroos,
                ks@,
            ),
            Err(InitError::PointAtInfinity) => some_start_at_infinity(
                pubkey@,
                bytes::le_value(start@),
                range_bits,
                num_kangaroos,
            ),
        },
        starts_are_known(pubkey@, bytes::le_value(start@), range_bits, num_kangaroos),
{
    let range: u128 = range_len(range_bits);
    let delta: u128 = grid_step(range_bits, num_kangaroos);
    let wild_distances = wild::wild_distances(range_bits, num_kangaroos);
    let ghost start_value = bytes::le_value(start@);
    let place = |i: u32| -> (k: Option<GpuKangaroo>)
        requires
            i < num_kangaroos,
        ensures
            is_kangaroo(pubkey@, bytes::le_value(start@), range_bits, num_kangaroos, i, k),
            i < num_kangaroos / 2 ==> tame_start_is_known(
                bytes::le_value(start@),
                range_bits,
                num_kangaroos,
                i,
            ),
            i >= num_kangaroos / 2 ==> wild_start_is_known(pubkey@, range_bits, num_kangaroos, i)
                && wild_start_cancels(pubkey@, range_bits, num_kangaroos, i),
        {
            place_kangaroo(
                pubkey,
                start,
                range_bits,
                num_kangaroos,
                range,
                delta,
                &wild_distances,
                i,
            )
        };
    let placed = parallel::par_map(num_kangaroos, place);
    proof {
        assert forall|i: u32| i < num_kangaroos implies is_kangaroo(
            pubkey@,
            start_value,
            range_bits,
            num_kangaroos,
            i,
            #[trigger] placed@[i as int],
        ) by {}
        assert forall|i: u32| i < num_kangaroos / 2 implies #[trigger] tame_start_is_known(
            start_value,
            range_bits,
            num_kangaroos,
            i,
        ) by {
            assert(call_ensures(place, (i,), placed@[i as int]));
        }
        assert forall|i: u32|
            num_kangaroos / 2 <= i < num_kangaroos implies #[trigger] wild_start_is_known(
            pubkey@,
            range_bits,
            num_kangaroos,
            i,
        ) by {
            assert(call_ensures(place, (i,), placed@[i as int]));
        }
    }
    let ks = match all_present(&placed) {
        Ok(ks) => ks,
        Err(n) => {
            assert(start_point(
                pubkey@,
                start_value,
                range_bits,
                num_kangaroos,
                n as u32,
            ) is None) by {
                assert(placed@[(n as u32) as int] is None);
            }
            return Err(InitError::PointAtInfinity);
        },
    };
    proof {
        assert forall|i: u32| i < num_kangaroos implies is_kangaroo(
            pubkey@,
            start_value,
            range_bits,
            num_kangaroos,
            i,
            Some(#[trigger] ks@[i as int]),
        ) by {
            assert(placed@[i as int] == Some(ks@[i as int]));
        }
        assert forall|i: int, j: int| num_kangaroos / 2 <= i < j < num_kangaroos implies (
        #[trigger] ks@[i])@.dist != (#[trigger] ks@[j])@.dist && (ks@[i]@.x, ks@[i]@.y) != (
            ks@[j]@.x,
            ks@[j]@.y,
        ) by {
            let (a, b) = (i as u32, j as u32);
            assert(call_ensures(place, (a,), placed@[a as int]));
            assert(call_ensures(place, (b,), placed@[b as int]));
            assert(ks@[i] == ks@[a as int] && ks@[j] == ks@[b as int]);
            wild::lemma_wild_offsets_differ(range_bits, num_kangaroos, a, b);
            lemma_cancelled_starts_differ(pubkey@, range_bits, num_kangaroos, a, b);
        }
    }
    Ok(ks)
}

/// Wild kangaroos start at different points.
proof fn lemma_cancelled_starts_differ(
    pubkey: Option<(nat, nat)>,
    range_bits: u32,
    num_kangaroos: u32,
    i: u32,
    j: u32,
)
    requires
        num_kangaroos / 2 <= i < j < num_kangaroos,
        wild_start_cancels(pubkey, range_bits, num_kangaroos, i),
        wild_start_cancels(pubkey, range_bits, num_kangaroos, j),
    ensures
        curve::point_sum(pubkey, curve::multiple(wild::wild_offset(range_bits, num_kangaroos, i)))
            != curve::point_sum(
            pubkey,
            curve::multiple(wild::wild_offset(range_bits, num_kangaroos, j)),
        ),
{
    let (a, b) = (
        wild::wild_offset(range_bits, num_kangaroos, i),
        wild::wild_offset(range_bits, num_kangaroos, j),
    );
    let n = curve::group_order();
    wild::lemma_wild_offsets_differ(range_bits, num_kangaroos, i, j);
    wild::lemma_wild_offset_fits(range_bits, num_kangaroos, i);
    wild::lemma_wild_offset_fits(range_bits, num_kangaroos, j);
    lemma_powers_around_order();
    lemma_pow2_strictly_increases(128, 255);
    lemma_small_mod(a, n);
    lemma_small_mod(b, n);
    if curve::point_sum(pubkey, curve::multiple(a)) == curve::point_sum(
        pubkey,
        curve::multiple(b),
    ) {
        assert(curve::multiple(b) == curve::multiple(a));
        assert(curve::base_multiple(b) == curve::multiple(a));
    }
}

/// Where a tame and a wild kangaroo start at one point, their distances give
/// the private key away, up to multiples of the group order.
pub proof fn lemma_start_meeting_reveals_key(
    start: nat,
    key: nat,
    range_bits: u32,
    num_kangaroos: u32,
    i: u32,
    j: u32,
)
    requires
        i < num_kangaroos / 2 <= j < num_kangaroos,
        tame_start_is_known(start, range_bits, num_kangaroos, i),
        wild_start_is_known(curve::multiple(key), range_bits, num_kangaroos, j),
        start_point(curve::multiple(key), start, range_bits, num_kangaroos, i) == start_point(
            curve::multiple(key),
            start,
            range_bits,
            num_kangaroos,
            j,
        ),
        start + tame_offset(range_bits, num_kangaroos, i) < pow2(256),
        wild::wild_offset(range_bits, num_kangaroos, j) <= start + tame_offset(
            range_bits,
            num_kangaroos,
            i,
        ),
    ensures
        dp_table::recovered_key(
            start,
            start_distance(range_bits, num_kangaroos, i),
            start_distance(range_bits, num_kangaroos, j),
        ) % curve::group_order() == key % curve::group_order(),
{
    let (td, wd) = (
        tame_offset(range_bits, num_kangaroos, i),
        wild::wild_offset(range_bits, num_kangaroos, j),
    );
    lemma_small_mod(start + td, pow2(256));
    assert(curve::is_key_of(curve::multiple(key), key));
    dp_table::lemma_collision_recovers_key(start, key, td, wd, curve::multiple(start + td));
}

} // verus!
