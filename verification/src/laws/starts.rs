//! Jumps and starting positions.

use crate::bytes;
use crate::cpu::init;
use crate::cpu::wild;
use crate::curve;
use crate::gpu::{GpuAffinePoint, GpuKangaroo};
use vstd::arithmetic::div_mod::*;
use vstd::arithmetic::power2::*;
use vstd::prelude::*;

verus! {

/// The states of a hash, each from the one before, are those of jump `i`.
proof fn lemma_states(i: u32, h: Seq<u32>, b: nat)
    requires
        b < h.len(),
        h[0] == ({
            let g = (0x811c9dc5u32 ^ i).wrapping_mul(0x01000193);
            (g ^ (g >> 16)).wrapping_mul(0x45d9f3b)
        }),
        forall|c: int|
            1 <= c < h.len() ==> #[trigger] h[c] == h[c - 1].wrapping_mul(0x01000193) ^ ((c
                - 1) as u32),
    ensures
        init::jump_state(i, b) == h[b as int],
    decreases b,
{
    if b > 0 {
        lemma_states(i, h, (b - 1) as nat);
    }
}

/// The jump table, whatever the range: with `e` half the bits of the range, eight
/// at least, the distance of entry `i` is made of the top bytes of as many states
/// of a hash of `i` as hold `e` bits, taken modulo `2^e`; only where that is zero,
/// it is `i`, or one for entry zero. The point is that multiple of `G`.
pub proof fn lemma_jump_table_entry(
    range_bits: u32,
    points: Seq<GpuAffinePoint>,
    distances: Seq<[u32; 8]>,
    i: u32,
    e: nat,
    h: Seq<u32>,
    s: Seq<u8>,
)
    requires
        init::is_jump_table(range_bits, points, distances),
        i < 256,
        e == if range_bits < 16 {
            8
        } else {
            (range_bits / 2) as nat
        },
        s.len() == (e + 7) / 8,
        h.len() == s.len() + 1,
        h[0] == ({
            let g = (0x811c9dc5u32 ^ i).wrapping_mul(0x01000193);
            (g ^ (g >> 16)).wrapping_mul(0x45d9f3b)
        }),
        forall|c: int|
            1 <= c < h.len() ==> #[trigger] h[c] == h[c - 1].wrapping_mul(0x01000193) ^ ((c
                - 1) as u32),
        forall|b: int| 0 <= b < s.len() ==> #[trigger] s[b] == (h[b + 1] >> 24) as u8,
    ensures
        ({
            let v = bytes::be_value(s) % pow2(e);
            let d = bytes::limbs_value(distances[i as int]@);
            let p = points[i as int];
            &&& points.len() == 256 && distances.len() == 256
            &&& v != 0 ==> d == v
            &&& v == 0 && i > 0 ==> d == i
            &&& v == 0 && i == 0 ==> d == 1
            &&& curve::base_multiple(d % curve::group_order()) == Some(
                (bytes::limbs_value(p.x@), bytes::limbs_value(p.y@)),
            )
        }),
{
    let drawn = init::jump_bytes(i, s.len());
    assert forall|b: int| 0 <= b < s.len() implies s[b] == drawn[b] by {
        lemma_states(i, h, (b + 1) as nat);
    }
    assert(s =~= drawn);
    assert(init::is_jump(
        i,
        init::jump_exponent(range_bits),
        points[i as int],
        distances[i as int],
    ));
    lemma_pow2_pos(e);
    lemma_mod_bound(bytes::be_value(s) as int, pow2(e) as int);
}

/// The hash behind jitter, state by state. Its upper half is the last state, and
/// its lower half mixes that with the index.
pub proof fn lemma_jitter_states(index: u32, salt: u64, h: Seq<u64>)
    requires
        h.len() == 5,
        h[0] == (0xcbf29ce484222325u64 ^ index as u64).wrapping_mul(0x100000001b3),
        h[1] == (h[0] ^ salt).wrapping_mul(0x100000001b3),
        h[2] == (h[1] ^ (h[1] >> 33)).wrapping_mul(0xff51afd7ed558ccd),
        h[3] == h[2] ^ (h[2] >> 33),
        h[4] == h[3].wrapping_mul(0xc4ceb9fe1a85ec53) ^ (index as u64).wrapping_mul(
            0x9e3779b97f4a7c15,
        ),
    ensures
        init::jitter_hash(index, salt) as int == h[3] * 0x1_0000_0000_0000_0000 + h[4],
{
    reveal(init::jitter_hash);
    let (a, b) = (h[3], h[4]);
    assert(((a as u128) << 64) | (b as u128) == a * 0x1_0000_0000_0000_0000 + b) by (bit_vector);
}

/// Multiplication modulo `2^64` by a number with an inverse loses nothing.
proof fn lemma_product_keeps_factor(x: u64, y: u64, c: u64, inverse: nat, k: nat)
    requires
        c * inverse == k * 0x1_0000_0000_0000_0000 + 1,
        x.wrapping_mul(c) == y.wrapping_mul(c),
    ensures
        x == y,
{
    lemma_factor_again(x, c, inverse, k);
    lemma_factor_again(y, c, inverse, k);
}

/// The inverse takes a product modulo `2^64` back to its factor.
proof fn lemma_factor_again(x: u64, c: u64, inverse: nat, k: nat)
    requires
        c * inverse == k * 0x1_0000_0000_0000_0000 + 1,
    ensures
        (x.wrapping_mul(c) * inverse) % 0x1_0000_0000_0000_0000 == x,
{
    let m = 0x1_0000_0000_0000_0000int;
    let product = (x * c) as int;
    assert(x.wrapping_mul(c) == product % m);
    lemma_mul_mod_noop_left(product, inverse as int, m);
    assert(product * inverse == m * (x * k) + x) by (nonlinear_arith)
        requires
            product == x * c,
            c * inverse == k * m + 1,
    ;
    lemma_mod_multiples_vanish((x * k) as int, x as int, m);
    lemma_small_mod(x as nat, m as nat);
}

/// Shifting a number down and adding the bits loses nothing.
proof fn lemma_fold_keeps_number(x: u64, y: u64)
    requires
        x ^ (x >> 33) == y ^ (y >> 33),
    ensures
        x == y,
{
    assert(x ^ (x >> 33) == y ^ (y >> 33) ==> x == y) by (bit_vector);
}

/// Adding bits, then multiplying by the prime of the hash, loses nothing.
proof fn lemma_round_keeps_number(x: u64, y: u64, bits: u64)
    requires
        (x ^ bits).wrapping_mul(0x100000001b3) == (y ^ bits).wrapping_mul(0x100000001b3),
    ensures
        x == y,
{
    assert(0x100000001b3 * 0xce965057aff6957bnat == 0xce9650590fnat * 0x1_0000_0000_0000_0000 + 1);
    lemma_product_keeps_factor(x ^ bits, y ^ bits, 0x100000001b3, 0xce965057aff6957b, 0xce9650590f);
    assert(x ^ bits == y ^ bits ==> x == y) by (bit_vector);
}

/// Multiplying by the mixing factor loses nothing.
proof fn lemma_mix_keeps_number(x: u64, y: u64)
    requires
        x.wrapping_mul(0xff51afd7ed558ccd) == y.wrapping_mul(0xff51afd7ed558ccd),
    ensures
        x == y,
{
    assert(0xff51afd7ed558ccd * 0x4f74430c22a54005nat == 0x4f3e2925cb7c5b4enat * 0x1_0000_0000_0000_0000 + 1);
    lemma_product_keeps_factor(x, y, 0xff51afd7ed558ccd, 0x4f74430c22a54005, 0x4f3e2925cb7c5b4e);
}

/// The upper half of the hash behind jitter.
proof fn lemma_jitter_upper_half(index: u32, salt: u64, a: u64, b: u64, c: u64)
    requires
        a == (index as u64 ^ 0xcbf29ce484222325u64).wrapping_mul(0x100000001b3),
        b == (a ^ salt).wrapping_mul(0x100000001b3),
        c == (b ^ (b >> 33)).wrapping_mul(0xff51afd7ed558ccd),
    ensures
        init::jitter_hash(index, salt) as nat / 0x1_0000_0000_0000_0000 == c ^ (c >> 33),
{
    let x = index as u64;
    assert(x ^ 0xcbf29ce484222325u64 == 0xcbf29ce484222325u64 ^ x) by (bit_vector);
    let h = c ^ (c >> 33);
    let low = h.wrapping_mul(0xc4ceb9fe1a85ec53) ^ x.wrapping_mul(0x9e3779b97f4a7c15);
    lemma_jitter_states(index, salt, seq![a, b, c, h, low]);
    lemma_fundamental_div_mod_converse(
        init::jitter_hash(index, salt) as int,
        0x1_0000_0000_0000_0000,
        h as int,
        low as int,
    );
}

/// No two indices have the same hash under one salt, not even in the upper half.
pub proof fn lemma_jitter_differs(i: u32, j: u32, salt: u64)
    requires
        i != j,
    ensures
        init::jitter_hash(i, salt) as nat / 0x1_0000_0000_0000_0000 != init::jitter_hash(
            j,
            salt,
        ) as nat / 0x1_0000_0000_0000_0000,
{
    let a = (i as u64 ^ 0xcbf29ce484222325u64).wrapping_mul(0x100000001b3);
    let b = (a ^ salt).wrapping_mul(0x100000001b3);
    let c = (b ^ (b >> 33)).wrapping_mul(0xff51afd7ed558ccd);
    let p = (j as u64 ^ 0xcbf29ce484222325u64).wrapping_mul(0x100000001b3);
    let q = (p ^ salt).wrapping_mul(0x100000001b3);
    let r = (q ^ (q >> 33)).wrapping_mul(0xff51afd7ed558ccd);
    lemma_jitter_upper_half(i, salt, a, b, c);
    lemma_jitter_upper_half(j, salt, p, q, r);
    if c ^ (c >> 33) == r ^ (r >> 33) {
        lemma_fold_keeps_number(c, r);
        lemma_mix_keeps_number(b ^ (b >> 33), q ^ (q >> 33));
        lemma_fold_keeps_number(b, q);
        lemma_round_keeps_number(a, p, salt);
        lemma_round_keeps_number(i as u64, j as u64, 0xcbf29ce484222325u64);
    }
}

/// Tame kangaroo `i` starts at its grid point, where the range is divided evenly
/// among all tame ones, and jitter of half a step at most, inside the range.
pub proof fn lemma_tame_offset(range_bits: u32, num_kangaroos: u32, i: u32, range: nat, step: nat)
    requires
        i < num_kangaroos / 2,
        range == if range_bits < 128 {
            pow2(range_bits as nat)
        } else {
            0xffff_ffff_ffff_ffff_ffff_ffff_ffff_ffff
        },
        step == range / ((num_kangaroos / 2) as nat),
    ensures
        init::tame_offset(range_bits, num_kangaroos, i) == i * step + init::jitter_hash(
            i,
            0xCAFEBABE,
        ) as nat % (step / 2 + 1),
        init::tame_offset(range_bits, num_kangaroos, i) < range,
        init::range_size(range_bits) == range,
        init::grid_delta(range_bits, num_kangaroos) == step,
{
    init::lemma_tame_on_grid(range_bits, num_kangaroos, i);
}

/// The range and the grid step, where there are no tame kangaroos too.
pub proof fn lemma_range_and_step(range_bits: u32, num_kangaroos: u32)
    ensures
        range_bits < 128 ==> init::range_size(range_bits) == pow2(range_bits as nat),
        range_bits >= 128 ==> init::range_size(range_bits) + 1 == pow2(128),
        num_kangaroos < 2 ==> init::grid_delta(range_bits, num_kangaroos) == init::range_size(
            range_bits,
        ),
        num_kangaroos >= 2 ==> init::grid_delta(range_bits, num_kangaroos) == init::range_size(
            range_bits,
        ) / ((num_kangaroos / 2) as nat),
        range_bits < 16 ==> init::jump_exponent(range_bits) == 8,
        range_bits >= 16 ==> init::jump_exponent(range_bits) == range_bits / 2,
{
    init::lemma_powers_around_order();
    lemma_div_basics(init::range_size(range_bits) as int);
}

/// Wild kangaroo `i` draws its stride and jitter of less than one, modulo the
/// size of the range.
pub proof fn lemma_wild_draw(
    range_bits: u32,
    num_kangaroos: u32,
    i: u32,
    range: nat,
    stride: nat,
)
    requires
        num_kangaroos / 2 <= i < num_kangaroos,
        range == if range_bits < 128 {
            pow2(range_bits as nat)
        } else {
            0xffff_ffff_ffff_ffff_ffff_ffff_ffff_ffff
        },
        stride == if range_bits < 16 {
            256
        } else if range_bits < 254 {
            pow2((range_bits / 2) as nat)
        } else {
            pow2(127)
        },
    ensures
        wild::wild_draw(range_bits, num_kangaroos, i) == (((i - num_kangaroos / 2) as nat) * stride
            + init::jitter_hash(i, 0xDEADBEEF) as nat % stride) % range,
        wild::wild_count(num_kangaroos) == num_kangaroos - num_kangaroos / 2,
{
    lemma2_to64();
}

/// A wild kangaroo keeps its draw where none before drew the same. Where one did,
/// it takes the least distance that no wild kangaroo drew and none before took.
pub proof fn lemma_draw_or_least_left(range_bits: u32, num_kangaroos: u32, i: u32, d: nat)
    requires
        num_kangaroos / 2 <= i < num_kangaroos,
    ensures
        ({
            let draw = wild::wild_draw(range_bits, num_kangaroos, i);
            let offset = wild::wild_offset(range_bits, num_kangaroos, i);
            let half = num_kangaroos / 2;
            let repeated = exists|h: u32|
                half <= h < i && #[trigger] wild::wild_draw(range_bits, num_kangaroos, h) == draw;
            &&& !repeated ==> offset == draw
            &&& repeated ==> forall|h: u32|
                half <= h < num_kangaroos ==> #[trigger] wild::wild_draw(
                    range_bits,
                    num_kangaroos,
                    h,
                ) != offset
            &&& repeated ==> forall|h: u32|
                half <= h < i ==> #[trigger] wild::wild_offset(range_bits, num_kangaroos, h)
                    != offset
            &&& repeated && d < offset ==> {
                ||| exists|h: u32|
                    half <= h < num_kangaroos && #[trigger] wild::wild_draw(
                        range_bits,
                        num_kangaroos,
                        h,
                    ) == d
                ||| exists|h: u32|
                    half <= h < i && #[trigger] wild::wild_offset(range_bits, num_kangaroos, h)
                        == d
            }
        }),
{
    let half = num_kangaroos / 2;
    let draw = wild::wild_draw(range_bits, num_kangaroos, i);
    let offset = wild::wild_offset(range_bits, num_kangaroos, i);
    if wild::is_repeat(range_bits, num_kangaroos, i) {
        let cursor = wild::spare_cursor(range_bits, num_kangaroos, i);
        wild::lemma_next_spare(range_bits, num_kangaroos, cursor);
        assert forall|h: u32| half <= h < i implies #[trigger] wild::wild_offset(
            range_bits,
            num_kangaroos,
            h,
        ) != offset by {
            wild::lemma_wild_offsets_differ(range_bits, num_kangaroos, h, i);
        }
        if d < cursor {
            wild::lemma_nothing_left_behind(range_bits, num_kangaroos, i, d);
        } else if d < offset {
            assert(wild::drawn_before(range_bits, num_kangaroos, d, num_kangaroos));
        }
    }
}

/// The record of a tame kangaroo: its offset, and the affine point that this many
/// keys past the start has, in Jacobian coordinates.
pub proof fn lemma_tame_record(
    pubkey: Option<(nat, nat)>,
    start: nat,
    range_bits: u32,
    num_kangaroos: u32,
    ks: Seq<GpuKangaroo>,
    i: u32,
)
    requires
        init::all_placed(pubkey, start, range_bits, num_kangaroos, ks),
        i < num_kangaroos / 2,
    ensures
        ({
            let k = ks[i as int];
            let d = init::tame_offset(range_bits, num_kangaroos, i);
            &&& ks.len() == num_kangaroos
            &&& bytes::limbs_value(k.dist@) == d
            &&& Some((bytes::limbs_value(k.x@), bytes::limbs_value(k.y@)))
                == curve::base_multiple(((start + d) % pow2(256)) % curve::group_order())
            &&& bytes::limbs_value(k.z@) == 1
            &&& k.ktype == 0
            &&& k.is_active == 1
            &&& k._padding@ == seq![0u32, 0u32]
        }),
{
    assert(init::is_kangaroo(
        pubkey,
        start,
        range_bits,
        num_kangaroos,
        i,
        Some(ks[i as int]),
    ));
}

/// The record of a wild kangaroo: its distance, and the affine point that far
/// from the public key, in Jacobian coordinates.
pub proof fn lemma_wild_record(
    pubkey: Option<(nat, nat)>,
    start: nat,
    range_bits: u32,
    num_kangaroos: u32,
    ks: Seq<GpuKangaroo>,
    i: u32,
)
    requires
        init::all_placed(pubkey, start, range_bits, num_kangaroos, ks),
        num_kangaroos / 2 <= i < num_kangaroos,
    ensures
        ({
            let k = ks[i as int];
            let d = wild::wild_offset(range_bits, num_kangaroos, i);
            &&& ks.len() == num_kangaroos
            &&& bytes::limbs_value(k.dist@) == d
            &&& Some((bytes::limbs_value(k.x@), bytes::limbs_value(k.y@))) == curve::point_sum(
                pubkey,
                curve::base_multiple(d % curve::group_order()),
            )
            &&& bytes::limbs_value(k.z@) == 1
            &&& k.ktype == 1
            &&& k.is_active == 1
            &&& k._padding@ == seq![0u32, 0u32]
        }),
{
    assert(init::is_kangaroo(
        pubkey,
        start,
        range_bits,
        num_kangaroos,
        i,
        Some(ks[i as int]),
    ));
}

/// Two wild kangaroos differ in their limbs: in those of the distance, and in
/// those of the position.
pub proof fn lemma_wild_records_differ(
    pubkey: Option<(nat, nat)>,
    start: nat,
    range_bits: u32,
    num_kangaroos: u32,
    ks: Seq<GpuKangaroo>,
    i: int,
    j: int,
)
    requires
        init::all_placed(pubkey, start, range_bits, num_kangaroos, ks),
        num_kangaroos / 2 <= i < j < num_kangaroos,
    ensures
        ks[i].dist@ != ks[j].dist@,
        ks[i].x@ != ks[j].x@ || ks[i].y@ != ks[j].y@,
{
    assert(ks[i]@.dist != ks[j]@.dist);
}

/// Kangaroos are refused exactly where one of them has no affine start: a tame
/// one at a multiple of the group order, or a wild one at the opposite of the
/// public key.
pub proof fn lemma_refusal(
    pubkey: Option<(nat, nat)>,
    start: nat,
    range_bits: u32,
    num_kangaroos: u32,
)
    requires
        init::starts_are_known(pubkey, start, range_bits, num_kangaroos),
    ensures
        init::some_start_at_infinity(pubkey, start, range_bits, num_kangaroos) <==> {
            ||| exists|i: u32|
                i < num_kangaroos / 2 && ((start + #[trigger] init::tame_offset(
                    range_bits,
                    num_kangaroos,
                    i,
                )) % pow2(256)) % curve::group_order() == 0
            ||| exists|i: u32|
                num_kangaroos / 2 <= i < num_kangaroos && curve::point_sum(
                    pubkey,
                    curve::base_multiple(
                        #[trigger] wild::wild_offset(range_bits, num_kangaroos, i)
                            % curve::group_order(),
                    ),
                ) is None
        },
{
    if init::some_start_at_infinity(pubkey, start, range_bits, num_kangaroos) {
        let i = choose|i: u32|
            i < num_kangaroos && #[trigger] init::start_point(
                pubkey,
                start,
                range_bits,
                num_kangaroos,
                i,
            ) is None;
        if i < num_kangaroos / 2 {
            assert(init::tame_start_is_known(start, range_bits, num_kangaroos, i));
        }
    }
    assert forall|i: u32|
        i < num_kangaroos / 2 && ((start + #[trigger] init::tame_offset(
            range_bits,
            num_kangaroos,
            i,
        )) % pow2(256)) % curve::group_order() == 0 implies init::some_start_at_infinity(
        pubkey,
        start,
        range_bits,
        num_kangaroos,
    ) by {
        assert(init::tame_start_is_known(start, range_bits, num_kangaroos, i));
        assert(init::start_point(pubkey, start, range_bits, num_kangaroos, i) is None);
    }
    assert forall|i: u32|
        num_kangaroos / 2 <= i < num_kangaroos && curve::point_sum(
            pubkey,
            curve::base_multiple(
                #[trigger] wild::wild_offset(range_bits, num_kangaroos, i) % curve::group_order(),
            ),
        ) is None implies init::some_start_at_infinity(
        pubkey,
        start,
        range_bits,
        num_kangaroos,
    ) by {
        assert(init::start_point(pubkey, start, range_bits, num_kangaroos, i) is None);
    }
}

/// A tame start is the multiple of `G` by start and offset together.
pub proof fn lemma_tame_start(
    start: nat,
    offset: nat,
    point: Option<(nat, nat)>,
    dist: Seq<u32>,
)
    requires
        init::is_tame_start(start, offset, point, dist),
    ensures
        point == curve::base_multiple(((start + offset) % pow2(256)) % curve::group_order()),
        point is None <==> ((start + offset) % pow2(256)) % curve::group_order() == 0,
        dist.len() == 8,
        bytes::limbs_value(dist) == offset,
{
}

/// A wild start is the public key and the multiple of `G` by the distance
/// together; where the private key is known, it is the multiple by both.
pub proof fn lemma_wild_start(
    pubkey: Option<(nat, nat)>,
    rand: nat,
    point: Option<(nat, nat)>,
    dist: Seq<u32>,
    key: nat,
)
    requires
        init::is_wild_start(pubkey, rand, point, dist),
    ensures
        point == curve::point_sum(pubkey, curve::base_multiple(rand % curve::group_order())),
        rand == 0 ==> point == pubkey,
        pubkey == curve::base_multiple(key % curve::group_order()) ==> point
            == curve::base_multiple((key + rand) % curve::group_order()) && (point is None <==> (key
            + rand) % curve::group_order() == 0),
        dist.len() == 8,
        bytes::limbs_value(dist) == rand,
{
    assert(curve::is_key_of(pubkey, key) <==> pubkey == curve::base_multiple(
        key % curve::group_order(),
    ));
}

} // verus!
