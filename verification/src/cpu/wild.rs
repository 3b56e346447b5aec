//! The distances that wild kangaroos start with.
//!
//! Each draws a distance: they are spaced evenly, moved on by jitter, and brought
//! back into the range. Where a draw repeats an earlier one, the kangaroo takes
//! the least distance that is left instead, so that each has one of its own.

use crate::cpu::init;
use crate::math;
use std::collections::HashSet;
use vstd::arithmetic::div_mod::*;
use vstd::arithmetic::power2::*;
use vstd::prelude::*;

verus! {

/// The distance between wild kangaroos before jitter.
pub open spec fn wild_stride(range_bits: u32) -> nat {
    let e = init::jump_exponent(range_bits);
    pow2(
        if e < 127 {
            e as nat
        } else {
            127
        },
    )
}

/// How many wild kangaroos there are.
pub open spec fn wild_count(num_kangaroos: u32) -> nat {
    (num_kangaroos - num_kangaroos / 2) as nat
}

/// Kangaroo `i` is a wild one.
pub open spec fn is_wild(num_kangaroos: u32, i: u32) -> bool {
    num_kangaroos / 2 <= i < num_kangaroos
}

/// The strides of all wild kangaroos fit in 128 bits.
pub open spec fn wild_seeds_fit(range_bits: u32, num_kangaroos: u32) -> bool {
    wild_count(num_kangaroos) * wild_stride(range_bits) <= pow2(128)
}

/// Where wild kangaroo `i` would start in an endless range.
pub open spec fn wild_seed(range_bits: u32, num_kangaroos: u32, i: u32) -> nat {
    let stride = wild_stride(range_bits);
    ((i - num_kangaroos / 2) as nat) * stride + init::jitter_hash(i, init::WILD_SALT) as nat
        % stride
}

/// The distance that wild kangaroo `i` draws.
pub open spec fn wild_draw(range_bits: u32, num_kangaroos: u32, i: u32) -> nat {
    wild_seed(range_bits, num_kangaroos, i) % init::range_size(range_bits)
}

/// Some wild kangaroo before `end` draws the distance `d`.
pub open spec fn drawn_before(range_bits: u32, num_kangaroos: u32, d: nat, end: u32) -> bool {
    exists|h: u32|
        num_kangaroos / 2 <= h < end && #[trigger] wild_draw(range_bits, num_kangaroos, h) == d
}

/// Wild kangaroo `i` draws a distance that one before it drew.
pub open spec fn is_repeat(range_bits: u32, num_kangaroos: u32, i: u32) -> bool {
    drawn_before(range_bits, num_kangaroos, wild_draw(range_bits, num_kangaroos, i), i)
}

/// The least distance from `d` on that no wild kangaroo draws.
pub open spec fn next_spare(range_bits: u32, num_kangaroos: u32, d: nat) -> nat
    decreases init::range_size(range_bits) - d,
{
    if d < init::range_size(range_bits) && drawn_before(
        range_bits,
        num_kangaroos,
        d,
        num_kangaroos,
    ) {
        next_spare(range_bits, num_kangaroos, d + 1)
    } else {
        d
    }
}

/// The kangaroos before `i` took no spare distance from here on.
pub open spec fn spare_cursor(range_bits: u32, num_kangaroos: u32, i: u32) -> nat
    decreases i,
{
    if i <= num_kangaroos / 2 {
        0
    } else {
        let before = spare_cursor(range_bits, num_kangaroos, (i - 1) as u32);
        if is_repeat(range_bits, num_kangaroos, (i - 1) as u32) {
            next_spare(range_bits, num_kangaroos, before) + 1
        } else {
            before
        }
    }
}

/// How far from the public key wild kangaroo `i` starts: at the distance it
/// draws, or, where that is taken, at the least one that is left.
pub open spec fn wild_offset(range_bits: u32, num_kangaroos: u32, i: u32) -> nat {
    if is_repeat(range_bits, num_kangaroos, i) {
        next_spare(range_bits, num_kangaroos, spare_cursor(range_bits, num_kangaroos, i))
    } else {
        wild_draw(range_bits, num_kangaroos, i)
    }
}

// ---------------------------------------------------------------------------
// What holds of all distances
// ---------------------------------------------------------------------------

/// A range has a key at least, and its size fits in 128 bits.
proof fn lemma_range_bounds(range_bits: u32)
    ensures
        1 <= init::range_size(range_bits) <= u128::MAX,
{
    init::lemma_powers_around_order();
    lemma_pow2_pos(range_bits as nat);
    if range_bits < 128 {
        lemma_pow2_strictly_increases(range_bits as nat, 128);
    }
}

/// A draw lies inside the range.
proof fn lemma_draw_in_range(range_bits: u32, num_kangaroos: u32, i: u32)
    ensures
        wild_draw(range_bits, num_kangaroos, i) < init::range_size(range_bits),
{
    lemma_range_bounds(range_bits);
    lemma_mod_bound(
        wild_seed(range_bits, num_kangaroos, i) as int,
        init::range_size(range_bits) as int,
    );
}

/// A spare distance is drawn by none, and all that it passes over are drawn.
pub proof fn lemma_next_spare(range_bits: u32, num_kangaroos: u32, d: nat)
    ensures
        ({
            let s = next_spare(range_bits, num_kangaroos, d);
            &&& d <= s
            &&& !drawn_before(range_bits, num_kangaroos, s, num_kangaroos)
            &&& forall|e: nat|
                d <= e < s ==> #[trigger] drawn_before(range_bits, num_kangaroos, e, num_kangaroos)
        }),
    decreases init::range_size(range_bits) - d,
{
    if drawn_before(range_bits, num_kangaroos, d, num_kangaroos) {
        let h = choose|h: u32|
            num_kangaroos / 2 <= h < num_kangaroos && #[trigger] wild_draw(
                range_bits,
                num_kangaroos,
                h,
            ) == d;
        lemma_draw_in_range(range_bits, num_kangaroos, h);
        lemma_next_spare(range_bits, num_kangaroos, d + 1);
    }
}

/// The spare distance that a kangaroo took lies behind the cursor of a later one.
proof fn lemma_cursor_passes(range_bits: u32, num_kangaroos: u32, h: u32, i: u32)
    requires
        num_kangaroos / 2 <= h < i,
        is_repeat(range_bits, num_kangaroos, h),
    ensures
        wild_offset(range_bits, num_kangaroos, h) < spare_cursor(range_bits, num_kangaroos, i),
    decreases i,
{
    if h < i - 1 {
        lemma_cursor_passes(range_bits, num_kangaroos, h, (i - 1) as u32);
        lemma_next_spare(
            range_bits,
            num_kangaroos,
            spare_cursor(range_bits, num_kangaroos, (i - 1) as u32),
        );
    }
}

/// Each wild kangaroo has a distance of its own.
pub proof fn lemma_wild_offsets_differ(range_bits: u32, num_kangaroos: u32, i: u32, j: u32)
    requires
        is_wild(num_kangaroos, i),
        is_wild(num_kangaroos, j),
        i != j,
    ensures
        wild_offset(range_bits, num_kangaroos, i) != wild_offset(range_bits, num_kangaroos, j),
{
    let (a, b) = if i < j {
        (i, j)
    } else {
        (j, i)
    };
    let (ca, cb) = (
        spare_cursor(range_bits, num_kangaroos, a),
        spare_cursor(range_bits, num_kangaroos, b),
    );
    lemma_next_spare(range_bits, num_kangaroos, ca);
    lemma_next_spare(range_bits, num_kangaroos, cb);
    if is_repeat(range_bits, num_kangaroos, a) && is_repeat(range_bits, num_kangaroos, b) {
        lemma_cursor_passes(range_bits, num_kangaroos, a, b);
    }
}

/// A distance that is drawn is drawn for the first time.
proof fn lemma_first_draw(range_bits: u32, num_kangaroos: u32, d: nat, end: u32)
    requires
        drawn_before(range_bits, num_kangaroos, d, end),
    ensures
        exists|h: u32|
            num_kangaroos / 2 <= h < end && #[trigger] wild_draw(range_bits, num_kangaroos, h) == d
                && !is_repeat(range_bits, num_kangaroos, h),
    decreases end,
{
    let h = choose|h: u32|
        num_kangaroos / 2 <= h < end && #[trigger] wild_draw(range_bits, num_kangaroos, h) == d;
    if is_repeat(range_bits, num_kangaroos, h) {
        lemma_first_draw(range_bits, num_kangaroos, d, h);
    }
}

/// Every distance behind a cursor is drawn, or an earlier kangaroo took it.
pub proof fn lemma_nothing_left_behind(range_bits: u32, num_kangaroos: u32, i: u32, e: nat)
    requires
        num_kangaroos / 2 <= i,
        e < spare_cursor(range_bits, num_kangaroos, i),
    ensures
        drawn_before(range_bits, num_kangaroos, e, num_kangaroos) || exists|h: u32|
            num_kangaroos / 2 <= h < i && #[trigger] is_repeat(range_bits, num_kangaroos, h)
                && wild_offset(range_bits, num_kangaroos, h) == e,
    decreases i,
{
    let p = (i - 1) as u32;
    let before = spare_cursor(range_bits, num_kangaroos, p);
    lemma_next_spare(range_bits, num_kangaroos, before);
    if e < before {
        lemma_nothing_left_behind(range_bits, num_kangaroos, p, e);
    } else {
        assert(is_repeat(range_bits, num_kangaroos, p));
        if e == next_spare(range_bits, num_kangaroos, before) {
            assert(wild_offset(range_bits, num_kangaroos, p) == e);
        }
    }
}

/// A distance below the spare one of kangaroo `i` is that of another.
proof fn lemma_below_is_another(range_bits: u32, num_kangaroos: u32, i: u32, e: nat) -> (h: u32)
    requires
        is_wild(num_kangaroos, i),
        is_repeat(range_bits, num_kangaroos, i),
        e < wild_offset(range_bits, num_kangaroos, i),
    ensures
        is_wild(num_kangaroos, h),
        h != i,
        wild_offset(range_bits, num_kangaroos, h) == e,
{
    let cursor = spare_cursor(range_bits, num_kangaroos, i);
    lemma_next_spare(range_bits, num_kangaroos, cursor);
    if e < cursor {
        lemma_nothing_left_behind(range_bits, num_kangaroos, i, e);
    }
    if drawn_before(range_bits, num_kangaroos, e, num_kangaroos) {
        lemma_first_draw(range_bits, num_kangaroos, e, num_kangaroos);
        choose|h: u32|
            num_kangaroos / 2 <= h < num_kangaroos && #[trigger] wild_draw(
                range_bits,
                num_kangaroos,
                h,
            ) == e && !is_repeat(range_bits, num_kangaroos, h)
    } else {
        choose|h: u32|
            num_kangaroos / 2 <= h < i && #[trigger] is_repeat(range_bits, num_kangaroos, h)
                && wild_offset(range_bits, num_kangaroos, h) == e
    }
}

/// A kangaroo whose draw was taken starts nearer than there are wild kangaroos.
pub proof fn lemma_spare_is_near(range_bits: u32, num_kangaroos: u32, i: u32)
    requires
        is_wild(num_kangaroos, i),
        is_repeat(range_bits, num_kangaroos, i),
    ensures
        wild_offset(range_bits, num_kangaroos, i) < wild_count(num_kangaroos),
{
    let s = wild_offset(range_bits, num_kangaroos, i) as int;
    let half = (num_kangaroos / 2) as int;
    let all = vstd::set_lib::set_int_range(half, num_kangaroos as int);
    let others = all.remove(i as int);
    let offset = |h: int| wild_offset(range_bits, num_kangaroos, h as u32) as int;
    let taken = others.map(offset);
    let below = vstd::set_lib::set_int_range(0, s);
    vstd::set_lib::lemma_int_range(half, num_kangaroos as int);
    vstd::set_lib::lemma_int_range(0, s);
    vstd::set_lib::lemma_map_size_bound(others, taken, offset);
    assert forall|e: int| below.contains(e) implies taken.contains(e) by {
        let h = lemma_below_is_another(range_bits, num_kangaroos, i, e as nat);
        assert(others.contains(h as int));
        assert(offset(h as int) == e);
    }
    vstd::set_lib::lemma_len_subset(below, taken);
}

/// A wild kangaroo's distance lies inside the range, wherever the range has as
/// many keys as there are wild kangaroos.
pub proof fn lemma_wild_offset_in_range(range_bits: u32, num_kangaroos: u32, i: u32)
    requires
        is_wild(num_kangaroos, i),
        wild_count(num_kangaroos) <= init::range_size(range_bits),
    ensures
        wild_offset(range_bits, num_kangaroos, i) < init::range_size(range_bits),
{
    lemma_draw_in_range(range_bits, num_kangaroos, i);
    if is_repeat(range_bits, num_kangaroos, i) {
        lemma_spare_is_near(range_bits, num_kangaroos, i);
    }
}

/// A wild kangaroo's distance fits in 128 bits.
pub proof fn lemma_wild_offset_fits(range_bits: u32, num_kangaroos: u32, i: u32)
    requires
        is_wild(num_kangaroos, i),
    ensures
        wild_offset(range_bits, num_kangaroos, i) <= u128::MAX,
{
    lemma_range_bounds(range_bits);
    lemma_draw_in_range(range_bits, num_kangaroos, i);
    if is_repeat(range_bits, num_kangaroos, i) {
        lemma_spare_is_near(range_bits, num_kangaroos, i);
    }
}

/// A seed lies in the kangaroo's own stride.
proof fn lemma_seed_in_stride(range_bits: u32, num_kangaroos: u32, i: u32)
    requires
        is_wild(num_kangaroos, i),
    ensures
        ({
            let stride = wild_stride(range_bits);
            let k = (i - num_kangaroos / 2) as nat;
            &&& stride >= 1
            &&& k * stride <= wild_seed(range_bits, num_kangaroos, i) < (k + 1) * stride
            &&& (k + 1) * stride <= wild_count(num_kangaroos) * stride
        }),
{
    let stride = wild_stride(range_bits);
    let k = (i - num_kangaroos / 2) as nat;
    let w = wild_count(num_kangaroos);
    let e = init::jump_exponent(range_bits);
    lemma_pow2_pos(if e < 127 { e as nat } else { 127 });
    lemma_mod_bound(init::jitter_hash(i, init::WILD_SALT) as int, stride as int);
    assert((k + 1) * stride == k * stride + stride) by (nonlinear_arith);
    assert((k + 1) * stride <= w * stride) by (nonlinear_arith)
        requires
            k + 1 <= w,
    ;
}

/// Where the strides of all wild kangaroos fit in the range, each starts in its
/// own stride.
pub proof fn lemma_wild_offsets_spread(range_bits: u32, num_kangaroos: u32, i: u32)
    requires
        is_wild(num_kangaroos, i),
        wild_count(num_kangaroos) * wild_stride(range_bits) <= init::range_size(range_bits),
    ensures
        ({
            let stride = wild_stride(range_bits);
            let k = (i - num_kangaroos / 2) as nat;
            let offset = wild_offset(range_bits, num_kangaroos, i);
            &&& offset == wild_seed(range_bits, num_kangaroos, i)
            &&& k * stride <= offset < (k + 1) * stride
        }),
{
    let r = init::range_size(range_bits);
    let stride = wild_stride(range_bits);
    let k = (i - num_kangaroos / 2) as nat;
    lemma_seed_in_stride(range_bits, num_kangaroos, i);
    lemma_small_mod(wild_seed(range_bits, num_kangaroos, i), r);
    assert forall|h: u32|
        num_kangaroos / 2 <= h < i implies #[trigger] wild_draw(range_bits, num_kangaroos, h)
        != wild_draw(range_bits, num_kangaroos, i) by {
        let l = (h - num_kangaroos / 2) as nat;
        lemma_seed_in_stride(range_bits, num_kangaroos, h);
        lemma_small_mod(wild_seed(range_bits, num_kangaroos, h), r);
        assert((l + 1) * stride <= k * stride) by (nonlinear_arith)
            requires
                l + 1 <= k,
        ;
    }
}

// ---------------------------------------------------------------------------
// Their computation
// ---------------------------------------------------------------------------

/// The draws of all wild kangaroos, which of them repeat an earlier one, and the
/// set of all.
struct Draws {
    drawn: Vec<u128>,
    repeats: Vec<bool>,
    taken: HashSet<u128>,
}

impl Draws {
    /// These are the draws of the wild kangaroos before `end`.
    spec fn holds(&self, range_bits: u32, num_kangaroos: u32, end: u32) -> bool {
        let half = num_kangaroos / 2;
        &&& half <= end
        &&& self.drawn@.len() == end - half
        &&& self.repeats@.len() == end - half
        &&& forall|k: int|
            0 <= k < end - half ==> #[trigger] self.drawn@[k] == wild_draw(
                range_bits,
                num_kangaroos,
                (half + k) as u32,
            )
        &&& forall|k: int|
            0 <= k < end - half ==> #[trigger] self.repeats@[k] == is_repeat(
                range_bits,
                num_kangaroos,
                (half + k) as u32,
            )
        &&& forall|d: u128| #[trigger]
            self.taken@.contains(d) <==> drawn_before(range_bits, num_kangaroos, d as nat, end)
    }
}

/// The draws of all wild kangaroos.
fn draw_all(range_bits: u32, num_kangaroos: u32, range: u128) -> (r: Draws)
    requires
        range == init::range_size(range_bits),
        wild_seeds_fit(range_bits, num_kangaroos),
    ensures
        r.holds(range_bits, num_kangaroos, num_kangaroos),
{
    let half: u32 = num_kangaroos / 2;
    let mean_exp: u32 = init::jump_bits(range_bits);
    let stride: u128 = math::power_of_two(if mean_exp < 127 { mean_exp } else { 127 });
    let mut r = Draws { drawn: Vec::new(), repeats: Vec::new(), taken: HashSet::new() };
    proof {
        lemma_range_bounds(range_bits);
        init::lemma_powers_around_order();
    }
    for i in half..num_kangaroos
        invariant
            half == num_kangaroos / 2,
            range == init::range_size(range_bits),
            range > 0,
            stride == wild_stride(range_bits),
            wild_seeds_fit(range_bits, num_kangaroos),
            pow2(128) == u128::MAX + 1,
            r.holds(range_bits, num_kangaroos, i),
    {
        let wild_idx: u128 = (i - half) as u128;
        proof {
            lemma_seed_in_stride(range_bits, num_kangaroos, i);
        }
        let jitter: u128 = init::hash_u128(i, init::WILD_SALT) % stride;
        let d: u128 = (wild_idx * stride + jitter) % range;
        let ghost before = r;
        let fresh = r.taken.insert(d);
        r.drawn.push(d);
        r.repeats.push(!fresh);
        proof {
            assert(d == wild_draw(range_bits, num_kangaroos, i));
            assert forall|e: u128| #[trigger]
                r.taken@.contains(e) <==> drawn_before(
                    range_bits,
                    num_kangaroos,
                    e as nat,
                    (i + 1) as u32,
                ) by {
                if e != d && drawn_before(range_bits, num_kangaroos, e as nat, (i + 1) as u32) {
                    assert(drawn_before(range_bits, num_kangaroos, e as nat, i));
                }
                if before.taken@.contains(e) {
                    assert(drawn_before(range_bits, num_kangaroos, e as nat, i));
                }
            }
        }
    }
    r
}

/// The distances of all wild kangaroos, in the order of their indices.
pub fn wild_distances(range_bits: u32, num_kangaroos: u32) -> (r: Vec<u128>)
    requires
        wild_seeds_fit(range_bits, num_kangaroos),
    ensures
        r@.len() == wild_count(num_kangaroos),
        forall|k: int|
            0 <= k < r@.len() ==> #[trigger] r@[k] == wild_offset(
                range_bits,
                num_kangaroos,
                (num_kangaroos / 2 + k) as u32,
            ),
{
    let half: u32 = num_kangaroos / 2;
    let draws = draw_all(range_bits, num_kangaroos, init::range_len(range_bits));
    let mut r: Vec<u128> = Vec::new();
    let mut cursor: u128 = 0;
    for i in half..num_kangaroos
        invariant
            half == num_kangaroos / 2,
            draws.holds(range_bits, num_kangaroos, num_kangaroos),
            r@.len() == i - half,
            cursor == spare_cursor(range_bits, num_kangaroos, i),
            forall|k: int|
                0 <= k < r@.len() ==> #[trigger] r@[k] == wild_offset(
                    range_bits,
                    num_kangaroos,
                    (num_kangaroos / 2 + k) as u32,
                ),
    {
        let k: usize = (i - half) as usize;
        assert((half + k as int) as u32 == i);
        if draws.repeats[k] {
            proof {
                lemma_spare_is_near(range_bits, num_kangaroos, i);
                lemma_next_spare(range_bits, num_kangaroos, cursor as nat);
            }
            let ghost spare = next_spare(range_bits, num_kangaroos, cursor as nat);
            while draws.taken.contains(&cursor)
                invariant
                    draws.holds(range_bits, num_kangaroos, num_kangaroos),
                    cursor <= spare <= u32::MAX,
                    spare == next_spare(range_bits, num_kangaroos, cursor as nat),
                    !drawn_before(range_bits, num_kangaroos, spare, num_kangaroos),
                decreases spare - cursor,
            {
                assert(drawn_before(range_bits, num_kangaroos, cursor as nat, num_kangaroos));
                cursor = cursor + 1;
            }
            assert(!drawn_before(range_bits, num_kangaroos, cursor as nat, num_kangaroos));
            r.push(cursor);
            cursor = cursor + 1;
        } else {
            r.push(draws.drawn[k]);
        }
    }
    r
}

} // verus!
