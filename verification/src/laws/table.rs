//! Meetings, and the keys that they give away.

use crate::bytes;
use crate::cpu::dp_table;
use crate::cpu::dp_table::Trail;
use crate::gpu::GpuDistinguishedPoint;
use crate::solver;
use vstd::arithmetic::div_mod::*;
use vstd::arithmetic::power2::*;
use vstd::prelude::*;

verus! {

/// The key of a meeting, the wild distance added, is the start and the tame
/// distance, modulo `2^256`.
pub proof fn lemma_key_balances(start: nat, tame_dist: nat, wild_dist: nat)
    ensures
        ({
            let key = dp_table::recovered_key(start, tame_dist, wild_dist);
            &&& key < pow2(256)
            &&& (key + wild_dist) % pow2(256) == (start + tame_dist) % pow2(256)
        }),
{
    let m = pow2(256) as int;
    let diff = start + tame_dist - wild_dist;
    lemma_pow2_pos(256);
    lemma_mod_bound(diff, m);
    lemma_add_mod_noop(diff % m, wild_dist as int, m);
    lemma_mod_twice(diff, m);
    lemma_add_mod_noop(diff, wild_dist as int, m);
    assert(diff + wild_dist == start + tame_dist);
}

/// A report gives a key exactly where the point was held before and one of the
/// two kangaroos, stored and new, is tame (kind 0) and the other is not. Two tame
/// ones or two wild ones, of whatever kinds, give none.
pub proof fn lemma_key_needs_one_tame(
    seen: Map<nat, Trail>,
    start: nat,
    dp: GpuDistinguishedPoint,
    report: Option<Seq<u8>>,
)
    requires
        dp_table::sighting_report(seen, start, dp@, report),
    ensures
        ({
            let x = bytes::limbs_value(dp.x@);
            let held = seen.contains_key(x);
            &&& report is Some ==> held && (seen[x].ktype == 0) != (dp.ktype == 0)
            &&& held && seen[x].ktype == 0 && dp.ktype != 0 ==> report is Some
            &&& held && seen[x].ktype != 0 && dp.ktype == 0 ==> report is Some
            &&& held && seen[x].ktype == dp.ktype ==> report is None
            &&& held && seen[x].ktype != 0 && dp.ktype != 0 ==> report is None
            &&& !held ==> report is None
        }),
{
}

/// The key of a report is `start + tame - wild` modulo `2^256`, whichever of the
/// two was stored, in big-endian bytes without leading zeros.
pub proof fn lemma_key_of_report(
    seen: Map<nat, Trail>,
    start: nat,
    dp: GpuDistinguishedPoint,
    key: Seq<u8>,
)
    requires
        dp_table::sighting_report(seen, start, dp@, Some(key)),
    ensures
        ({
            let stored = seen[bytes::limbs_value(dp.x@)];
            let dist = bytes::limbs_value(dp.dist@);
            let (tame, wild) = if dp.ktype == 0 {
                (dist, stored.dist)
            } else {
                (stored.dist, dist)
            };
            &&& bytes::be_value(key) == (start + tame - wild) % (pow2(256) as int)
            &&& key.len() > 0
            &&& key[0] == 0 ==> key.len() == 1
        }),
{
    lemma_pow2_pos(256);
}

/// After a report its point is held: as before where it was held, else with the
/// distance and kind of the report. All other points are as before.
pub proof fn lemma_report_is_filed(seen: Map<nat, Trail>, dp: GpuDistinguishedPoint, y: nat)
    ensures
        ({
            let x = bytes::limbs_value(dp.x@);
            let after = dp_table::after_sighting(seen, dp@);
            &&& after.contains_key(x)
            &&& seen.contains_key(x) ==> after[x] == seen[x]
            &&& !seen.contains_key(x) ==> after[x].dist == bytes::limbs_value(dp.dist@)
                && after[x].ktype == dp.ktype
            &&& y != x ==> after.contains_key(y) == seen.contains_key(y)
            &&& y != x && seen.contains_key(y) ==> after[y] == seen[y]
        }),
{
}

/// What is held after `n` reports: what was held before, and each point of a
/// report with the distance and kind of the first report of it.
proof fn lemma_held_after(
    seen: Map<nat, Trail>,
    dps: Seq<GpuDistinguishedPoint>,
    n: nat,
    x: nat,
)
    requires
        n <= dps.len(),
    ensures
        ({
            let after = solver::seen_through(seen, dps, n);
            &&& seen.contains_key(x) ==> after.contains_key(x) && after[x] == seen[x]
            &&& after.contains_key(x) && !seen.contains_key(x) ==> exists|j: int|
                0 <= j < n && bytes::limbs_value((#[trigger] dps[j]).x@) == x && after[x].dist
                    == bytes::limbs_value(dps[j].dist@) && after[x].ktype == dps[j].ktype && forall|
                    k: int,
                |
                    0 <= k < j ==> bytes::limbs_value((#[trigger] dps[k]).x@) != x
            &&& forall|j: int|
                0 <= j < n && bytes::limbs_value((#[trigger] dps[j]).x@) == x
                    ==> after.contains_key(x)
        }),
    decreases n,
{
    if n > 0 {
        lemma_held_after(seen, dps, (n - 1) as nat, x);
        let before = solver::seen_through(seen, dps, (n - 1) as nat);
        lemma_report_is_filed(before, dps[n - 1], x);
        let after = solver::seen_through(seen, dps, n);
        if after.contains_key(x) && !before.contains_key(x) {
            let j = n - 1;
            assert(bytes::limbs_value(dps[j].x@) == x);
            assert forall|k: int| 0 <= k < j implies bytes::limbs_value((#[trigger] dps[k]).x@)
                != x by {}
        }
    }
}

/// Every report of a batch without a key counts: its point is held afterwards,
/// and it is on one side, tame or wild, with what was held there before and with
/// every other report of that point in the batch. Where the batch brings the
/// point, the first report of it gives the distance and the kind.
pub proof fn lemma_every_report_counts(
    seen: Map<nat, Trail>,
    dps: Seq<GpuDistinguishedPoint>,
    i: int,
)
    requires
        0 <= i < dps.len(),
        solver::no_collision(seen, dps, dps.len()),
    ensures
        ({
            let after = solver::seen_through(seen, dps, dps.len());
            let x = bytes::limbs_value(dps[i].x@);
            &&& after.contains_key(x)
            &&& seen.contains_key(x) ==> after[x] == seen[x] && (seen[x].ktype == 0) == (
            dps[i].ktype == 0)
            &&& !seen.contains_key(x) && (forall|k: int|
                0 <= k < i ==> bytes::limbs_value((#[trigger] dps[k]).x@) != x) ==> after[x].dist
                == bytes::limbs_value(dps[i].dist@) && after[x].ktype == dps[i].ktype
            &&& forall|j: int|
                0 <= j < dps.len() && bytes::limbs_value((#[trigger] dps[j]).x@) == x ==> (
                dps[j].ktype == 0) == (dps[i].ktype == 0)
        }),
{
    let n = dps.len();
    let x = bytes::limbs_value(dps[i].x@);
    let after = solver::seen_through(seen, dps, n);
    lemma_held_after(seen, dps, n, x);
    lemma_same_side(seen, dps, i);
    assert forall|j: int|
        0 <= j < n && bytes::limbs_value((#[trigger] dps[j]).x@) == x implies (dps[j].ktype == 0)
        == (dps[i].ktype == 0) by {
        lemma_same_side(seen, dps, j);
    }
}

/// A report of a batch without a key is on the side of what is held at its point
/// afterwards.
proof fn lemma_same_side(seen: Map<nat, Trail>, dps: Seq<GpuDistinguishedPoint>, i: int)
    requires
        0 <= i < dps.len(),
        solver::no_collision(seen, dps, dps.len()),
    ensures
        ({
            let after = solver::seen_through(seen, dps, dps.len());
            let x = bytes::limbs_value(dps[i].x@);
            after.contains_key(x) && (after[x].ktype == 0) == (dps[i].ktype == 0)
        }),
{
    let x = bytes::limbs_value(dps[i].x@);
    let before = solver::seen_through(seen, dps, i as nat);
    assert(!dp_table::collides(before, dps[i]@));
    lemma_report_is_filed(before, dps[i], x);
    lemma_held_on(seen, dps, (i + 1) as nat, dps.len(), x);
}

/// What is held after `m` reports is held after more.
proof fn lemma_held_on(
    seen: Map<nat, Trail>,
    dps: Seq<GpuDistinguishedPoint>,
    m: nat,
    n: nat,
    x: nat,
)
    requires
        m <= n <= dps.len(),
        solver::seen_through(seen, dps, m).contains_key(x),
    ensures
        solver::seen_through(seen, dps, n).contains_key(x),
        solver::seen_through(seen, dps, n)[x] == solver::seen_through(seen, dps, m)[x],
    decreases n,
{
    if m < n {
        lemma_held_on(seen, dps, m, (n - 1) as nat, x);
        lemma_report_is_filed(
            solver::seen_through(seen, dps, (n - 1) as nat),
            dps[n - 1],
            x,
        );
    }
}

/// A batch brings no point that none of its reports has, and forgets none.
pub proof fn lemma_batch_brings_its_points(
    seen: Map<nat, Trail>,
    dps: Seq<GpuDistinguishedPoint>,
    n: nat,
    x: nat,
)
    requires
        n <= dps.len(),
    ensures
        solver::seen_through(seen, dps, n).contains_key(x) <==> seen.contains_key(x) || exists|
            j: int,
        |
            0 <= j < n && bytes::limbs_value((#[trigger] dps[j]).x@) == x,
        seen.contains_key(x) ==> solver::seen_through(seen, dps, n)[x] == seen[x],
{
    lemma_held_after(seen, dps, n, x);
}

/// The key of a batch comes of the first report that meets the other side, and is
/// made of its distance and of what was held at its point: from before the batch,
/// or from the first report of the point in it. No two earlier reports of one
/// point, and no earlier report and what was held before, are on two sides.
pub proof fn lemma_key_of_batch(
    seen: Map<nat, Trail>,
    start: nat,
    dps: Seq<GpuDistinguishedPoint>,
    n: nat,
    key: Seq<u8>,
)
    requires
        solver::first_collision(seen, start, dps, n, key),
    ensures
        ({
            let x = bytes::limbs_value(dps[n as int].x@);
            let tame = dps[n as int].ktype == 0;
            let dist = bytes::limbs_value(dps[n as int].dist@) as int;
            let m = pow2(256) as int;
            &&& n < dps.len()
            &&& key.len() > 0 && (key[0] == 0 ==> key.len() == 1)
            &&& seen.contains_key(x) ==> (seen[x].ktype == 0) != tame && bytes::be_value(key) == (if tame {
                start + dist - seen[x].dist
            } else {
                start + seen[x].dist - dist
            }) % m
            &&& !seen.contains_key(x) ==> exists|j: int|
                0 <= j < n && bytes::limbs_value((#[trigger] dps[j]).x@) == x && (dps[j].ktype == 0)
                    != tame && bytes::be_value(key) == (if tame {
                    start + dist - bytes::limbs_value(dps[j].dist@)
                } else {
                    start + bytes::limbs_value(dps[j].dist@) - dist
                }) % m && forall|k: int|
                    0 <= k < j ==> bytes::limbs_value((#[trigger] dps[k]).x@) != x
            &&& forall|i: int, j: int|
                0 <= i < n && 0 <= j < n && bytes::limbs_value((#[trigger] dps[i]).x@)
                    == bytes::limbs_value((#[trigger] dps[j]).x@) ==> (dps[i].ktype == 0) == (
                dps[j].ktype == 0)
            &&& forall|i: int|
                0 <= i < n && seen.contains_key(bytes::limbs_value((#[trigger] dps[i]).x@)) ==> (
                seen[bytes::limbs_value(dps[i].x@)].ktype == 0) == (dps[i].ktype == 0)
        }),
{
    let x = bytes::limbs_value(dps[n as int].x@);
    let before = solver::seen_through(seen, dps, n);
    lemma_held_after(seen, dps, n, x);
    lemma_key_needs_one_tame(before, start, dps[n as int], Some(key));
    lemma_key_of_report(before, start, dps[n as int], key);
    let head = dps.take(n as int);
    lemma_prefix(seen, dps, head, n);
    assert(solver::no_collision(seen, head, head.len())) by {
        assert forall|i: nat| i < head.len() implies !dp_table::collides(
            #[trigger] solver::seen_through(seen, head, i),
            head[i as int]@,
        ) by {
            lemma_prefix(seen, dps, head, i);
            assert(!dp_table::collides(solver::seen_through(seen, dps, i), dps[i as int]@));
        }
    }
    assert forall|i: int, j: int|
        0 <= i < n && 0 <= j < n && bytes::limbs_value((#[trigger] dps[i]).x@)
            == bytes::limbs_value((#[trigger] dps[j]).x@) implies (dps[i].ktype == 0) == (
    dps[j].ktype == 0) by {
        lemma_every_report_counts(seen, head, i);
        assert(head[j] == dps[j]);
    }
    assert forall|i: int|
        0 <= i < n && seen.contains_key(bytes::limbs_value((#[trigger] dps[i]).x@)) implies (
    seen[bytes::limbs_value(dps[i].x@)].ktype == 0) == (dps[i].ktype == 0) by {
        lemma_every_report_counts(seen, head, i);
    }
}

/// What is held after `n` reports depends on those alone.
proof fn lemma_prefix(
    seen: Map<nat, Trail>,
    dps: Seq<GpuDistinguishedPoint>,
    head: Seq<GpuDistinguishedPoint>,
    n: nat,
)
    requires
        n <= head.len() <= dps.len(),
        head == dps.take(head.len() as int),
    ensures
        solver::seen_through(seen, head, n) == solver::seen_through(seen, dps, n),
    decreases n,
{
    if n > 0 {
        lemma_prefix(seen, dps, head, (n - 1) as nat);
    }
}

} // verus!
