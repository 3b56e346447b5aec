//! Steps, dispatches and calibration.

use crate::cpu::init;
use crate::cpu::wild;
use crate::run;
use crate::solver;
use crate::solver::{Calibration, KangarooSolver};
use vstd::arithmetic::div_mod::*;
use vstd::arithmetic::power2::*;
use vstd::prelude::*;

verus! {

/// One in `2^dp_bits` jumps ends at a distinguished point. The points that a
/// dispatch is expected to find fill nine tenths of the room for them at most,
/// unless it makes a single step, and one step more would exceed that, unless no
/// more was asked for.
pub proof fn lemma_steps_fill_the_buffer(
    optimal_steps: u32,
    num_kangaroos: u32,
    dp_bits: u32,
    max_dps: u32,
    room: nat,
)
    requires
        num_kangaroos > 0,
        optimal_steps > 0,
        room == if max_dps >= 2 {
            (max_dps as nat * 9) / 10
        } else {
            1
        },
    ensures
        ({
            let steps = solver::steps_per_call(optimal_steps, num_kangaroos, dp_bits, max_dps);
            &&& 1 <= steps <= optimal_steps
            &&& steps > 1 ==> steps * num_kangaroos <= room * pow2(dp_bits as nat)
            &&& steps < optimal_steps ==> (steps + 1) * num_kangaroos > room * pow2(
                dp_bits as nat,
            )
        }),
{
    solver::lemma_steps_within_budget(optimal_steps, num_kangaroos, dp_bits, max_dps);
}

/// With no kangaroos or no steps asked for, a dispatch makes one step.
pub proof fn lemma_nothing_to_do_is_one_step(
    optimal_steps: u32,
    num_kangaroos: u32,
    dp_bits: u32,
    max_dps: u32,
)
    requires
        num_kangaroos == 0 || optimal_steps == 0,
    ensures
        solver::steps_per_call(optimal_steps, num_kangaroos, dp_bits, max_dps) == 1,
{
}

/// More kangaroos get no more steps each, and more room or rarer points no fewer.
pub proof fn lemma_steps_are_monotone(
    optimal_steps: u32,
    kangaroos: (u32, u32),
    dp_bits: (u32, u32),
    max_dps: (u32, u32),
)
    requires
        0 < kangaroos.0 <= kangaroos.1,
        dp_bits.0 >= dp_bits.1,
        max_dps.0 >= max_dps.1,
    ensures
        solver::steps_per_call(optimal_steps, kangaroos.0, dp_bits.0, max_dps.0)
            >= solver::steps_per_call(optimal_steps, kangaroos.1, dp_bits.1, max_dps.1),
{
    let (a, b) = (solver::dp_budget(max_dps.0), solver::dp_budget(max_dps.1));
    let (p, q) = (pow2(dp_bits.0 as nat), pow2(dp_bits.1 as nat));
    let (k, l) = (kangaroos.0 as nat, kangaroos.1 as nat);
    if dp_bits.0 > dp_bits.1 {
        lemma_pow2_strictly_increases(dp_bits.1 as nat, dp_bits.0 as nat);
    }
    assert(a * p >= b * q) by (nonlinear_arith)
        requires
            a >= b,
            p >= q,
    ;
    lemma_div_is_ordered((b * q) as int, (a * p) as int, l as int);
    lemma_div_is_ordered_by_denominator((a * p) as int, k as int, l as int);
}

/// The numbers of a search fit exactly where jumps have 256 bits at most, and the
/// strides of the wild kangaroos and the jumps that fill nine tenths of the
/// buffer have 128.
pub proof fn lemma_searchable(range_bits: u32, dp_bits: u32, num_kangaroos: u32, stride_bits: nat)
    requires
        stride_bits == if range_bits < 16 {
            8
        } else if range_bits < 254 {
            (range_bits / 2) as nat
        } else {
            127
        },
    ensures
        solver::is_searchable(range_bits, dp_bits, num_kangaroos) <==> {
            &&& range_bits / 2 <= 256
            &&& (num_kangaroos - num_kangaroos / 2) * pow2(stride_bits) <= pow2(128)
            &&& num_kangaroos == 0 || (dp_bits < 128 && 58982 * pow2(dp_bits as nat) < pow2(128))
        },
        wild::wild_seeds_fit(range_bits, num_kangaroos) <==> (num_kangaroos - num_kangaroos / 2)
            * pow2(stride_bits) <= pow2(128),
{
    init::lemma_powers_around_order();
}

/// A step budget can be computed exactly where it has 128 bits.
pub proof fn lemma_budget_fits(dp_bits: u32, max_dps: u32, room: nat)
    requires
        room == if max_dps >= 2 {
            (max_dps as nat * 9) / 10
        } else {
            1
        },
    ensures
        solver::jump_budget_fits(dp_bits, max_dps) <==> dp_bits < 128 && room * pow2(
            dp_bits as nat,
        ) < pow2(128),
{
    init::lemma_powers_around_order();
}

/// Progress is logged where the jumps made are less than a dispatch past a
/// multiple of twenty dispatches.
pub proof fn lemma_log_window(total_ops: nat, ops_per_dispatch: nat, intervals: nat, past: nat)
    requires
        ops_per_dispatch > 0,
        total_ops == 20 * ops_per_dispatch * intervals + past,
        past < 20 * ops_per_dispatch,
    ensures
        solver::is_log_due(total_ops, ops_per_dispatch) <==> past < ops_per_dispatch,
{
    let d = 20 * ops_per_dispatch as int;
    assert(d * intervals == intervals * d) by (nonlinear_arith);
    lemma_fundamental_div_mod_converse(total_ops as int, d, intervals as int, past as int);
}

/// A dispatch can be counted exactly where it makes a jump at least, and neither
/// twenty times its jumps nor the new total exceeds 64 bits.
pub proof fn lemma_countable(s: KangarooSolver)
    ensures
        s.dispatch_ops() == s.kangaroos() as nat * s.steps() as nat,
        s.is_countable() <==> s.kangaroos() > 0 && s.steps() > 0 && 20 * (s.kangaroos() as int
            * s.steps() as int) <= u64::MAX && s.ops() + s.kangaroos() as int * s.steps() as int
            <= u64::MAX,
{
    let (k, n) = (s.kangaroos() as int, s.steps() as int);
    assert(k * n > 0 <==> k > 0 && n > 0) by (nonlinear_arith)
        requires
            k >= 0,
            n >= 0,
    ;
}

/// The candidates are 16 and on by doubling, and one leaves room exactly where
/// its jumps are expected to find nine tenths of the buffer at most.
pub proof fn lemma_candidates(num_kangaroos: u32, dp_bits: u32, i: nat)
    requires
        i < 9,
    ensures
        solver::candidate(0) == 16,
        solver::candidate(i + 1) == 2 * solver::candidate(i),
        solver::candidate_fits(num_kangaroos, dp_bits, i) <==> num_kangaroos > 0
            && solver::candidate(i) * num_kangaroos <= 58982 * pow2(dp_bits as nat),
{
    lemma2_to64();
    lemma_pow2_unfold(i + 1);
    lemma_pow2_pos(i);
    if i < 8 {
        lemma_pow2_strictly_increases(i, 8);
    }
    let c = solver::candidate(i) as u32;
    if num_kangaroos > 0 {
        solver::lemma_steps_within_budget(
            c,
            num_kangaroos,
            dp_bits,
            solver::MAX_DISTINGUISHED_POINTS,
        );
        let steps = solver::steps_per_call(
            c,
            num_kangaroos,
            dp_bits,
            solver::MAX_DISTINGUISHED_POINTS,
        );
        if steps < c {
            assert((steps + 1) * num_kangaroos <= c * num_kangaroos) by (nonlinear_arith)
                requires
                    steps + 1 <= c,
            ;
        }
    }
}

/// A trial is pending exactly where none was too slow, fewer than nine passed,
/// and the next one leaves room.
pub proof fn lemma_pending(c: Calibration)
    requires
        c.trials_passed() <= 9,
    ensures
        c.is_pending() <==> {
            &&& !c.is_stopped()
            &&& c.trials_passed() < 9
            &&& c.kangaroos() > 0
            &&& 16 * pow2(c.trials_passed()) * c.kangaroos() <= 58982 * pow2(c.bits() as nat)
        },
{
    if c.trials_passed() < 9 {
        lemma_candidates(c.kangaroos(), c.bits(), c.trials_passed());
    }
}

/// A trial passes exactly where it takes less than 20 milliseconds; one that does
/// not is the last.
pub proof fn lemma_trial(before: Calibration, after: Calibration, ms: u128)
    requires
        solver::after_trial(before, after, ms),
    ensures
        ms < 20 ==> after.trials_passed() == before.trials_passed() + 1 && !after.is_stopped(),
        ms >= 20 ==> after.trials_passed() == before.trials_passed() && after.is_stopped(),
        after.kangaroos() == before.kangaroos(),
        after.bits() == before.bits(),
{
}

/// A calibration results in the last candidate that passed, or the first.
pub proof fn lemma_calibrated_steps(c: Calibration)
    ensures
        c.trials_passed() == 0 ==> c.result() == 16,
        c.trials_passed() > 0 ==> 2 * c.result() == 16 * pow2(c.trials_passed()),
{
    lemma2_to64();
    if c.trials_passed() > 0 {
        lemma_pow2_unfold(c.trials_passed());
    }
}

/// The outcome of a fresh calibration: every candidate before it leaves room and
/// takes less than 20 milliseconds, and the one at it, if any, does not.
pub proof fn lemma_outcome(c: Calibration, ms: spec_fn(nat) -> u128, i: nat)
    requires
        c.trials_passed() == 0,
        !c.is_stopped(),
        i < 9,
    ensures
        ({
            let end = c.outcome(ms);
            let passes = c.kangaroos() > 0 && 16 * pow2(i) * c.kangaroos() <= 58982 * pow2(
                c.bits() as nat,
            ) && ms(i) < 20;
            &&& end <= 9
            &&& i < end ==> passes
            &&& i == end ==> !passes
        }),
{
    solver::lemma_passing_run_is_longest(c.kangaroos(), c.bits(), ms, 0);
    lemma_candidates(c.kangaroos(), c.bits(), i);
}

/// A number is left alone inside the bounds, and moved to the nearer one outside.
pub proof fn lemma_clamped(n: int, low: u32, high: u32)
    requires
        low <= high,
    ensures
        low <= run::clamped(n, low, high) <= high,
        low <= n <= high ==> run::clamped(n, low, high) == n,
        n < low ==> run::clamped(n, low, high) == low,
        n > high ==> run::clamped(n, low, high) == high,
{
}

} // verus!
