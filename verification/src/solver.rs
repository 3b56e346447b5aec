//! The host's side of a search on a compute device.
//!
//! The device runs the kangaroos; what it is told, and what is made of the
//! distinguished points it reports, is decided here.

use crate::bytes;
use crate::cpu::dp_table;
use crate::cpu::dp_table::{DPTable, Trail};
use crate::cpu::init;
use crate::cpu::init::InitError;
use crate::cpu::wild;
use crate::curve::Point;
use crate::gpu::{GpuAffinePoint, GpuConfig, GpuDistinguishedPoint, GpuKangaroo};
use crate::math;
use vstd::arithmetic::div_mod::*;
use vstd::arithmetic::mul::*;
use vstd::arithmetic::power2::*;
use vstd::prelude::*;

verus! {

/// How many distinguished points the device has room for.
pub const MAX_DISTINGUISHED_POINTS: u32 = 65_536;

// ---------------------------------------------------------------------------
// Steps per dispatch
// ---------------------------------------------------------------------------

/// How many distinguished points a dispatch may be expected to find: nine tenths
/// of the room for them.
pub open spec fn dp_budget(max_dps: u32) -> nat {
    if max_dps as nat * 9 / 10 == 0 {
        1
    } else {
        max_dps as nat * 9 / 10
    }
}

/// How many jumps of all kangaroos together are expected to find as many
/// distinguished points as the budget has.
pub open spec fn jump_budget(dp_bits: u32, max_dps: u32) -> nat {
    dp_budget(max_dps) * pow2(dp_bits as nat)
}

/// How many steps each kangaroo takes in a dispatch.
pub open spec fn steps_per_call(
    optimal_steps: u32,
    num_kangaroos: u32,
    dp_bits: u32,
    max_dps: u32,
) -> nat {
    if num_kangaroos == 0 || optimal_steps == 0 {
        1
    } else {
        let share = jump_budget(dp_bits, max_dps) / num_kangaroos as nat;
        let allowed = if share == 0 {
            1
        } else {
            share
        };
        if allowed < optimal_steps {
            allowed
        } else {
            optimal_steps as nat
        }
    }
}

/// The budget can be computed in 128 bits.
pub open spec fn jump_budget_fits(dp_bits: u32, max_dps: u32) -> bool {
    dp_bits < 128 && jump_budget(dp_bits, max_dps) <= u128::MAX
}

/// However many steps are granted beyond the first, the expected number of
/// distinguished points stays within the budget, and one step more would either
/// exceed it or be more than was asked for.
pub proof fn lemma_steps_within_budget(
    optimal_steps: u32,
    num_kangaroos: u32,
    dp_bits: u32,
    max_dps: u32,
)
    requires
        num_kangaroos > 0,
        optimal_steps > 0,
    ensures
        ({
            let steps = steps_per_call(optimal_steps, num_kangaroos, dp_bits, max_dps);
            &&& 1 <= steps <= optimal_steps
            &&& steps > 1 ==> steps * num_kangaroos <= jump_budget(dp_bits, max_dps)
            &&& steps < optimal_steps ==> (steps + 1) * num_kangaroos > jump_budget(
                dp_bits,
                max_dps,
            )
        }),
{
    let b = jump_budget(dp_bits, max_dps) as int;
    let k = num_kangaroos as int;
    let steps = steps_per_call(optimal_steps, num_kangaroos, dp_bits, max_dps) as int;
    lemma_fundamental_div_mod(b, k);
    lemma_mod_bound(b, k);
    let share = b / k;
    if steps > 1 {
        assert(steps * k <= k * share) by (nonlinear_arith)
            requires
                steps <= share,
                k > 0,
        ;
    }
    if steps < optimal_steps {
        assert((steps + 1) * k >= k * share + k) by (nonlinear_arith)
            requires
                steps >= share,
                k > 0,
        ;
    }
}

// ---------------------------------------------------------------------------
// The search
// ---------------------------------------------------------------------------

/// The numbers of a search fit their types: jumps are 256 bits long at most, and
/// the strides of the wild kangaroos and the budget have 128 bits.
pub open spec fn is_searchable(range_bits: u32, dp_bits: u32, num_kangaroos: u32) -> bool {
    &&& range_bits / 2 <= 256
    &&& wild::wild_seeds_fit(range_bits, num_kangaroos)
    &&& num_kangaroos == 0 || jump_budget_fits(dp_bits, MAX_DISTINGUISHED_POINTS)
}

/// Whether the numbers of a search fit their types.
pub fn search_fits(range_bits: u32, dp_bits: u32, num_kangaroos: u32) -> (r: bool)
    ensures
        r == is_searchable(range_bits, dp_bits, num_kangaroos),
{
    let half: u32 = range_bits / 2;
    if half > 256 {
        return false;
    }
    let stride_bits: u32 = if half < 8 {
        8
    } else if half < 127 {
        half
    } else {
        127
    };
    let wild: u128 = (num_kangaroos - num_kangaroos / 2) as u128;
    let room: u128 = math::power_of_two(128 - stride_bits);
    proof {
        let stride = pow2(stride_bits as nat);
        lemma_pow2_adds((128 - stride_bits) as nat, stride_bits as nat);
        lemma_pow2_pos(stride_bits as nat);
        assert(wild <= room ==> wild * stride <= room * stride) by (nonlinear_arith);
        assert(wild > room ==> wild * stride > room * stride) by (nonlinear_arith)
            requires
                stride > 0,
        ;
    }
    if wild > room {
        return false;
    }
    if num_kangaroos == 0 {
        return true;
    }
    if dp_bits >= 128 {
        return false;
    }
    let budget: u128 = MAX_DISTINGUISHED_POINTS as u128 * 9 / 10;
    budget.checked_mul(math::power_of_two(dp_bits)).is_some()
}

/// A search: the points seen so far and the work done.
pub struct KangarooSolver {
    dp_table: DPTable,
    total_ops: u64,
    num_kangaroos: u32,
    steps_per_call: u32,
    speed_ops_snapshot: u64,
}

/// What the device gets before the first dispatch.
pub struct DeviceSetup {
    pub jump_points: Vec<GpuAffinePoint>,
    pub jump_distances: Vec<[u32; 8]>,
    pub config: GpuConfig,
    pub kangaroos: Vec<GpuKangaroo>,
}

/// What the bookkeeping after a dispatch asks for.
pub struct DispatchReport {
    /// Jumps since speed was last measured, if it is to be measured now.
    pub speed_sample: Option<u64>,
    /// Whether progress is to be logged.
    pub log_due: bool,
}

/// Speed is measured over this many milliseconds at least.
pub const SPEED_WINDOW_MS: u128 = 1000;

/// Progress is logged once in this many dispatches.
pub const LOG_INTERVAL: u64 = 20;

/// Progress is logged where the work done is less than a dispatch past a multiple
/// of the interval.
pub open spec fn is_log_due(total_ops: nat, ops_per_dispatch: nat) -> bool {
    total_ops % (ops_per_dispatch * LOG_INTERVAL as nat) < ops_per_dispatch
}

/// The points seen after the first `n` reports.
pub open spec fn seen_through(
    seen: Map<nat, Trail>,
    dps: Seq<GpuDistinguishedPoint>,
    n: nat,
) -> Map<nat, Trail>
    decreases n,
{
    if n == 0 {
        seen
    } else {
        dp_table::after_sighting(seen_through(seen, dps, (n - 1) as nat), dps[n - 1]@)
    }
}

/// None of the first `n` reports is a collision.
pub open spec fn no_collision(
    seen: Map<nat, Trail>,
    dps: Seq<GpuDistinguishedPoint>,
    n: nat,
) -> bool {
    forall|i: nat|
        i < n ==> !dp_table::collides(#[trigger] seen_through(seen, dps, i), dps[i as int]@)
}

/// Report `n` is a collision, the first one, and gives `key` away.
pub open spec fn first_collision(
    seen: Map<nat, Trail>,
    start: nat,
    dps: Seq<GpuDistinguishedPoint>,
    n: nat,
    key: Seq<u8>,
) -> bool {
    &&& n < dps.len()
    &&& no_collision(seen, dps, n)
    &&& dp_table::sighting_report(seen_through(seen, dps, n), start, dps[n as int]@, Some(key))
}

impl KangarooSolver {
    /// The points seen so far.
    pub closed spec fn table(&self) -> DPTable {
        self.dp_table
    }

    /// How many jumps were made.
    pub closed spec fn ops(&self) -> u64 {
        self.total_ops
    }

    /// How many kangaroos there are.
    pub closed spec fn kangaroos(&self) -> u32 {
        self.num_kangaroos
    }

    /// How many steps each kangaroo takes in a dispatch.
    pub closed spec fn steps(&self) -> u32 {
        self.steps_per_call
    }

    /// How many jumps had been made when speed was last measured.
    pub closed spec fn snapshot(&self) -> u64 {
        self.speed_ops_snapshot
    }

    /// The table is in order, and speed was not measured in the future.
    pub open spec fn wf(&self) -> bool {
        &&& self.table().wf()
        &&& self.snapshot() <= self.ops()
    }

    /// How many jumps a dispatch makes.
    pub open spec fn dispatch_ops(&self) -> nat {
        self.kangaroos() as nat * self.steps() as nat
    }

    /// A search that has not begun, and what the device needs for it.
    ///
    /// `start` is little-endian; `optimal_steps` is what suits the device, and
    /// `dp_mask` the mask of `dp_bits` bits that tells distinguished points.
    pub fn new(
        pubkey: &Point,
        start: [u8; 32],
        range_bits: u32,
        dp_bits: u32,
        num_kangaroos: u32,
        optimal_steps: u32,
        dp_mask: &[u32; 8],
    ) -> (r: Result<(KangarooSolver, DeviceSetup), InitError>)
        requires
            pubkey.wf(),
            is_searchable(range_bits, dp_bits, num_kangaroos),
        ensures
            match r {
                Ok((solver, setup)) => {
                    &&& solver.wf()
                    &&& solver.table().seen() == Map::<nat, Trail>::empty()
                    &&& solver.table().start() == bytes::le_value(start@)
                    &&& solver.ops() == 0
                    &&& solver.snapshot() == 0
                    &&& solver.kangaroos() == num_kangaroos
                    &&& solver.steps() == steps_per_call(
                        optimal_steps,
                        num_kangaroos,
                        dp_bits,
                        MAX_DISTINGUISHED_POINTS,
                    )
                    &&& init::is_jump_table(
                        range_bits,
                        setup.jump_points@,
                        setup.jump_distances@,
                    )
                    &&& setup.config.dp_mask() == dp_mask@
                    &&& setup.config.num_kangaroos == num_kangaroos
                    &&& setup.config.steps_per_call == solver.steps()
                    &&& setup.config.jump_table_size == init::TABLE_SIZE
                    &&& setup.config._padding == 0
                    &&& init::all_placed(
                        pubkey@,
                        bytes::le_value(start@),
                        range_bits,
                        num_kangaroos,
                        setup.kangaroos@,
                    )
                },
                Err(InitError::PointAtInfinity) => init::some_start_at_infinity(
                    pubkey@,
                    bytes::le_value(start@),
                    range_bits,
                    num_kangaroos,
                ),
            },
            init::starts_are_known(
                pubkey@,
                bytes::le_value(start@),
                range_bits,
                num_kangaroos,
            ),
    {
        let (jump_points, jump_distances) = init::generate_jump_table(range_bits);
        let steps_per_call: u32 = Self::select_steps_per_call(
            optimal_steps,
            num_kangaroos,
            dp_bits,
            MAX_DISTINGUISHED_POINTS,
        );
        let config = GpuConfig::new(dp_mask, num_kangaroos, steps_per_call);
        match init::initialize_kangaroos(pubkey, &start, range_bits, num_kangaroos) {
            Ok(kangaroos) => {
                let solver = KangarooSolver {
                    dp_table: DPTable::new(start),
                    total_ops: 0,
                    num_kangaroos,
                    steps_per_call,
                    speed_ops_snapshot: 0,
                };
                Ok((solver, DeviceSetup { jump_points, jump_distances, config, kangaroos }))
            },
            Err(e) => Err(e),
        }
    }

    /// How many steps each kangaroo takes in a dispatch: `optimal_steps`, or as
    /// many as leave room for the distinguished points, but one at least.
    pub fn select_steps_per_call(
        optimal_steps: u32,
        num_kangaroos: u32,
        dp_bits: u32,
        max_dps: u32,
    ) -> (r: u32)
        requires
            num_kangaroos == 0 || optimal_steps == 0 || jump_budget_fits(dp_bits, max_dps),
        ensures
            r == steps_per_call(optimal_steps, num_kangaroos, dp_bits, max_dps),
            num_kangaroos == 0 || optimal_steps == 0 ==> r == 1,
            num_kangaroos > 0 && optimal_steps > 0 ==> {
                let room = if max_dps >= 2 {
                    (max_dps * 9) / 10
                } else {
                    1
                };
                &&& 1 <= r <= optimal_steps
                &&& r > 1 ==> r * num_kangaroos <= room * pow2(dp_bits as nat)
                &&& r < optimal_steps ==> (r + 1) * num_kangaroos > room * pow2(dp_bits as nat)
            },
    {
        if num_kangaroos == 0 || optimal_steps == 0 {
            return 1;
        }
        proof {
            lemma_steps_within_budget(optimal_steps, num_kangaroos, dp_bits, max_dps);
        }
        let share: u128 = max_dps as u128 * 9 / 10;
        let budget: u128 = if share < 1 { 1 } else { share };
        let dp_spacing: u128 = math::power_of_two(dp_bits);
        let per_kangaroo: u128 = budget * dp_spacing / num_kangaroos as u128;
        let allowed: u128 = if per_kangaroo < 1 { 1 } else { per_kangaroo };
        if allowed < optimal_steps as u128 {
            allowed as u32
        } else {
            optimal_steps
        }
    }

    /// How many jumps a dispatch makes.
    pub fn ops_per_dispatch(&self) -> (r: u64)
        ensures
            r == self.dispatch_ops(),
    {
        assert(self.num_kangaroos as nat * self.steps_per_call as nat <= u64::MAX)
            by (nonlinear_arith)
            requires
                self.num_kangaroos <= u32::MAX,
                self.steps_per_call <= u32::MAX,
        ;
        self.num_kangaroos as u64 * self.steps_per_call as u64
    }

    /// Another dispatch can be counted: it makes jumps, and neither a logging
    /// interval of them nor the total leaves 64 bits.
    pub open spec fn is_countable(&self) -> bool {
        &&& self.dispatch_ops() > 0
        &&& self.dispatch_ops() * LOG_INTERVAL <= u64::MAX
        &&& self.ops() + self.dispatch_ops() <= u64::MAX
    }

    /// Whether another dispatch can be counted.
    pub fn can_count_dispatch(&self) -> (r: bool)
        ensures
            r == self.is_countable(),
    {
        let ops: u64 = self.ops_per_dispatch();
        ops > 0 && ops <= u64::MAX / LOG_INTERVAL && ops <= u64::MAX - self.total_ops
    }

    /// Counts a dispatch that was made, `elapsed_ms` milliseconds after speed was
    /// last measured.
    pub fn count_dispatch(&mut self, elapsed_ms: u128) -> (r: DispatchReport)
        requires
            old(self).wf(),
            old(self).is_countable(),
        ensures
            final(self).wf(),
            final(self).table() == old(self).table(),
            final(self).kangaroos() == old(self).kangaroos(),
            final(self).steps() == old(self).steps(),
            final(self).ops() == old(self).ops() + old(self).dispatch_ops(),
            if elapsed_ms >= SPEED_WINDOW_MS {
                &&& final(self).snapshot() == final(self).ops()
                &&& r.speed_sample == Some((final(self).ops() - old(self).snapshot()) as u64)
            } else {
                &&& final(self).snapshot() == old(self).snapshot()
                &&& r.speed_sample is None
            },
            r.log_due == is_log_due(final(self).ops() as nat, old(self).dispatch_ops()),
    {
        let ops: u64 = self.ops_per_dispatch();
        self.total_ops = self.total_ops + ops;
        let speed_sample = if elapsed_ms >= SPEED_WINDOW_MS {
            let delta: u64 = self.total_ops - self.speed_ops_snapshot;
            self.speed_ops_snapshot = self.total_ops;
            Some(delta)
        } else {
            None
        };
        let log_due = self.total_ops % (ops * LOG_INTERVAL) < ops;
        DispatchReport { speed_sample, log_due }
    }

    /// How many of the points that the device found it had room for.
    pub fn points_to_read(dp_count: u32) -> (r: u32)
        ensures
            r == if dp_count <= MAX_DISTINGUISHED_POINTS {
                dp_count
            } else {
                MAX_DISTINGUISHED_POINTS
            },
    {
        if dp_count <= MAX_DISTINGUISHED_POINTS {
            dp_count
        } else {
            MAX_DISTINGUISHED_POINTS
        }
    }

    /// Files the points that the device reported, up to the first one that gives
    /// the private key away: big-endian, without leading zero bytes.
    pub fn step(&mut self, dps: &Vec<GpuDistinguishedPoint>) -> (r: Option<Vec<u8>>)
        requires
            old(self).wf(),
        ensures
            final(self).wf(),
            final(self).table().start() == old(self).table().start(),
            final(self).ops() == old(self).ops(),
            final(self).snapshot() == old(self).snapshot(),
            final(self).kangaroos() == old(self).kangaroos(),
            final(self).steps() == old(self).steps(),
            match r {
                Some(key) => exists|n: nat|
                    #![trigger seen_through(old(self).table().seen(), dps@, n)]
                    first_collision(
                        old(self).table().seen(),
                        old(self).table().start(),
                        dps@,
                        n,
                        key@,
                    ) && final(self).table().seen() == seen_through(
                        old(self).table().seen(),
                        dps@,
                        n,
                    ),
                None => no_collision(old(self).table().seen(), dps@, dps@.len())
                    && final(self).table().seen() == seen_through(
                    old(self).table().seen(),
                    dps@,
                    dps@.len(),
                ),
            },
            r is None ==> forall|i: int|
                0 <= i < dps@.len() ==> final(self).table().seen().contains_key(
                    bytes::limbs_value((#[trigger] dps@[i]).x@),
                ),
    {
        let ghost seen = self.table().seen();
        let ghost start = self.table().start();
        for i in 0..dps.len()
            invariant
                self.wf(),
                seen == old(self).table().seen(),
                start == old(self).table().start(),
                self.table().start() == start,
                self.ops() == old(self).ops(),
                self.snapshot() == old(self).snapshot(),
                self.kangaroos() == old(self).kangaroos(),
                self.steps() == old(self).steps(),
                self.table().seen() == seen_through(seen, dps@, i as nat),
                no_collision(seen, dps@, i as nat),
                forall|j: int|
                    0 <= j < i ==> self.table().seen().contains_key(
                        bytes::limbs_value((#[trigger] dps@[j]).x@),
                    ),
        {
            let found = self.dp_table.insert_and_check(dps[i]);
            if let Some(key) = found {
                assert(first_collision(seen, start, dps@, i as nat, key@));
                return Some(key);
            }
        }
        None
    }

    /// How many jumps were made.
    pub fn total_operations(&self) -> (r: u64)
        ensures
            r == self.ops(),
    {
        self.total_ops
    }

    /// The points seen so far.
    pub fn dp_table(&self) -> (r: &DPTable)
        ensures
            *r == self.table(),
    {
        &self.dp_table
    }

    /// Takes over the number of steps that a calibration found.
    pub fn apply_calibration(&mut self, calibration: &Calibration)
        requires
            calibration.wf(),
        ensures
            final(self).steps() == calibration.result(),
            final(self).table() == old(self).table(),
            final(self).ops() == old(self).ops(),
            final(self).snapshot() == old(self).snapshot(),
            final(self).kangaroos() == old(self).kangaroos(),
    {
        self.steps_per_call = calibration.best();
    }

    /// The configuration that the device searches with.
    pub fn config(&self, dp_mask: &[u32; 8]) -> (c: GpuConfig)
        ensures
            c.dp_mask() == dp_mask@,
            c.num_kangaroos == self.kangaroos(),
            c.steps_per_call == self.steps(),
            c.jump_table_size == init::TABLE_SIZE,
            c._padding == 0,
    {
        GpuConfig::new(dp_mask, self.num_kangaroos, self.steps_per_call)
    }
}

// ---------------------------------------------------------------------------
// Calibration
// ---------------------------------------------------------------------------

/// A dispatch is to take less than this many milliseconds.
pub const TARGET_DISPATCH_MS: u128 = 20;

/// How many numbers of steps are tried.
pub const CANDIDATES: u32 = 9;

/// The numbers of steps that are tried: 16 and on by doubling.
pub open spec fn candidate(i: nat) -> nat {
    16 * pow2(i)
}

/// A dispatch of candidate `i` leaves room for the distinguished points.
pub open spec fn candidate_fits(num_kangaroos: u32, dp_bits: u32, i: nat) -> bool {
    steps_per_call(candidate(i) as u32, num_kangaroos, dp_bits, MAX_DISTINGUISHED_POINTS)
        == candidate(i)
}

/// How many candidates pass one after the other, from candidate `from` on, where
/// a dispatch of candidate `i` takes `ms(i)` milliseconds.
pub open spec fn passing_run(
    num_kangaroos: u32,
    dp_bits: u32,
    ms: spec_fn(nat) -> u128,
    from: nat,
) -> nat
    decreases CANDIDATES - from,
{
    if from < CANDIDATES && candidate_fits(num_kangaroos, dp_bits, from) && ms(from)
        < TARGET_DISPATCH_MS {
        passing_run(num_kangaroos, dp_bits, ms, from + 1)
    } else {
        from
    }
}

/// The search for the largest number of steps that a dispatch can make in time.
///
/// Trials are timed one after the other, until one is too slow or the next would
/// not leave room for the distinguished points.
pub struct Calibration {
    num_kangaroos: u32,
    dp_bits: u32,
    passed: u32,
    stopped: bool,
}

impl Calibration {
    /// How many kangaroos there are.
    pub closed spec fn kangaroos(&self) -> u32 {
        self.num_kangaroos
    }

    /// How many bits tell a distinguished point.
    pub closed spec fn bits(&self) -> u32 {
        self.dp_bits
    }

    /// How many trials were fast enough.
    pub closed spec fn trials_passed(&self) -> nat {
        self.passed as nat
    }

    /// Whether a trial was too slow.
    pub closed spec fn is_stopped(&self) -> bool {
        self.stopped
    }

    /// Every trial that passed had room for the distinguished points.
    pub open spec fn wf(&self) -> bool {
        &&& self.kangaroos() == 0 || jump_budget_fits(self.bits(), MAX_DISTINGUISHED_POINTS)
        &&& self.trials_passed() <= CANDIDATES
        &&& forall|i: nat|
            i < self.trials_passed() ==> #[trigger] candidate_fits(
                self.kangaroos(),
                self.bits(),
                i,
            )
    }

    /// There is another trial to make.
    pub open spec fn is_pending(&self) -> bool {
        &&& !self.is_stopped()
        &&& self.trials_passed() < CANDIDATES
        &&& candidate_fits(self.kangaroos(), self.bits(), self.trials_passed())
    }

    /// The number of steps of the last trial that passed, or the least one.
    pub open spec fn result(&self) -> nat {
        if self.trials_passed() == 0 {
            candidate(0)
        } else {
            candidate((self.trials_passed() - 1) as nat)
        }
    }

    /// How many candidates pass in all, where a dispatch of candidate `i` takes
    /// `ms(i)` milliseconds.
    pub open spec fn outcome(&self, ms: spec_fn(nat) -> u128) -> nat {
        if self.is_stopped() {
            self.trials_passed()
        } else {
            passing_run(self.kangaroos(), self.bits(), ms, self.trials_passed())
        }
    }

    /// A calibration that has not begun.
    pub fn new(num_kangaroos: u32, dp_bits: u32) -> (c: Self)
        requires
            num_kangaroos == 0 || jump_budget_fits(dp_bits, MAX_DISTINGUISHED_POINTS),
        ensures
            c.wf(),
            c.kangaroos() == num_kangaroos,
            c.bits() == dp_bits,
            c.trials_passed() == 0,
            !c.is_stopped(),
    {
        Calibration { num_kangaroos, dp_bits, passed: 0, stopped: false }
    }

    /// Candidate `i`.
    fn steps_of(i: u32) -> (r: u32)
        requires
            i < CANDIDATES,
        ensures
            r == candidate(i as nat),
            r <= 4096,
    {
        proof {
            lemma2_to64();
            if i < 8 {
                lemma_pow2_strictly_increases(i as nat, 8);
            }
        }
        16 * math::power_of_two(i) as u32
    }

    /// The configuration of the next trial, with every point distinguished; none
    /// where there is no trial left to make.
    pub fn next_trial(&self) -> (r: Option<GpuConfig>)
        requires
            self.wf(),
        ensures
            match r {
                Some(c) => {
                    &&& self.is_pending()
                    &&& c.steps_per_call == candidate(self.trials_passed())
                    &&& c.num_kangaroos == self.kangaroos()
                    &&& c.dp_mask() == Seq::new(8, |i: int| 0u32)
                    &&& c.jump_table_size == init::TABLE_SIZE
                    &&& c._padding == 0
                },
                None => !self.is_pending(),
            },
    {
        if self.stopped || self.passed >= CANDIDATES {
            return None;
        }
        let steps: u32 = Self::steps_of(self.passed);
        let capped: u32 = KangarooSolver::select_steps_per_call(
            steps,
            self.num_kangaroos,
            self.dp_bits,
            MAX_DISTINGUISHED_POINTS,
        );
        proof {
            lemma_pow2_pos(self.passed as nat);
            if self.num_kangaroos > 0 {
                lemma_steps_within_budget(
                    steps,
                    self.num_kangaroos,
                    self.dp_bits,
                    MAX_DISTINGUISHED_POINTS,
                );
            }
        }
        if capped < steps {
            return None;
        }
        let mask = [0u32; 8];
        assert(mask@ =~= Seq::new(8, |i: int| 0u32));
        Some(GpuConfig::new(&mask, self.num_kangaroos, steps))
    }

    /// Takes note that a dispatch of the pending trial took `ms` milliseconds.
    pub fn record_trial(&mut self, ms: u128)
        requires
            old(self).wf(),
            old(self).is_pending(),
        ensures
            final(self).wf(),
            after_trial(*old(self), *final(self), ms),
    {
        if ms < TARGET_DISPATCH_MS {
            self.passed = self.passed + 1;
        } else {
            self.stopped = true;
        }
    }

    /// The largest number of steps that was fast enough, or the least candidate
    /// where none was.
    pub fn best(&self) -> (r: u32)
        requires
            self.wf(),
        ensures
            r == self.result(),
            r > candidate(0) ==> r as nat * self.kangaroos() as nat <= jump_budget(
                self.bits(),
                MAX_DISTINGUISHED_POINTS,
            ),
    {
        if self.passed == 0 {
            return Self::steps_of(0);
        }
        let r: u32 = Self::steps_of(self.passed - 1);
        proof {
            lemma_pow2_pos((self.passed - 1) as nat);
            assert(candidate_fits(self.kangaroos(), self.bits(), (self.passed - 1) as nat));
            if self.num_kangaroos > 0 {
                lemma_steps_within_budget(
                    r,
                    self.num_kangaroos,
                    self.dp_bits,
                    MAX_DISTINGUISHED_POINTS,
                );
            }
        }
        r
    }
}

/// `after` is `before` with its pending trial made in `ms` milliseconds.
pub open spec fn after_trial(before: Calibration, after: Calibration, ms: u128) -> bool {
    &&& after.kangaroos() == before.kangaroos()
    &&& after.bits() == before.bits()
    &&& after.is_stopped() == (ms >= TARGET_DISPATCH_MS)
    &&& after.trials_passed() == if ms < TARGET_DISPATCH_MS {
        before.trials_passed() + 1
    } else {
        before.trials_passed()
    }
}

// ---------------------------------------------------------------------------
// What holds of every search
// ---------------------------------------------------------------------------

/// Progress is logged in one of twenty dispatches, where all are of one size.
pub proof fn lemma_log_once_per_interval(dispatches: nat, ops_per_dispatch: nat)
    requires
        ops_per_dispatch > 0,
    ensures
        is_log_due(dispatches * ops_per_dispatch, ops_per_dispatch) <==> dispatches
            % LOG_INTERVAL as nat == 0,
{
    let (d, o) = (dispatches as int, ops_per_dispatch as int);
    let n = LOG_INTERVAL as int;
    lemma_truncate_middle(d, o, n);
    assert((o * d) % (o * n) == o * (d % n));
    assert(o * d == d * o) by (nonlinear_arith);
    lemma_mod_bound(d, n);
    if d % n > 0 {
        assert(o * (d % n) >= o) by (nonlinear_arith)
            requires
                d % n >= 1,
                o > 0,
        ;
    } else {
        assert(o * 0 == 0) by (nonlinear_arith);
    }
}

/// Two batches of reports leave the same points behind as one batch of both.
pub proof fn lemma_batches_join(
    seen: Map<nat, Trail>,
    a: Seq<GpuDistinguishedPoint>,
    b: Seq<GpuDistinguishedPoint>,
    n: nat,
)
    requires
        n <= b.len(),
    ensures
        seen_through(seen, a + b, a.len() + n) == seen_through(
            seen_through(seen, a, a.len()),
            b,
            n,
        ),
    decreases n,
{
    if n == 0 {
        lemma_prefix_alone_counts(seen, a, b, a.len());
    } else {
        lemma_batches_join(seen, a, b, (n - 1) as nat);
        assert((a + b)[a.len() + n - 1] == b[n - 1]);
    }
}

/// What was seen after `n` reports depends on those alone.
proof fn lemma_prefix_alone_counts(
    seen: Map<nat, Trail>,
    a: Seq<GpuDistinguishedPoint>,
    b: Seq<GpuDistinguishedPoint>,
    n: nat,
)
    requires
        n <= a.len(),
    ensures
        seen_through(seen, a + b, n) == seen_through(seen, a, n),
    decreases n,
{
    if n > 0 {
        lemma_prefix_alone_counts(seen, a, b, (n - 1) as nat);
        assert((a + b)[n - 1] == a[n - 1]);
    }
}

/// A calibration ends with the longest run of candidates, from the first on, that
/// all leave room for the distinguished points and are fast enough.
pub proof fn lemma_passing_run_is_longest(
    num_kangaroos: u32,
    dp_bits: u32,
    ms: spec_fn(nat) -> u128,
    from: nat,
)
    requires
        from <= CANDIDATES,
    ensures
        ({
            let end = passing_run(num_kangaroos, dp_bits, ms, from);
            &&& from <= end <= CANDIDATES
            &&& forall|i: nat|
                from <= i < end ==> #[trigger] candidate_fits(num_kangaroos, dp_bits, i) && ms(i)
                    < TARGET_DISPATCH_MS
            &&& end < CANDIDATES ==> !candidate_fits(num_kangaroos, dp_bits, end) || ms(end)
                >= TARGET_DISPATCH_MS
        }),
    decreases CANDIDATES - from,
{
    if from < CANDIDATES && candidate_fits(num_kangaroos, dp_bits, from) && ms(from)
        < TARGET_DISPATCH_MS {
        lemma_passing_run_is_longest(num_kangaroos, dp_bits, ms, from + 1);
    }
}

/// A trial leaves the outcome of a calibration as it is, and where no trial is
/// left it has come to that outcome.
pub proof fn lemma_calibration_reaches_outcome(
    before: Calibration,
    after: Calibration,
    ms: spec_fn(nat) -> u128,
)
    requires
        before.wf(),
        before.is_pending() ==> after_trial(before, after, ms(before.trials_passed())),
    ensures
        before.is_pending() ==> after.outcome(ms) == before.outcome(ms),
        !before.is_pending() ==> before.trials_passed() == before.outcome(ms),
{
}

/// Stopping at the first candidate without room for the distinguished points
/// loses nothing: no later one has it either.
pub proof fn lemma_room_only_shrinks(num_kangaroos: u32, dp_bits: u32, i: nat, j: nat)
    requires
        i <= j < CANDIDATES,
        candidate_fits(num_kangaroos, dp_bits, j),
    ensures
        candidate_fits(num_kangaroos, dp_bits, i),
{
    lemma2_to64();
    lemma_pow2_pos(i);
    if i < j {
        lemma_pow2_strictly_increases(i, j);
    }
    if j < 8 {
        lemma_pow2_strictly_increases(j, 8);
    }
}

} // verus!
