//! A run of the program: its arguments, and what follows from them.

use crate::math;
use vstd::arithmetic::logarithm::*;
use vstd::arithmetic::power2::*;
use vstd::prelude::*;

verus! {

/// What the program is asked to do.
///
/// The private key `k` with `P = k * G` is searched, where `k` is known to lie
/// between `start` and `start + 2^range`.
pub struct Args {
    /// Public key to solve (compressed hex, 33 bytes).
    pub pubkey: String,
    /// Start of the search range (hex, without 0x prefix).
    pub start: String,
    /// Bit range to search.
    pub range: u32,
    /// Distinguished point bits (chosen if not set).
    pub dp_bits: Option<u32>,
    /// Number of kangaroos (chosen by the device if not set).
    pub kangaroos: Option<u32>,
    /// Device index.
    pub gpu: u32,
    /// Output file for the result (hex private key).
    pub output: Option<String>,
    /// Minimal output: just the key.
    pub quiet: bool,
    /// Operations before giving up (0 = unlimited).
    pub max_ops: u64,
    /// Search on the CPU.
    pub cpu: bool,
    /// Benchmark results in JSON format.
    pub json: bool,
}

/// How a key that was found is reported.
#[derive(Debug, Clone, Copy, PartialEq, Eq, Structural)]
pub enum Report {
    /// As a benchmark result in JSON.
    Json,
    /// As the bare key.
    Quiet,
    /// In the log.
    Verbose,
}

/// What follows a step of the search.
#[derive(Debug, Clone, Copy, PartialEq, Eq, Structural)]
pub enum Verdict {
    /// The key was found.
    Found,
    /// The search goes on.
    Continue,
    /// The search ends without a key.
    LimitReached,
}

/// `n`, moved into the bounds.
pub open spec fn clamped(n: int, low: u32, high: u32) -> int
    recommends
        low <= high,
{
    if n < low {
        low as int
    } else if n > high {
        high as int
    } else {
        n
    }
}

/// `a - b`, or zero, moved into the bounds.
fn difference_within(a: u32, b: u32, low: u32, high: u32) -> (r: u32)
    requires
        low <= high,
    ensures
        r == clamped(a - b, low, high),
{
    let d: u32 = if a < b { 0 } else { a - b };
    if d < low {
        low
    } else if d > high {
        high
    } else {
        d
    }
}

/// Distinguished point bits for a search on the CPU: two less than half the range
/// bits, from 8 to 20.
pub fn cpu_dp_bits(range_bits: u32) -> (r: u32)
    ensures
        r == clamped(range_bits / 2 - 2, 8, 20),
{
    difference_within(range_bits / 2, 2, 8, 20)
}

/// Distinguished point bits for a search on a device: half the range bits, less
/// half the logarithm of the number of kangaroos, from 8 to 40.
pub fn gpu_dp_bits(range_bits: u32, num_kangaroos: u32) -> (r: u32)
    ensures
        r == clamped(range_bits / 2 - log(2, num_kangaroos as int) / 2, 8, 40),
{
    difference_within(range_bits / 2, math::floor_log2(num_kangaroos) / 2, 8, 40)
}

/// The number of operations that a search is expected to take, for the progress
/// bar: `2^(range_bits / 2)`, cut to 64 bits.
pub fn expected_ops(range_bits: u32) -> (r: u64)
    requires
        range_bits / 2 < 128,
    ensures
        r == pow2((range_bits / 2) as nat) % pow2(64),
{
    let ops: u128 = math::power_of_two(range_bits / 2);
    proof {
        lemma2_to64();
        lemma2_to64_rest();
    }
    (ops % 0x1_0000_0000_0000_0000) as u64
}

/// Whether the speed that is shown is to be brought up to date, `elapsed_ms`
/// milliseconds after the last time.
pub fn speed_refresh_due(elapsed_ms: u128) -> (r: bool)
    ensures
        r == (elapsed_ms >= 500),
{
    elapsed_ms >= 500
}

impl Args {
    /// Whether nothing is logged and no progress is shown.
    pub fn is_silent(&self) -> (r: bool)
        ensures
            r == (self.quiet || self.json),
    {
        self.quiet || self.json
    }

    /// How a key is reported; JSON goes before quiet.
    pub fn report(&self) -> (r: Report)
        ensures
            r == if self.json {
                Report::Json
            } else if self.quiet {
                Report::Quiet
            } else {
                Report::Verbose
            },
            (r is Verbose) == !(self.quiet || self.json),
    {
        if self.json {
            Report::Json
        } else if self.quiet {
            Report::Quiet
        } else {
            Report::Verbose
        }
    }

    /// Distinguished point bits for a search on the CPU.
    pub fn dp_bits_on_cpu(&self) -> (r: u32)
        ensures
            r == match self.dp_bits {
                Some(bits) => bits as int,
                None => clamped(self.range / 2 - 2, 8, 20),
            },
    {
        match self.dp_bits {
            Some(bits) => bits,
            None => cpu_dp_bits(self.range),
        }
    }

    /// Number of kangaroos, `optimal` of them if not set.
    pub fn num_kangaroos(&self, optimal: u32) -> (r: u32)
        ensures
            r == match self.kangaroos {
                Some(n) => n,
                None => optimal,
            },
    {
        match self.kangaroos {
            Some(n) => n,
            None => optimal,
        }
    }

    /// Distinguished point bits for a search on a device.
    pub fn dp_bits_on_gpu(&self, num_kangaroos: u32) -> (r: u32)
        ensures
            r == match self.dp_bits {
                Some(bits) => bits as int,
                None => clamped(self.range / 2 - log(2, num_kangaroos as int) / 2, 8, 40),
            },
    {
        match self.dp_bits {
            Some(bits) => bits,
            None => gpu_dp_bits(self.range, num_kangaroos),
        }
    }

    /// What follows a step. `verified` tells whether a key that the step found
    /// is the right one; a wrong one is passed over, as if none had been found.
    pub fn verdict(&self, verified: Option<bool>, total_ops: u64) -> (r: Verdict)
        ensures
            r == match verified {
                Some(true) => Verdict::Found,
                _ => if self.max_ops != 0 && total_ops >= self.max_ops {
                    Verdict::LimitReached
                } else {
                    Verdict::Continue
                },
            },
    {
        match verified {
            Some(true) => Verdict::Found,
            _ => if self.max_ops != 0 && total_ops >= self.max_ops {
                Verdict::LimitReached
            } else {
                Verdict::Continue
            },
        }
    }
}

} // verus!
