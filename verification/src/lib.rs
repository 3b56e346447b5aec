//! Pollard's kangaroo search for discrete logarithms on secp256k1.
//!
//! A private key `k` with `P = k * G` is known to lie in a range. Tame kangaroos
//! start at known multiples of `G` in that range, wild ones at known distances
//! from `P`, and all jump on by the same rule. Where a tame and a wild one come
//! to one point, their distances give `k` away.

pub mod bytes;
pub mod cpu;
pub mod curve;
pub mod gpu;
pub mod key_hex;
pub mod laws;
pub mod math;
mod parallel;
pub mod run;
pub mod solver;

pub use cpu::dp_table::DPTable;
pub use curve::Point;
pub use run::Args;
pub use solver::KangarooSolver;
