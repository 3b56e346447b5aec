//! Small integer functions.

use vstd::arithmetic::logarithm::*;
use vstd::arithmetic::power2::*;
use vstd::prelude::*;

verus! {

/// `2^e`.
pub fn power_of_two(e: u32) -> (r: u128)
    requires
        e < 128,
    ensures
        r == pow2(e as nat),
{
    let mut r: u128 = 1;
    assert(pow2(0) == 1) by {
        lemma2_to64();
    }
    for i in 0..e
        invariant
            e < 128,
            r == pow2(i as nat),
    {
        proof {
            lemma_pow2_unfold((i + 1) as nat);
            lemma_pow2_strictly_increases(i as nat, 127);
            lemma2_to64();
            lemma2_to64_rest();
            lemma_pow2_adds(64, 63);
        }
        r = r * 2;
    }
    r
}

/// The logarithm of `n` to base two, rounded down; zero for zero.
pub fn floor_log2(n: u32) -> (r: u32)
    ensures
        r == log(2, n as int),
        n > 0 ==> pow2(r as nat) <= n < pow2((r + 1) as nat),
        r < 32,
{
    let mut m: u32 = n;
    let mut r: u32 = 0;
    proof {
        lemma2_to64();
    }
    while m >= 2
        invariant
            log(2, n as int) == r + log(2, m as int),
            n > 0 ==> m > 0 && m * pow2(r as nat) <= n < (m + 1) * pow2(r as nat),
            n == 0 ==> m == 0 && r == 0,
            r < 32,
        decreases m,
    {
        proof {
            lemma_log_s(2, m as int);
            lemma_pow2_unfold((r + 1) as nat);
            let p = pow2(r as nat);
            let h = m / 2;
            assert(h * (2 * p) <= m * p && (m + 1) * p <= (h + 1) * (2 * p)) by (nonlinear_arith)
                requires
                    2 * h <= m <= 2 * h + 1,
            ;
            assert(2 * p <= m * p) by (nonlinear_arith)
                requires
                    m >= 2,
            ;
            lemma2_to64();
            if r == 31 {
                assert(false);
            }
        }
        m = m / 2;
        r = r + 1;
    }
    proof {
        lemma_log0(2, m as int);
        lemma_pow2_unfold((r + 1) as nat);
        if n > 0 {
            let p = pow2(r as nat);
            assert(m * p == p && (m + 1) * p == 2 * p) by (nonlinear_arith)
                requires
                    m == 1,
            ;
        }
    }
    r
}

} // verus!
