//! Binary-counter arithmetic used by the frontier: population counts and
//! powers of two.

use vstd::prelude::*;
use vstd::arithmetic::power2::pow2;
use vstd::arithmetic::power2::lemma_pow2_unfold;
use vstd::arithmetic::power2::lemma_pow2_strictly_increases;
use vstd::arithmetic::power2::lemma2_to64;
use vstd::arithmetic::power2::lemma2_to64_rest;

verus! {

/// Number of set bits in the binary representation of `n`.
pub open spec fn count_ones(n: nat) -> nat
    decreases n,
{
    if n == 0 { 0 } else { n % 2 + count_ones(n / 2) }
}

/// Every natural number below `pow2(d)` has at most `d` set bits, and exactly
/// `d` of them only for `pow2(d) - 1`, the all-ones pattern.
pub proof fn lemma_count_ones_bound(n: nat, d: nat)
    requires
        n < pow2(d),
    ensures
        count_ones(n) <= d,
        (count_ones(n) == d) <==> (n == pow2(d) - 1),
    decreases d,
{
    if d == 0 {
        assert(pow2(0) == 1) by { lemma2_to64(); }
    } else {
        lemma_pow2_unfold(d);
        lemma_count_ones_bound(n / 2, (d - 1) as nat);
    }
}

/// Computes `pow2(d)`, for exponents small enough that the result fits `u64`.
pub fn pow2_u64(d: u8) -> (r: u64)
    requires
        d <= 62,
    ensures
        r as nat == pow2(d as nat),
{
    let mut i: u8 = 0;
    let mut r: u64 = 1;
    proof {
        lemma2_to64();
    }
    while i < d
        invariant
            i <= d,
            d <= 62,
            r as nat == pow2(i as nat),
        decreases d - i,
    {
        proof {
            lemma_pow2_unfold((i + 1) as nat);
            lemma_pow2_strictly_increases((i + 1) as nat, 63);
            lemma2_to64_rest();
        }
        r = r * 2;
        i = i + 1;
    }
    r
}

} // verus!
