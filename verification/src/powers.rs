//! Powers of two and exact base-2 logarithms.
use vstd::prelude::*;
use vstd::arithmetic::power2::{pow2, lemma_pow2_unfold, lemma_pow2_pos, lemma2_to64};

verus! {

/// `n` is one of 1, 2, 4, 8, ...
pub open spec fn is_power_of_two(n: nat) -> bool
    decreases n,
{
    n == 1 || (n >= 2 && n % 2 == 0 && is_power_of_two(n / 2))
}

/// The number of times `n` can be halved before it drops below 2.
pub open spec fn log2_floor(n: nat) -> nat
    decreases n,
{
    if n >= 2 {
        1 + log2_floor(n / 2)
    } else {
        0
    }
}

/// Two raised to `k` is a power of two whose logarithm is `k`.
pub proof fn lemma_pow2_is_power_of_two(k: nat)
    ensures
        is_power_of_two(pow2(k)),
        log2_floor(pow2(k)) == k,
    decreases k,
{
    if k == 0 {
        lemma2_to64();
    } else {
        lemma_pow2_unfold(k);
        lemma_pow2_pos((k - 1) as nat);
        lemma_pow2_is_power_of_two((k - 1) as nat);
        assert(pow2(k) / 2 == pow2((k - 1) as nat));
    }
}

/// Of two powers of two, the smaller is at most half the larger.
pub proof fn lemma_smaller_power_at_most_half(a: nat, b: nat)
    requires
        is_power_of_two(a),
        is_power_of_two(b),
        a < b,
    ensures
        a <= b / 2,
        b >= 2,
    decreases b,
{
    if a >= 2 {
        lemma_smaller_power_at_most_half(a / 2, b / 2);
    }
}

/// Tells whether `n` is a power of two.
pub fn is_power_of_two_usize(n: usize) -> (r: bool)
    ensures
        r == is_power_of_two(n as nat),
{
    let mut m: usize = n;
    while m >= 2 && m % 2 == 0
        invariant
            is_power_of_two(m as nat) == is_power_of_two(n as nat),
        decreases m,
    {
        m = m / 2;
    }
    m == 1
}

/// Calls `p3_util::log2_strict_usize`, which returns the exponent `r` with
/// `2^r == n` and panics unless `n` is a power of two.
#[verifier::external_body]
fn log2_strict_call(n: usize) -> (r: usize)
    requires
        is_power_of_two(n as nat),
    ensures
        pow2(r as nat) == n,
{
    p3_util::log2_strict_usize(n)
}

/// The exact base-2 logarithm of a power of two.
pub fn log2_strict(n: usize) -> (r: usize)
    requires
        is_power_of_two(n as nat),
    ensures
        r == log2_floor(n as nat),
        pow2(r as nat) == n,
{
    let r = log2_strict_call(n);
    proof {
        lemma_pow2_is_power_of_two(r as nat);
    }
    r
}

} // verus!
