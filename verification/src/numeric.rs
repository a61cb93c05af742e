//! Powers of two and binary logarithms of lengths.
use vstd::arithmetic::power2::{lemma2_to64, lemma_pow2_unfold, pow2};
use vstd::prelude::*;

verus! {

/// Whether `n` is a power of two.
pub open spec fn is_pow2(n: nat) -> bool
    decreases n,
{
    n == 1 || (n >= 2 && n % 2 == 0 && is_pow2(n / 2))
}

/// The binary logarithm of `n`, rounded down; zero for zero.
pub open spec fn log2(n: nat) -> nat
    decreases n,
{
    if n <= 1 {
        0
    } else {
        1 + log2(n / 2)
    }
}

/// A power of two is two to its logarithm.
pub proof fn lemma_pow2_log2(n: nat)
    requires
        is_pow2(n),
    ensures
        n == pow2(log2(n)),
    decreases n,
{
    if n == 1 {
        lemma2_to64();
    } else {
        lemma_pow2_log2(n / 2);
        lemma_pow2_unfold(log2(n));
    }
}

/// Two to any exponent is a power of two, and the exponent is its logarithm.
pub proof fn lemma_is_pow2_pow2(k: nat)
    ensures
        is_pow2(pow2(k)),
        log2(pow2(k)) == k,
    decreases k,
{
    if k == 0 {
        lemma2_to64();
    } else {
        lemma_is_pow2_pow2((k - 1) as nat);
        lemma_pow2_unfold(k);
    }
}

/// The logarithm of a number that fits in 64 bits is below 64.
pub proof fn lemma_log2_bound(n: nat, bits: nat)
    requires
        n < pow2(bits),
    ensures
        log2(n) < bits || (bits == 0 && log2(n) == 0),
    decreases n,
{
    if n <= 1 {
        if bits == 0 {
            lemma2_to64();
        }
    } else {
        if bits == 0 {
            lemma2_to64();
        } else {
            lemma_pow2_unfold(bits);
            lemma_log2_bound(n / 2, (bits - 1) as nat);
            if bits == 1 {
                lemma2_to64();
            }
        }
    }
}

/// Whether `n` is a power of two.
pub fn is_power_of_two(n: usize) -> (r: bool)
    ensures
        r == is_pow2(n as nat),
{
    let mut m = n;
    while m > 1 && m % 2 == 0
        invariant
            is_pow2(m as nat) == is_pow2(n as nat),
        decreases m,
    {
        m = m / 2;
    }
    m == 1
}

/// The binary logarithm of `n`, rounded down.
pub fn log2_floor(n: usize) -> (r: u32)
    ensures
        r == log2(n as nat),
        r < 64,
{
    let mut m = n;
    let mut r: u32 = 0;
    proof {
        vstd::arithmetic::power2::lemma2_to64_rest();
        lemma_log2_bound(n as nat, 64);
    }
    while m > 1
        invariant
            r + log2(m as nat) == log2(n as nat),
            log2(n as nat) < 64,
        decreases m,
    {
        m = m / 2;
        r = r + 1;
    }
    r
}

} // verus!
