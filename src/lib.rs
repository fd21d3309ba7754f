//! Physical-memory and execution-context core of a small kernel: a buddy
//! frame allocator over disjoint regions, a size-classed heap built on it,
//! and a model of the register exchange performed by a task switch.

pub mod context;
pub mod data_structures;
pub mod frame_allocator;
pub mod memory;
pub mod process;
pub mod vm;

use vstd::prelude::*;

verus! {

/// `2^e`.
pub open spec fn exp2(e: nat) -> nat
    decreases e,
{
    if e == 0 {
        1
    } else {
        2 * exp2((e - 1) as nat)
    }
}

/// `n` is a power of two (one is `2^0`; zero is not a power of two).
pub open spec fn is_pow2(n: nat) -> bool
    decreases n,
{
    if n == 0 {
        false
    } else if n == 1 {
        true
    } else {
        n % 2 == 0 && is_pow2(n / 2)
    }
}

/// The floor of the base-two logarithm of `n` (zero for `n <= 1`).
pub open spec fn ilog2(n: nat) -> nat
    decreases n,
{
    if n <= 1 {
        0
    } else {
        1 + ilog2(n / 2)
    }
}

/// Powers of two are positive and grow with their exponent.
pub proof fn lemma_exp2_monotone(a: nat, b: nat)
    requires
        a <= b,
    ensures
        1 <= exp2(a) <= exp2(b),
    decreases b,
{
    if b > 0 {
        if b > a {
            lemma_exp2_monotone(a, (b - 1) as nat);
        } else {
            lemma_exp2_monotone((a - 1) as nat, (b - 1) as nat);
        }
    }
}

/// `2^(a + b) == 2^a * 2^b`.
pub proof fn lemma_exp2_adds(a: nat, b: nat)
    ensures
        exp2(a + b) == exp2(a) * exp2(b),
    decreases b,
{
    if b > 0 {
        lemma_exp2_adds(a, (b - 1) as nat);
        assert(exp2(a + b) == 2 * exp2((a + b - 1) as nat));
        assert((a + b - 1) as nat == a + (b - 1) as nat);
        assert(exp2(a) * exp2(b) == 2 * (exp2(a) * exp2((b - 1) as nat))) by (nonlinear_arith)
            requires
                exp2(b) == 2 * exp2((b - 1) as nat),
        ;
    } else {
        assert(a + b == a);
        assert(exp2(a) * 1 == exp2(a));
    }
}

/// A power of two is `2` raised to its logarithm.
pub proof fn lemma_exp2_of_log(n: nat)
    requires
        is_pow2(n),
    ensures
        exp2(ilog2(n)) == n,
    decreases n,
{
    if n > 1 {
        lemma_exp2_of_log(n / 2);
    }
}

/// `2^k` is a power of two, and its logarithm is `k`.
pub proof fn lemma_log_of_exp2(k: nat)
    ensures
        is_pow2(exp2(k)),
        ilog2(exp2(k)) == k,
    decreases k,
{
    if k > 0 {
        lemma_log_of_exp2((k - 1) as nat);
        lemma_exp2_monotone(0, (k - 1) as nat);
        assert(exp2(k) / 2 == exp2((k - 1) as nat));
    }
}

/// The logarithm of a positive `n` is the largest `k` with `2^k <= n`.
pub proof fn lemma_ilog2_bounds(n: nat)
    requires
        n >= 1,
    ensures
        exp2(ilog2(n)) <= n < exp2(ilog2(n) + 1),
    decreases n,
{
    if n > 1 {
        lemma_ilog2_bounds(n / 2);
    }
}

/// Whether `n` is a power of two; zero is not.
pub fn is_power2(n: usize) -> (r: bool)
    ensures
        r == is_pow2(n as nat),
{
    if n == 0 {
        return false;
    }
    let mut m: usize = n;
    while m % 2 == 0
        invariant
            m >= 1,
            is_pow2(m as nat) == is_pow2(n as nat),
        decreases m,
    {
        m = m / 2;
    }
    m == 1
}

/// The floor of the base-two logarithm of a positive `n`.
pub fn floor_log2(n: usize) -> (r: usize)
    requires
        n >= 1,
    ensures
        r == ilog2(n as nat),
{
    let mut m: usize = n;
    let mut k: usize = 0;
    while m > 1
        invariant
            m >= 1,
            k + ilog2(m as nat) == ilog2(n as nat),
            k + m <= n,
        decreases m,
    {
        m = m / 2;
        k = k + 1;
    }
    k
}

} // verus!
