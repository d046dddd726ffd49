//! Bit widths: how many bits a range of values needs.

use vstd::arithmetic::logarithm::{lemma_log0, lemma_log_s, log};
use vstd::arithmetic::power2::{lemma2_to64, lemma2_to64_rest, lemma_pow2_unfold, pow2};
use vstd::prelude::*;

verus! {

/// The number of bits needed to tell `n` values apart: the least `k` with
/// `n <= 2^k`. For `n >= 1` this is the base-two logarithm of `n`, rounded up.
pub open spec fn bit_width(n: nat) -> nat
    decreases n,
{
    if n <= 1 {
        0
    } else {
        1 + bit_width((n + 1) / 2)
    }
}

/// `bit_width(n)` bits are enough for `n` values.
pub proof fn lemma_bit_width_covers(n: nat)
    ensures
        n <= pow2(bit_width(n)),
    decreases n,
{
    if n <= 1 {
        lemma2_to64();
    } else {
        lemma_bit_width_covers((n + 1) / 2);
        lemma_pow2_unfold(bit_width(n));
    }
}

/// One bit fewer than `bit_width(n)` is not enough for `n` values.
pub proof fn lemma_bit_width_least(n: nat, k: nat)
    requires
        k < bit_width(n),
    ensures
        pow2(k) < n,
    decreases n,
{
    if n <= 1 {
    } else if k == 0 {
        lemma2_to64();
    } else {
        lemma_bit_width_least((n + 1) / 2, (k - 1) as nat);
        lemma_pow2_unfold(k);
    }
}

/// Any `k` with `n <= 2^k` is at least `bit_width(n)`.
pub proof fn lemma_bit_width_bound(n: nat, k: nat)
    requires
        n <= pow2(k),
    ensures
        bit_width(n) <= k,
{
    if k < bit_width(n) {
        lemma_bit_width_least(n, k);
    }
}

/// For two values or more, `bit_width(n)` is one more than the base-two
/// logarithm of `n - 1`, rounded down: the number of binary digits of
/// `n - 1`.
pub proof fn lemma_bit_width_is_log(n: nat)
    requires
        2 <= n,
    ensures
        bit_width(n) == 1 + log(2, n - 1),
    decreases n,
{
    if n == 2 {
        lemma_log0(2, 1);
        assert(bit_width(2) == 1 + bit_width(1));
    } else {
        lemma_log_s(2, n - 1);
        assert((n + 1) / 2 - 1 == (n - 1) / 2);
        lemma_bit_width_is_log((n + 1) / 2);
    }
}

/// Computes [`bit_width`]: the number of binary digits of `n - 1`.
pub fn bits_for(n: u64) -> (bits: u32)
    ensures
        bits == bit_width(n as nat),
        bits <= 64,
{
    if n == 0 {
        return 0;
    }
    let mut bits: u32 = 0;
    let mut rest: u64 = n - 1;
    proof {
        lemma2_to64_rest();
    }
    while rest > 0
        invariant
            bits + bit_width((rest + 1) as nat) == bit_width(n as nat),
            bits <= 64,
            rest > 0 ==> bits < 64,
            rest < pow2((64 - bits) as nat),
        decreases rest,
    {
        proof {
            lemma_pow2_unfold((64 - bits) as nat);
            assert((rest + 2) / 2 == rest / 2 + 1);
            if bits == 63 {
                lemma2_to64();
            }
        }
        rest = rest / 2;
        bits = bits + 1;
    }
    bits
}

} // verus!
