//! Bit lengths and executable powers of two.

use vstd::prelude::*;

verus! {

use vstd::arithmetic::power2::{
    pow2, lemma_pow2_adds, lemma_pow2_pos, lemma_pow2_strictly_increases, lemma_pow2_unfold,
    lemma2_to64, lemma2_to64_rest,
};

/// Number of binary digits of `n`: the least `k` with `n < 2^k`.
pub open spec fn bitlen(n: nat) -> nat
    decreases n,
{
    if n == 0 {
        0
    } else {
        1 + bitlen(n / 2)
    }
}

/// Powers of two are monotone in the exponent.
pub proof fn lemma_pow2_le(e1: nat, e2: nat)
    requires
        e1 <= e2,
    ensures
        pow2(e1) <= pow2(e2),
{
    if e1 < e2 {
        lemma_pow2_strictly_increases(e1, e2);
    }
}

/// A positive `n` lies between the two powers of two that its bit length names.
pub proof fn lemma_bitlen_bounds(n: nat)
    requires
        n > 0,
    ensures
        bitlen(n) >= 1,
        pow2((bitlen(n) - 1) as nat) <= n < pow2(bitlen(n)),
    decreases n,
{
    lemma2_to64();
    if n / 2 == 0 {
        assert(n == 1);
        assert(bitlen(0nat) == 0);
        assert(bitlen(1nat) == 1);
    } else {
        lemma_bitlen_bounds(n / 2);
        let b = bitlen(n / 2);
        assert(bitlen(n) == b + 1);
        lemma_pow2_unfold((b + 1) as nat);
        lemma_pow2_unfold(b);
        assert(n < 2 * (n / 2) + 2);
        assert(2 * (n / 2) <= n);
    }
}

/// `n < 2^k` pins the bit length of `n` to at most `k`.
pub proof fn lemma_bitlen_upper(n: nat, k: nat)
    requires
        n < pow2(k),
    ensures
        bitlen(n) <= k,
{
    if n > 0 {
        lemma_bitlen_bounds(n);
        if bitlen(n) > k {
            lemma_pow2_le(k, (bitlen(n) - 1) as nat);
        }
    }
}

/// Multiplying by a power of two adds that exponent to the bit length.
pub proof fn lemma_bitlen_mul_pow2(m: nat, k: nat)
    requires
        m > 0,
    ensures
        bitlen(m * pow2(k)) == bitlen(m) + k,
    decreases k,
{
    lemma_pow2_pos(k);
    if k == 0 {
        lemma2_to64();
        assert(m * pow2(0) == m);
    } else {
        lemma_bitlen_mul_pow2(m, (k - 1) as nat);
        lemma_pow2_unfold(k);
        lemma_pow2_pos((k - 1) as nat);
        assert(m * pow2(k) == 2 * (m * pow2((k - 1) as nat))) by (nonlinear_arith)
            requires
                pow2(k) == 2 * pow2((k - 1) as nat),
        ;
        let h = m * pow2((k - 1) as nat);
        assert(h > 0) by (nonlinear_arith)
            requires
                m > 0,
                pow2((k - 1) as nat) > 0,
                h == m * pow2((k - 1) as nat),
        ;
        assert((2 * h) / 2 == h);
        assert(bitlen(2 * h) == 1 + bitlen(h));
    }
}

/// Every `u128` has a bit length of at most 128.
pub proof fn lemma_bitlen_u128(p: u128)
    ensures
        bitlen(p as nat) <= 128,
{
    lemma2_to64();
    lemma_pow2_adds(64, 64);
    assert(pow2(128) > u128::MAX) by (nonlinear_arith)
        requires
            pow2(128) == pow2(64) * pow2(64),
            pow2(64) == 0x10000000000000000,
    ;
    lemma_bitlen_upper(p as nat, 128);
}

/// `2^k` as a machine integer, for exponents that fit in a `u64`.
pub fn pow2_u64(k: u64) -> (r: u64)
    requires
        k <= 63,
    ensures
        r as nat == pow2(k as nat),
{
    proof {
        lemma2_to64();
    }
    let mut i: u64 = 0;
    let mut r: u64 = 1;
    while i < k
        invariant
            i <= k <= 63,
            r as nat == pow2(i as nat),
        decreases k - i,
    {
        proof {
            lemma2_to64_rest();
            lemma_pow2_unfold((i + 1) as nat);
            lemma_pow2_le((i + 1) as nat, 63);
        }
        r = r * 2;
        i = i + 1;
    }
    r
}

/// The bit length of a `u128`, computed by repeated halving.
pub fn bit_length_u128(p: u128) -> (l: u64)
    ensures
        l as nat == bitlen(p as nat),
        l <= 128,
{
    proof {
        lemma_bitlen_u128(p);
    }
    let mut t: u128 = p;
    let mut l: u64 = 0;
    while t > 0
        invariant
            l as nat + bitlen(t as nat) == bitlen(p as nat),
            bitlen(p as nat) <= 128,
        decreases t,
    {
        t = t / 2;
        l = l + 1;
    }
    l
}

} // verus!
