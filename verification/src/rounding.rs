//! Round-to-nearest division by a power of two, ties to even.

use vstd::prelude::*;

verus! {

use vstd::arithmetic::div_mod::{
    lemma_fundamental_div_mod, lemma_mod_division_less_than_divisor, lemma_multiply_divide_lt,
};
use vstd::arithmetic::power2::{pow2, lemma_pow2_pos};

/// `p / 2^s`, rounded to the nearest integer, with a tie going to the even
/// neighbour. This is how IEEE 754 binary arithmetic rounds a product whose
/// low `s` bits do not fit in the significand.
pub open spec fn rne(p: nat, s: nat) -> nat {
    let q0 = p / pow2(s);
    let r = p % pow2(s);
    if 2 * r > pow2(s) || (2 * r == pow2(s) && q0 % 2 == 1) {
        q0 + 1
    } else {
        q0
    }
}

/// When the dropped bits are zero the rounded quotient is exact.
pub proof fn lemma_rne_exact(p: nat, s: nat)
    requires
        p % pow2(s) == 0,
    ensures
        rne(p, s) == p / pow2(s),
        rne(p, s) * pow2(s) == p,
{
    lemma_pow2_pos(s);
    lemma_fundamental_div_mod(p as int, pow2(s) as int);
    assert(rne(p, s) * pow2(s) == (p / pow2(s)) * pow2(s));
    assert((p / pow2(s)) * pow2(s) == pow2(s) * (p / pow2(s))) by (nonlinear_arith);
}

/// Rounding moves the value up by at most half of the divisor:
/// `rne(p, s) * 2^s <= p + 2^s / 2`, stated doubled to stay in integers.
pub proof fn lemma_rne_mul_upper(p: nat, s: nat)
    ensures
        2 * (rne(p, s) * pow2(s)) <= 2 * p + pow2(s),
{
    lemma_pow2_pos(s);
    lemma_fundamental_div_mod(p as int, pow2(s) as int);
    lemma_mod_division_less_than_divisor(p as int, pow2(s) as int);
    let q0 = p / pow2(s);
    let r = p % pow2(s);
    assert(q0 * pow2(s) == pow2(s) * q0) by (nonlinear_arith);
    if 2 * r > pow2(s) || (2 * r == pow2(s) && q0 % 2 == 1) {
        assert((q0 + 1) * pow2(s) == q0 * pow2(s) + pow2(s)) by (nonlinear_arith);
        assert(2 * r >= pow2(s));
    }
}

/// The rounded quotient of `p < c * 2^s` is at most `c`.
pub proof fn lemma_rne_le(p: nat, s: nat, c: nat)
    requires
        p < c * pow2(s),
    ensures
        rne(p, s) <= c,
{
    lemma_pow2_pos(s);
    lemma_multiply_divide_lt(p as int, pow2(s) as int, c as int);
    assert(c * pow2(s) == pow2(s) * c) by (nonlinear_arith);
    assert(p / pow2(s) < c);
}

} // verus!
