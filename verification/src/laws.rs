//! Properties of the digit expansion, proved once and for all.

use vstd::prelude::*;

verus! {

use vstd::arithmetic::div_mod::{
    lemma_breakdown, lemma_div_by_multiple, lemma_mod_multiples_basic, lemma_mod_multiples_vanish,
    lemma_small_mod,
};
use vstd::arithmetic::power::{pow, lemma_pow1};
use vstd::arithmetic::power2::{
    pow2, lemma_pow2_adds, lemma_pow2_pos, lemma_pow2_strictly_increases, lemma2_to64,
};
use crate::bits::{bitlen, lemma_bitlen_mul_pow2, lemma_bitlen_upper, lemma_pow2_le};
use crate::convert::{
    run, spec_digits, spec_step, step_shift, steps_exact, lemma_step_exact, lemma_step_sound,
    MAX_DIGITS,
};
use crate::frac::frac_wf;

/// Everything the extraction trajectory guarantees on any well-formed
/// input: at most `fuel` digits, at least one when `fuel` allows any, a
/// well-formed final remainder that only grew in exponent, a final
/// remainder of exactly zero whenever the expansion stopped short, and
/// every digit below the base.
pub proof fn lemma_run_props(m: nat, e: int, b: nat, fuel: nat)
    requires
        frac_wf(m, e),
        2 <= b < pow2(32),
    ensures
        ({
            let (ds, mf, ef) = run(m, e, b, fuel);
            &&& ds.len() <= fuel
            &&& (fuel >= 1 ==> ds.len() >= 1)
            &&& frac_wf(mf, ef)
            &&& ef >= e
            &&& (ds.len() < fuel ==> mf == 0)
            &&& (forall|i: int| 0 <= i < ds.len() ==> ds[i] < b)
        }),
    decreases fuel,
{
    if fuel > 0 {
        lemma_step_sound(m, e, b);
        let (d, m2, e2) = spec_step(m, e, b);
        if m2 != 0 {
            lemma_run_props(m2, e2, b, (fuel - 1) as nat);
            let rest = run(m2, e2, b, (fuel - 1) as nat);
            let ds = seq![d] + rest.0;
            assert(forall|i: int| 1 <= i < ds.len() ==> ds[i] == rest.0[i - 1]);
        }
    }
}

/// Every digit value in the expansion lies in `[0, base)`.
pub proof fn lemma_digits_in_range(m: nat, e: int, b: nat)
    requires
        frac_wf(m, e),
        2 <= b < pow2(32),
    ensures
        forall|i: int|
            0 <= i < spec_digits(m, e, b, MAX_DIGITS as nat).len() ==> spec_digits(
                m,
                e,
                b,
                MAX_DIGITS as nat,
            )[i] < b,
{
    lemma_run_props(m, e, b, MAX_DIGITS as nat);
}

/// The expansion holds between one and [`MAX_DIGITS`] digits, and it is
/// shorter than [`MAX_DIGITS`] only when the remainder reached exactly
/// zero — so any input whose remainder never vanishes yields exactly
/// [`MAX_DIGITS`] digits.
pub proof fn lemma_digit_count(m: nat, e: int, b: nat)
    requires
        frac_wf(m, e),
        2 <= b < pow2(32),
    ensures
        1 <= spec_digits(m, e, b, MAX_DIGITS as nat).len() <= MAX_DIGITS,
        spec_digits(m, e, b, MAX_DIGITS as nat).len() < MAX_DIGITS ==> run(
            m,
            e,
            b,
            MAX_DIGITS as nat,
        ).1 == 0,
{
    lemma_run_props(m, e, b, MAX_DIGITS as nat);
}

/// The value that a digit sequence stands for, scaled to an integer:
/// `recon(ds, b)` is `sum ds[i] * b^(len - 1 - i)`, so the digits denote
/// the fraction `recon(ds, b) / b^len`.
pub open spec fn recon(ds: Seq<nat>, b: nat) -> int
    decreases ds.len(),
{
    if ds.len() == 0 {
        0
    } else {
        (ds[0] as int) * pow(b as int, (ds.len() - 1) as nat) + recon(ds.drop_first(), b)
    }
}

/// Holds when `m * 2^e` has an exact base-`b` expansion of at most `k`
/// digits, that is, when `(m * 2^e) * b^k` is an integer.
pub open spec fn has_exact_expansion(m: nat, e: int, b: nat, k: nat) -> bool {
    ((m as int) * pow(b as int, k)) % (pow2((-e) as nat) as int) == 0
}

/// If `x * s` is divisible by `t * s`, then `x` is divisible by `t`.
proof fn lemma_factor_mod_zero(x: int, s: int, t: int)
    requires
        x >= 0,
        s > 0,
        t > 0,
        (x * s) % (t * s) == 0,
    ensures
        x % t == 0,
{
    lemma_breakdown(x * s, s, t);
    assert(t * s == s * t) by (nonlinear_arith);
    lemma_div_by_multiple(x, s);
    lemma_mod_multiples_basic(x, s);
    assert((x * s) % (s * t) == s * (((x * s) / s) % t) + (x * s) % s);
    assert(s * (x % t) == 0);
    assert(x % t == 0) by (nonlinear_arith)
        requires
            s > 0,
            x % t >= 0,
            s * (x % t) == 0,
    ;
}

/// When no step rounds, the digits and the final remainder reconstruct
/// the input exactly: `m * b^len == recon * 2^(-e) + mf * 2^(ef - e)`,
/// that is, `(m * 2^e) * b^len == recon + (mf * 2^ef) * b^... ` in
/// fraction form — exact rational arithmetic all the way down.
pub proof fn lemma_run_exact(m: nat, e: int, b: nat, fuel: nat)
    requires
        frac_wf(m, e),
        2 <= b < pow2(32),
        steps_exact(m, e, b, fuel),
    ensures
        ({
            let (ds, mf, ef) = run(m, e, b, fuel);
            (m as int) * pow(b as int, ds.len()) == recon(ds, b) * (pow2((-e) as nat) as int) + (
            mf as int) * (pow2((ef - e) as nat) as int)
        }),
    decreases fuel,
{
    lemma2_to64();
    lemma_run_props(m, e, b, fuel);
    reveal(pow);
    let bi = b as int;
    if fuel == 0 {
        assert(pow(bi, 0) == 1);
        assert(recon(Seq::<nat>::empty(), b) == 0);
    } else {
        lemma_step_sound(m, e, b);
        lemma_step_exact(m, e, b);
        let (d, m2, e2) = spec_step(m, e, b);
        let pe = pow2((-e) as nat) as int;
        let s = pow2((e2 - e) as nat) as int;
        if m2 == 0 {
            let ds = seq![d];
            assert(run(m, e, b, fuel).0 == ds);
            assert(ds.drop_first() =~= Seq::<nat>::empty());
            lemma_pow1(bi);
            assert(pow(bi, 0) == 1);
            assert(recon(Seq::<nat>::empty(), b) == 0);
            assert(ds[0] == d);
            assert(recon(ds, b) == (d as int) * pow(bi, 0));
            assert((d as int) * pow(bi, 0) == d) by (nonlinear_arith)
                requires
                    pow(bi, 0) == 1,
            ;
            assert((m as int) * bi == (d as int) * pe + (m2 as int) * s);
        } else {
            lemma_run_exact(m2, e2, b, (fuel - 1) as nat);
            lemma_run_props(m2, e2, b, (fuel - 1) as nat);
            let rest = run(m2, e2, b, (fuel - 1) as nat);
            let mf = rest.1;
            let ef = rest.2;
            let ds = seq![d] + rest.0;
            let n2 = rest.0.len();
            assert(ds.len() == n2 + 1);
            assert(ds[0] == d);
            assert(ds.drop_first() =~= rest.0);
            assert(recon(ds, b) == (d as int) * pow(bi, n2) + recon(rest.0, b));
            let pe2 = pow2((-e2) as nat) as int;
            let pfe2 = pow2((ef - e2) as nat) as int;
            let pfe = pow2((ef - e) as nat) as int;
            lemma_pow2_adds((-e2) as nat, (e2 - e) as nat);
            lemma_pow2_adds((ef - e2) as nat, (e2 - e) as nat);
            assert(pow(bi, (n2 + 1) as nat) == bi * pow(bi, n2));
            let pw = pow(bi, n2);
            let rc = recon(rest.0, b);
            assert((m as int) * (bi * pw) == ((d as int) * pe + (m2 as int) * s) * pw)
                by (nonlinear_arith)
                requires
                    (m as int) * bi == (d as int) * pe + (m2 as int) * s,
            ;
            assert(((d as int) * pe + (m2 as int) * s) * pw == ((d as int) * pw) * pe + ((
            m2 as int) * pw) * s) by (nonlinear_arith);
            assert(((m2 as int) * pw) * s == (rc * pe2 + (mf as int) * pfe2) * s)
                by (nonlinear_arith)
                requires
                    (m2 as int) * pw == rc * pe2 + (mf as int) * pfe2,
            ;
            assert((rc * pe2 + (mf as int) * pfe2) * s == rc * (pe2 * s) + (mf as int) * (pfe2
                * s)) by (nonlinear_arith);
            assert((m as int) * pow(bi, (n2 + 1) as nat) == ((d as int) * pw + rc) * pe + (
            mf as int) * pfe) by (nonlinear_arith)
                requires
                    (m as int) * pow(bi, (n2 + 1) as nat) == ((d as int) * pw) * pe + rc * (pe2
                        * s) + (mf as int) * (pfe2 * s),
                    pe2 * s == pe,
                    pfe2 * s == pfe,
            ;
        }
    }
}

/// When no step rounds and the input has an exact expansion of at most
/// `k <= fuel` digits, the extraction stops with a zero remainder within
/// `k` digits.
pub proof fn lemma_run_stops(m: nat, e: int, b: nat, fuel: nat, k: nat)
    requires
        frac_wf(m, e),
        2 <= b < pow2(32),
        steps_exact(m, e, b, fuel),
        1 <= k <= fuel,
        has_exact_expansion(m, e, b, k),
    ensures
        run(m, e, b, fuel).0.len() <= k,
        run(m, e, b, fuel).1 == 0,
    decreases k,
{
    reveal(pow);
    lemma_step_sound(m, e, b);
    lemma_step_exact(m, e, b);
    let (d, m2, e2) = spec_step(m, e, b);
    if m2 != 0 {
        let bi = b as int;
        let pe = pow2((-e) as nat) as int;
        let pe2 = pow2((-e2) as nat) as int;
        let s = pow2((e2 - e) as nat) as int;
        lemma_pow2_adds((-e2) as nat, (e2 - e) as nat);
        lemma_pow2_pos((-e) as nat);
        lemma_pow2_pos((-e2) as nat);
        lemma_pow2_pos((e2 - e) as nat);
        let x = (m2 as int) * pow(bi, (k - 1) as nat);
        assert(pow(bi, k) == bi * pow(bi, (k - 1) as nat));
        assert((m as int) * pow(bi, k) == ((d as int) * pow(bi, (k - 1) as nat)) * pe + x * s)
            by (nonlinear_arith)
            requires
                (m as int) * bi == (d as int) * pe + (m2 as int) * s,
                pow(bi, k) == bi * pow(bi, (k - 1) as nat),
                x == (m2 as int) * pow(bi, (k - 1) as nat),
        ;
        lemma_mod_multiples_vanish((d as int) * pow(bi, (k - 1) as nat), x * s, pe);
        assert(pe * ((d as int) * pow(bi, (k - 1) as nat)) == ((d as int) * pow(
            bi,
            (k - 1) as nat,
        )) * pe) by (nonlinear_arith);
        assert((x * s) % pe == 0);
        vstd::arithmetic::power::lemma_pow_positive(bi, (k - 1) as nat);
        assert(x >= 0) by (nonlinear_arith)
            requires
                m2 as int >= 0,
                pow(bi, (k - 1) as nat) > 0,
                x == (m2 as int) * pow(bi, (k - 1) as nat),
        ;
        lemma_factor_mod_zero(x, s, pe2);
        if k == 1 {
            assert(pow(bi, 0) == 1);
            assert(x == m2) by (nonlinear_arith)
                requires
                    x == (m2 as int) * pow(bi, (k - 1) as nat),
                    k == 1,
                    pow(bi, (k - 1) as nat) == 1,
            ;
            lemma_small_mod(m2, pow2((-e2) as nat));
            assert(false);
        } else {
            lemma_run_stops(m2, e2, b, (fuel - 1) as nat, (k - 1) as nat);
        }
    }
}

/// In a power-of-two base no step ever rounds bits away: the product of a
/// 53-bit significand and `2^j` keeps its significand, so the whole
/// extraction is exact arithmetic for bases 2, 4, 8, 16 and so on.
pub proof fn lemma_power_of_two_base_is_exact(m: nat, e: int, j: nat, fuel: nat)
    requires
        frac_wf(m, e),
        1 <= j <= 31,
    ensures
        steps_exact(m, e, pow2(j), fuel),
    decreases fuel,
{
    lemma2_to64();
    let b = pow2(j);
    lemma_pow2_le(1, j);
    lemma_pow2_strictly_increases(j, 32);
    if fuel > 0 {
        lemma_step_sound(m, e, b);
        let p = m * b;
        let s = step_shift(m, b);
        if m == 0 {
            assert(p == 0) by (nonlinear_arith)
                requires
                    p == m * b,
                    m == 0,
            ;
            assert(bitlen(0nat) == 0);
            assert(p % pow2(0) == 0);
        } else if s == 0 {
            assert(p % pow2(0) == 0);
        } else {
            lemma_bitlen_mul_pow2(m, j);
            lemma_bitlen_upper(m, 53);
            assert(s <= j);
            lemma_pow2_adds((j - s) as nat, s);
            lemma_pow2_pos(s);
            assert(p == (m * pow2((j - s) as nat)) * pow2(s)) by (nonlinear_arith)
                requires
                    p == m * pow2(j),
                    pow2(j) == pow2((j - s) as nat) * pow2(s),
            ;
            lemma_mod_multiples_basic((m * pow2((j - s) as nat)) as int, pow2(s) as int);
        }
        let (d, m2, e2) = spec_step(m, e, b);
        if m2 != 0 {
            lemma_power_of_two_base_is_exact(m2, e2, j, (fuel - 1) as nat);
        }
    }
}

/// Inputs with an exact short expansion come back exactly: when no step
/// rounds bits away and `m * 2^e` has an exact base-`b` expansion of at
/// most `k < MAX_DIGITS` digits, the conversion stops before
/// [`MAX_DIGITS`] digits and the digits reconstruct the input value:
/// `m * 2^e == recon(ds, b) / b^len`.
pub proof fn lemma_exact_expansion_reconstructs(m: nat, e: int, b: nat, k: nat)
    requires
        frac_wf(m, e),
        2 <= b < pow2(32),
        steps_exact(m, e, b, MAX_DIGITS as nat),
        1 <= k < MAX_DIGITS,
        has_exact_expansion(m, e, b, k),
    ensures
        ({
            let ds = spec_digits(m, e, b, MAX_DIGITS as nat);
            &&& ds.len() <= k < MAX_DIGITS
            &&& (m as int) * pow(b as int, ds.len()) == recon(ds, b) * (pow2((-e) as nat) as int)
        }),
{
    lemma_run_stops(m, e, b, MAX_DIGITS as nat, k);
    lemma_run_exact(m, e, b, MAX_DIGITS as nat);
}

/// Inputs with no exact short expansion run the full length: when no step
/// rounds bits away and `m * 2^e` has no exact base-`b` expansion of
/// fewer than [`MAX_DIGITS`] digits, the conversion produces exactly
/// [`MAX_DIGITS`] digits.
pub proof fn lemma_no_short_expansion_full_length(m: nat, e: int, b: nat)
    requires
        frac_wf(m, e),
        2 <= b < pow2(32),
        steps_exact(m, e, b, MAX_DIGITS as nat),
        forall|k: nat| 1 <= k < MAX_DIGITS ==> !has_exact_expansion(m, e, b, k),
    ensures
        spec_digits(m, e, b, MAX_DIGITS as nat).len() == MAX_DIGITS,
{
    lemma_run_props(m, e, b, MAX_DIGITS as nat);
    let (ds, mf, ef) = run(m, e, b, MAX_DIGITS as nat);
    if ds.len() < MAX_DIGITS {
        lemma_run_exact(m, e, b, MAX_DIGITS as nat);
        lemma_pow2_pos((-e) as nat);
        lemma_mod_multiples_basic(recon(ds, b), pow2((-e) as nat) as int);
        assert(has_exact_expansion(m, e, b, ds.len()));
        assert(!has_exact_expansion(m, e, b, ds.len()));
    }
}

} // verus!
