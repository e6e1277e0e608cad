//! The repeated-multiplication digit extraction, one step at a time.
//!
//! A step multiplies the remainder `sig * 2^exp` by the base, rounds the
//! product to 53 significant bits (round to nearest, ties to even) exactly
//! as binary64 multiplication does, takes the integer part as the next
//! digit, and keeps the fractional part as the new remainder.

use vstd::prelude::*;

verus! {

use vstd::arithmetic::div_mod::{
    lemma_basic_div, lemma_fundamental_div_mod, lemma_mod_division_less_than_divisor,
    lemma_multiply_divide_lt, lemma_small_mod,
};
use vstd::arithmetic::power2::{
    pow2, lemma_pow2_adds, lemma_pow2_pos, lemma_pow2_strictly_increases, lemma_pow2_unfold,
    lemma2_to64, lemma2_to64_rest,
};
use crate::bits::{
    bitlen, bit_length_u128, lemma_bitlen_bounds, lemma_bitlen_mul_pow2, lemma_bitlen_upper,
    lemma_pow2_le, pow2_u64,
};
use vstd::string::StringExecFns;
use crate::dec::{dec_rep, push_dec};
use crate::frac::{frac_wf, Frac};
use crate::rounding::{rne, lemma_rne_exact, lemma_rne_le, lemma_rne_mul_upper};

/// How many low bits of the product `sig * base` fall below the 53-bit
/// significand and must be rounded away.
pub open spec fn step_shift(m: nat, b: nat) -> nat {
    if bitlen(m * b) > 53 {
        (bitlen(m * b) - 53) as nat
    } else {
        0
    }
}

/// One multiply-and-extract step on the remainder `m * 2^e`: returns the
/// digit, the new significand and the new exponent. The product is rounded
/// to 53 significant bits, ties to even, with a significand that carried
/// over to `2^53` renormalised.
pub open spec fn spec_step(m: nat, e: int, b: nat) -> (nat, nat, int) {
    let p = m * b;
    let s = step_shift(m, b);
    let q1 = rne(p, s);
    let q = if q1 == pow2(53) {
        pow2(52)
    } else {
        q1
    };
    let e2 = if q1 == pow2(53) {
        e + s + 1
    } else {
        e + s
    };
    if e2 >= 0 {
        (q * pow2(e2 as nat), 0nat, e2)
    } else {
        (q / pow2((-e2) as nat), q % pow2((-e2) as nat), e2)
    }
}

/// A step on a well-formed remainder below one yields a digit below the
/// base and a well-formed remainder below one again.
pub proof fn lemma_step_sound(m: nat, e: int, b: nat)
    requires
        frac_wf(m, e),
        2 <= b < pow2(32),
    ensures
        ({
            let p = m * b;
            let s = step_shift(m, b);
            let (d, m2, e2) = spec_step(m, e, b);
            &&& s <= 32
            &&& rne(p, s) <= pow2(53)
            &&& (rne(p, s) == pow2(53) ==> s >= 1)
            &&& e <= e2 <= -1
            &&& d < b
            &&& frac_wf(m2, e2)
        }),
{
    lemma2_to64();
    let p = m * b;
    let s = step_shift(m, b);
    let q1 = rne(p, s);
    let me_ = (-e) as nat;
    lemma_pow2_pos(me_);
    if m == 0 {
        assert(p == 0) by (nonlinear_arith)
            requires
                p == m * b,
                m == 0,
        ;
        assert(bitlen(0nat) == 0);
        assert(s == 0);
        assert(p % pow2(0) == 0);
        assert(q1 == 0);
        lemma_pow2_pos(53);
        let e2 = e + 0;
        assert(e2 < 0);
        let t = (-e2) as nat;
        lemma_pow2_pos(t);
        lemma_basic_div(0, pow2(t) as int);
        lemma_small_mod(0, pow2(t));
        lemma_pow2_pos(52);
    } else {
        assert(p >= 2 && p >= m && p >= b) by (nonlinear_arith)
            requires
                p == m * b,
                m >= 1,
                b >= 2,
        ;
        lemma_bitlen_bounds(p);
        lemma_bitlen_bounds(m);
        lemma_bitlen_bounds(b);
        let bl = bitlen(p);
        let bm = bitlen(m);
        let bb = bitlen(b);
        lemma_bitlen_upper(m, 53);
        lemma_bitlen_upper(m, me_);
        lemma_bitlen_upper(b, 32);
        assert(p < pow2(bm) * pow2(bb)) by (nonlinear_arith)
            requires
                p == m * b,
                m >= 1,
                b >= 1,
                m < pow2(bm),
                b < pow2(bb),
        ;
        lemma_pow2_adds(bm, bb);
        lemma_bitlen_upper(p, bm + bb);
        assert(bl <= 53 + bb);
        assert(bl <= me_ + 32);
        assert(s <= 32 && s <= bb);

        // The rounded significand fits in 53 bits.
        if s > 0 {
            assert(bl == s + 53);
            lemma_pow2_adds(53, s);
            assert(p < pow2(53) * pow2(s));
        } else {
            lemma_pow2_le(bl, 53);
            assert(pow2(53) * pow2(0) == pow2(53)) by {
                lemma_pow2_adds(53, 0);
            }
            assert(p < pow2(53) * pow2(s));
        }
        lemma_rne_le(p, s, pow2(53));

        // A significand that carried over to 2^53 only arises when bits
        // were actually rounded away.
        if s == 0 {
            assert(p % pow2(0) == 0);
            assert(q1 == p);
            if q1 == pow2(53) {
                lemma_bitlen_mul_pow2(1, 53);
                assert(1 * pow2(53) == pow2(53)) by (nonlinear_arith);
                assert(bitlen(1nat) == 1 + bitlen(0nat));
                assert(bl == 54);
                assert(false);
            }
        }

        // The product stays below base * 2^(-e), far enough that rounding
        // up by half a unit cannot reach it.
        assert(p <= pow2(me_) * b - b) by (nonlinear_arith)
            requires
                p == m * b,
                m <= pow2(me_) - 1,
                b >= 1,
        ;
        lemma_rne_mul_upper(p, s);
        if s > 0 {
            lemma_pow2_le(s, bb);
            lemma_pow2_unfold(bb);
            if pow2(s) == 2 * b {
                // Then b is the power 2^(s-1), and the product's bit length
                // would force a 54-bit significand: impossible.
                lemma_pow2_unfold(s);
                assert(b == pow2((s - 1) as nat));
                lemma_bitlen_mul_pow2(m, (s - 1) as nat);
                assert(p == m * pow2((s - 1) as nat)) by (nonlinear_arith)
                    requires
                        p == m * b,
                        b == pow2((s - 1) as nat),
                ;
                assert(bm == 54);
                lemma_pow2_le(53, (bm - 1) as nat);
                assert(false);
            }
            assert(pow2(s) <= 2 * b - 1);
        } else {
            assert(pow2(0) == 1);
        }
        assert(2 * (q1 * pow2(s)) <= 2 * (pow2(me_) * b) - 1);
        assert(q1 * pow2(s) < pow2(me_) * b);

        // Renormalisation keeps the value and the 53-bit bound.
        let q = if q1 == pow2(53) {
            pow2(52)
        } else {
            q1
        };
        let s2 = if q1 == pow2(53) {
            s + 1
        } else {
            s
        };
        let e2 = e + s2;
        if q1 == pow2(53) {
            lemma_pow2_adds(52, s + 1);
            lemma_pow2_adds(53, s);
            assert(q * pow2(s2) == q1 * pow2(s)) by (nonlinear_arith)
                requires
                    q == pow2(52),
                    q1 == pow2(53),
                    s2 == s + 1,
                    pow2(52) * pow2(s2) == pow2(52 + s2),
                    pow2(53) * pow2(s) == pow2(53 + s),
                    52 + s2 == 53 + s,
            ;
            lemma_pow2_strictly_increases(52, 53);
            assert(s >= 1);
            assert(s2 <= me_ + 32 - 53 + 1);
        } else {
            if s > 0 {
                assert(s <= me_ + 32 - 53);
            }
        }
        assert(q < pow2(53));
        assert(q * pow2(s2) < pow2(me_) * b);
        assert(e2 <= -1);

        // The integer part of the rounded value is a digit below the base.
        let t = (-e2) as nat;
        assert(t + s2 == me_);
        lemma_pow2_adds(t, s2);
        lemma_pow2_pos(t);
        lemma_pow2_pos(s2);
        assert(q * pow2(s2) < (b * pow2(t)) * pow2(s2)) by (nonlinear_arith)
            requires
                q * pow2(s2) < pow2(me_) * b,
                pow2(me_) == pow2(t) * pow2(s2),
        ;
        assert(q < b * pow2(t)) by (nonlinear_arith)
            requires
                q * pow2(s2) < (b * pow2(t)) * pow2(s2),
                pow2(s2) > 0,
        ;
        assert(q < pow2(t) * b) by (nonlinear_arith)
            requires
                q < b * pow2(t),
        ;
        lemma_multiply_divide_lt(q as int, pow2(t) as int, b as int);

        // The new remainder is below one and keeps at most 53 bits.
        lemma_mod_division_less_than_divisor(q as int, pow2(t) as int);
        lemma_fundamental_div_mod(q as int, pow2(t) as int);
        assert(pow2(t) * (q / pow2(t)) >= 0) by (nonlinear_arith)
            requires
                pow2(t) > 0,
                q / pow2(t) >= 0,
        ;
        assert(q % pow2(t) <= q);
    }
}

/// When no bits are rounded away, a step is exact arithmetic:
/// `(m * 2^e) * b == d + m2 * 2^e2`, stated scaled by `2^(-e)`.
pub proof fn lemma_step_exact(m: nat, e: int, b: nat)
    requires
        frac_wf(m, e),
        2 <= b < pow2(32),
        (m * b) % pow2(step_shift(m, b)) == 0,
    ensures
        ({
            let (d, m2, e2) = spec_step(m, e, b);
            m * b == d * pow2((-e) as nat) + m2 * pow2((e2 - e) as nat)
        }),
{
    lemma_step_sound(m, e, b);
    let p = m * b;
    let s = step_shift(m, b);
    let q1 = rne(p, s);
    let me_ = (-e) as nat;
    lemma_rne_exact(p, s);
    let q = if q1 == pow2(53) {
        pow2(52)
    } else {
        q1
    };
    let s2 = if q1 == pow2(53) {
        s + 1
    } else {
        s
    };
    let e2 = e + s2;
    if q1 == pow2(53) {
        lemma_pow2_adds(52, s + 1);
        lemma_pow2_adds(53, s);
        assert(q * pow2(s2) == q1 * pow2(s)) by (nonlinear_arith)
            requires
                q == pow2(52),
                q1 == pow2(53),
                s2 == s + 1,
                pow2(52) * pow2(s2) == pow2(52 + s2),
                pow2(53) * pow2(s) == pow2(53 + s),
                52 + s2 == 53 + s,
        ;
    }
    assert(q * pow2(s2) == p);
    let t = (-e2) as nat;
    let d = q / pow2(t);
    let m2 = q % pow2(t);
    lemma_pow2_pos(t);
    lemma_fundamental_div_mod(q as int, pow2(t) as int);
    assert(t + s2 == me_);
    lemma_pow2_adds(t, s2);
    assert(p == d * pow2(me_) + m2 * pow2(s2)) by (nonlinear_arith)
        requires
            q == pow2(t) * d + m2,
            p == q * pow2(s2),
            pow2(me_) == pow2(t) * pow2(s2),
    ;
    assert(s2 == e2 - e);
}

/// The whole extraction: up to `fuel` steps, stopping early once the
/// remainder reaches exactly zero. Returns the digits and the final
/// remainder state.
pub open spec fn run(m: nat, e: int, b: nat, fuel: nat) -> (Seq<nat>, nat, int)
    decreases fuel,
{
    if fuel == 0 {
        (Seq::<nat>::empty(), m, e)
    } else {
        let (d, m2, e2) = spec_step(m, e, b);
        if m2 == 0 {
            (seq![d], 0nat, e2)
        } else {
            let rest = run(m2, e2, b, (fuel - 1) as nat);
            (seq![d] + rest.0, rest.1, rest.2)
        }
    }
}

/// The digit expansion of `m * 2^e` in base `b`, truncated to `fuel` digits.
pub open spec fn spec_digits(m: nat, e: int, b: nat, fuel: nat) -> Seq<nat> {
    run(m, e, b, fuel).0
}

/// Holds when no step of the extraction rounds any bits away, so the whole
/// run is exact rational arithmetic.
pub open spec fn steps_exact(m: nat, e: int, b: nat, fuel: nat) -> bool
    decreases fuel,
{
    fuel == 0 || {
        &&& (m * b) % pow2(step_shift(m, b)) == 0
        &&& ({
            let (d, m2, e2) = spec_step(m, e, b);
            m2 == 0 || steps_exact(m2, e2, b, (fuel - 1) as nat)
        })
    }
}

/// One executable multiply-and-extract step: returns the digit, the new
/// significand and the new exponent, exactly as [`spec_step`] describes.
pub(crate) fn step(sig: u64, exp: i32, base: u32) -> (r: (u32, u64, i32))
    requires
        frac_wf(sig as nat, exp as int),
        base >= 2,
    ensures
        ({
            let (d, m2, e2) = spec_step(sig as nat, exp as int, base as nat);
            &&& r.0 as nat == d
            &&& r.1 as nat == m2
            &&& r.2 as int == e2
            &&& r.0 < base
            &&& frac_wf(r.1 as nat, r.2 as int)
        }),
{
    proof {
        lemma2_to64();
        lemma2_to64_rest();
        lemma_step_sound(sig as nat, exp as int, base as nat);
        assert((sig as nat) * (base as nat) < pow2(53) * pow2(32)) by (nonlinear_arith)
            requires
                (sig as nat) < pow2(53),
                (base as nat) < pow2(32),
        ;
        assert(pow2(53) * pow2(32) == 0x2000000000000000000000) by (nonlinear_arith)
            requires
                pow2(53) == 0x20000000000000,
                pow2(32) == 0x100000000,
        ;
    }
    let ghost gm = sig as nat;
    let ghost ge = exp as int;
    let ghost gb = base as nat;
    let ghost gs = step_shift(gm, gb);
    let p: u128 = (sig as u128) * (base as u128);
    let bl: u64 = bit_length_u128(p);
    let s: u64 = if bl > 53 {
        bl - 53
    } else {
        0
    };
    proof {
        assert(s as nat == gs);
    }
    let pw: u128 = pow2_u64(s) as u128;
    proof {
        lemma_pow2_pos(s as nat);
    }
    let q0: u128 = p / pw;
    let r: u128 = p % pw;
    proof {
        lemma_pow2_le(s as nat, 32);
        assert(r < pw);
        assert(q0 <= rne(p as nat, gs));
        assert(q0 <= pow2(53));
    }
    let mut q: u128 = q0;
    if 2 * r > pw || (2 * r == pw && q0 % 2 == 1) {
        q = q0 + 1;
    }
    proof {
        assert(q as nat == rne(p as nat, gs));
    }
    let mut e2: i32 = exp + (s as i32);
    let mut qq: u64 = q as u64;
    if qq == 0x20000000000000u64 {
        qq = 0x10000000000000u64;
        e2 = e2 + 1;
    }
    proof {
        lemma2_to64_rest();
        assert(e2 < 0);
    }
    let t: u64 = (-e2) as u64;
    let ghost gt = (-(e2 as int)) as nat;
    let d: u64;
    let m2: u64;
    if t >= 54 {
        proof {
            lemma_pow2_le(54, gt);
            lemma_pow2_pos(gt);
            lemma_basic_div(qq as int, pow2(gt) as int);
            lemma_small_mod(qq as nat, pow2(gt));
        }
        d = 0;
        m2 = qq;
    } else {
        let pt: u64 = pow2_u64(t);
        d = qq / pt;
        m2 = qq % pt;
    }
    (d as u32, m2, e2)
}

/// The greatest number of digits one conversion produces.
pub const MAX_DIGITS: u32 = 8;

/// The digit values of `frac` in base `target_base`, most significant
/// first: at most [`MAX_DIGITS`] of them, fewer when the remainder reaches
/// exactly zero first. Every digit is below the base.
pub fn convert_digits(frac: Frac, target_base: u32) -> (digits: Vec<u32>)
    requires
        frac.wf(),
        target_base >= 2,
    ensures
        digits@.map_values(|d: u32| d as nat) == spec_digits(
            frac@.sig,
            frac@.exp,
            target_base as nat,
            MAX_DIGITS as nat,
        ),
        forall|i: int| 0 <= i < digits@.len() ==> digits@[i] < target_base,
{
    let ghost full = spec_digits(frac@.sig, frac@.exp, target_base as nat, MAX_DIGITS as nat);
    let mut sig: u64 = frac.sig;
    let mut exp: i32 = frac.exp;
    let mut out: Vec<u32> = Vec::new();
    let mut i: u32 = 0;
    let mut stopped: bool = false;
    while i < MAX_DIGITS && !stopped
        invariant
            target_base >= 2,
            i <= MAX_DIGITS,
            out@.len() == i,
            full == spec_digits(frac@.sig, frac@.exp, target_base as nat, MAX_DIGITS as nat),
            forall|j: int| 0 <= j < out@.len() ==> out@[j] < target_base,
            !stopped ==> frac_wf(sig as nat, exp as int),
            !stopped ==> full == out@.map_values(|d: u32| d as nat) + spec_digits(
                sig as nat,
                exp as int,
                target_base as nat,
                (MAX_DIGITS - i) as nat,
            ),
            stopped ==> full == out@.map_values(|d: u32| d as nat),
        decreases MAX_DIGITS - i,
    {
        let ghost gm = sig as nat;
        let ghost ge = exp as int;
        let ghost gb = target_base as nat;
        let ghost fuel = (MAX_DIGITS - i) as nat;
        let ghost pre = out@.map_values(|d: u32| d as nat);
        let (d, m2, e2) = step(sig, exp, target_base);
        out.push(d);
        proof {
            let (sd, sm2, se2) = spec_step(gm, ge, gb);
            assert(out@.map_values(|d: u32| d as nat) =~= pre.push(sd));
            assert(pre.push(sd) =~= pre + seq![sd]);
            if sm2 == 0 {
                assert(spec_digits(gm, ge, gb, fuel) == seq![sd]);
                assert(full =~= pre + seq![sd]);
            } else {
                assert(spec_digits(gm, ge, gb, fuel) == seq![sd] + spec_digits(
                    sm2,
                    se2,
                    gb,
                    (fuel - 1) as nat,
                ));
                assert(full =~= (pre + seq![sd]) + spec_digits(sm2, se2, gb, (fuel - 1) as nat));
            }
        }
        if m2 == 0 {
            stopped = true;
        } else {
            sig = m2;
            exp = e2;
        }
        i = i + 1;
    }
    proof {
        if !stopped {
            assert(spec_digits(sig as nat, exp as int, target_base as nat, 0) =~= Seq::<
                nat,
            >::empty());
            assert(full =~= out@.map_values(|d: u32| d as nat));
        }
    }
    out
}

/// The textual form of a digit sequence: each digit value as a decimal
/// numeral, each followed by the separator `';'`.
pub open spec fn render_digits(ds: Seq<nat>) -> Seq<char>
    decreases ds.len(),
{
    if ds.len() == 0 {
        Seq::<char>::empty()
    } else {
        dec_rep(ds[0]) + seq![';'] + render_digits(ds.drop_first())
    }
}

/// Rendering one more digit at the end appends its numeral and a separator.
proof fn lemma_render_snoc(ds: Seq<nat>, x: nat)
    ensures
        render_digits(ds.push(x)) == render_digits(ds) + dec_rep(x) + seq![';'],
    decreases ds.len(),
{
    assert(render_digits(Seq::<nat>::empty()) == Seq::<char>::empty());
    if ds.len() == 0 {
        assert(ds.push(x).drop_first() =~= Seq::<nat>::empty());
        assert(ds.push(x)[0] == x);
        assert(render_digits(ds.push(x)) == dec_rep(x) + seq![';'] + render_digits(
            Seq::<nat>::empty(),
        ));
        assert(render_digits(ds.push(x)) =~= render_digits(ds) + dec_rep(x) + seq![';']);
    } else {
        lemma_render_snoc(ds.drop_first(), x);
        assert(ds.push(x).drop_first() =~= ds.drop_first().push(x));
        assert(ds.push(x)[0] == ds[0]);
        assert(render_digits(ds.push(x)) == dec_rep(ds[0]) + seq![';'] + render_digits(
            ds.drop_first().push(x),
        ));
        assert(render_digits(ds.push(x)) =~= render_digits(ds) + dec_rep(x) + seq![';']);
    }
}

/// The full output for `m * 2^e` in base `b`: `"0."`, then the digit
/// expansion of [`spec_digits`] rendered by [`render_digits`].
pub open spec fn spec_convert(m: nat, e: int, b: nat) -> Seq<char> {
    seq!['0', '.'] + render_digits(spec_digits(m, e, b, MAX_DIGITS as nat))
}

/// Renders digit values as the annotated string: `"0."` then each digit in
/// decimal followed by `";"`.
pub fn render(digits: &Vec<u32>) -> (s: String)
    ensures
        s@ == seq!['0', '.'] + render_digits(digits@.map_values(|d: u32| d as nat)),
{
    let ghost ds = digits@.map_values(|d: u32| d as nat);
    let mut s: String = "0.".to_owned();
    proof {
        reveal_strlit("0.");
        assert(s@ =~= seq!['0', '.']);
        assert(ds.take(0) =~= Seq::<nat>::empty());
        assert(s@ =~= seq!['0', '.'] + render_digits(ds.take(0)));
    }
    let mut i: usize = 0;
    while i < digits.len()
        invariant
            i <= digits@.len(),
            ds == digits@.map_values(|d: u32| d as nat),
            s@ == seq!['0', '.'] + render_digits(ds.take(i as int)),
        decreases digits@.len() - i,
    {
        let ghost before = s@;
        let dv: u32 = digits[i];
        push_dec(&mut s, dv);
        s.append(";");
        proof {
            reveal_strlit(";");
            lemma_render_snoc(ds.take(i as int), ds[i as int]);
            assert(ds.take(i + 1) =~= ds.take(i as int).push(ds[i as int]));
            assert(s@ =~= seq!['0', '.'] + render_digits(ds.take(i + 1)));
        }
        i = i + 1;
    }
    proof {
        assert(ds.take(digits@.len() as int) =~= ds);
    }
    s
}

/// Converts the fraction to its digit string in base `target_base`, for
/// example `"0.1;"` for one half in base two, or `"0.12;"` for twelve
/// sixteenths in base sixteen.
pub fn convert_from_decimal_to_binary(frac: Frac, target_base: u32) -> (s: String)
    requires
        frac.wf(),
        target_base >= 2,
    ensures
        s@ == spec_convert(frac@.sig, frac@.exp, target_base as nat),
{
    let digits = convert_digits(frac, target_base);
    let s = render(&digits);
    proof {
        assert(s@ =~= spec_convert(frac@.sig, frac@.exp, target_base as nat));
    }
    s
}

} // verus!
