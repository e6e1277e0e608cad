//! Exact dyadic fractions: the values of IEEE 754 binary64 numbers in `[0, 1)`.

use vstd::prelude::*;

verus! {

use vstd::arithmetic::power2::{pow2, lemma2_to64, lemma2_to64_rest};
use crate::bits::lemma_pow2_le;

/// Mathematical model of a [`Frac`]: the value `sig * 2^exp`.
pub struct FracView {
    pub sig: nat,
    pub exp: int,
}

/// A well-formed dyadic state: at most 53 significand bits, an exponent no
/// smaller than the lowest bit position a binary64 number can hold, and a
/// value below one.
pub open spec fn frac_wf(sig: nat, exp: int) -> bool {
    &&& sig < pow2(53)
    &&& -1074 <= exp <= -1
    &&& sig < pow2((-exp) as nat)
}

/// The exact value of a binary floating-point number in `[0, 1)`, held as
/// `sig * 2^exp` with `sig < 2^53`. Every such value is representable, and
/// every binary64 number in `[0, 1)` — normal or subnormal — decodes to one.
#[derive(Clone, Copy)]
pub struct Frac {
    pub sig: u64,
    pub exp: i32,
}

impl View for Frac {
    type V = FracView;

    open spec fn view(&self) -> FracView {
        FracView { sig: self.sig as nat, exp: self.exp as int }
    }
}

/// The significand that a binary64 bit pattern below `1.0` denotes:
/// the stored fraction field, with the implicit leading bit added for
/// normal numbers.
pub open spec fn spec_sig_of_bits(bits: u64) -> nat {
    if bits / (pow2(52) as u64) == 0 {
        bits as nat
    } else {
        (bits as nat) % pow2(52) + pow2(52)
    }
}

/// The exponent that a binary64 bit pattern below `1.0` denotes: the scale
/// of the lowest significand bit, `-1074` for subnormals.
pub open spec fn spec_exp_of_bits(bits: u64) -> int {
    if bits / (pow2(52) as u64) == 0 {
        -1074
    } else {
        (bits / (pow2(52) as u64)) - 1075
    }
}

impl Frac {
    /// The represented value lies in `[0, 1)` and fits the shape above.
    pub open spec fn wf(&self) -> bool {
        frac_wf(self@.sig, self@.exp)
    }

    /// Decodes a binary64 bit pattern into the exact fraction it denotes.
    ///
    /// Patterns at or above `0x3FF0_0000_0000_0000` — values of one or
    /// more, negative values, infinities and NaNs — are refused.
    pub fn from_bits(bits: u64) -> (r: Option<Frac>)
        ensures
            bits < 0x3FF0000000000000 ==> (r matches Some(f) && f.wf() && f@.sig
                == spec_sig_of_bits(bits) && f@.exp == spec_exp_of_bits(bits)),
            bits >= 0x3FF0000000000000 ==> r is None,
    {
        proof {
            lemma2_to64();
            lemma2_to64_rest();
        }
        if bits >= 0x3FF0000000000000u64 {
            None
        } else {
            let ef: u64 = bits / 0x10000000000000u64;
            let mant: u64 = bits % 0x10000000000000u64;
            if ef == 0 {
                proof {
                    lemma_pow2_le(53, 1074);
                }
                Some(Frac { sig: mant, exp: -1074 })
            } else {
                let f = Frac { sig: mant + 0x10000000000000u64, exp: (ef as i32) - 1075 };
                proof {
                    assert(ef <= 0x3FE);
                    lemma_pow2_le(53, (1075 - ef) as nat);
                }
                Some(f)
            }
        }
    }
}

} // verus!
