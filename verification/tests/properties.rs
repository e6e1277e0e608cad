use fracbase::convert::{convert_digits, convert_from_decimal_to_binary, MAX_DIGITS};
use fracbase::frac::Frac;

fn frac_of(x: f64) -> Frac {
    Frac::from_bits(x.to_bits()).expect("value must be a finite fraction in [0, 1)")
}

#[test]
fn short_expansions_reconstruct_exactly() {
    // Inputs with an exact short expansion in the target base stop before
    // MAX_DIGITS digits, and the digits reconstruct the value exactly.
    for &(x, base) in &[(0.25f64, 2u32), (0.6875, 2), (0.5, 8), (0.75, 16), (0.5, 60)] {
        let digits = convert_digits(frac_of(x), base);
        assert!(digits.len() < MAX_DIGITS as usize);
        let mut value: f64 = 0.0;
        for &d in digits.iter().rev() {
            value = (value + d as f64) / base as f64;
        }
        assert_eq!(value, x);
    }
}

#[test]
fn inexact_expansions_run_full_length() {
    // Inputs whose remainder never reaches zero give exactly MAX_DIGITS digits.
    for &(x, base) in &[(0.1f64, 2u32), (0.3, 2), (0.8, 8), (0.16666, 16), (0.16666, 60)] {
        let digits = convert_digits(frac_of(x), base);
        assert_eq!(digits.len(), MAX_DIGITS as usize);
    }
}

#[test]
fn digits_stay_below_the_base() {
    for &(x, base) in &[
        (0.16666f64, 60u32),
        (0.9, 2),
        (0.999999, 7),
        (0.8, 16),
        (0.7, 999999937),
    ] {
        for &d in convert_digits(frac_of(x), base).iter() {
            assert!(d < base);
        }
    }
}

#[test]
fn conversion_is_deterministic() {
    let a = convert_from_decimal_to_binary(frac_of(0.16666), 60);
    let b = convert_from_decimal_to_binary(frac_of(0.16666), 60);
    assert_eq!(a, b);
    let c = convert_digits(frac_of(0.7), 2);
    let d = convert_digits(frac_of(0.7), 2);
    assert_eq!(c, d);
}

#[test]
fn zero_converts_to_a_single_zero_digit() {
    assert_eq!(convert_from_decimal_to_binary(frac_of(0.0), 2), "0.0;");
    assert_eq!(convert_from_decimal_to_binary(frac_of(0.0), 60), "0.0;");
}

#[test]
fn subnormal_inputs_are_handled_exactly() {
    // The smallest positive double: every product stays far below one.
    assert_eq!(
        convert_from_decimal_to_binary(frac_of(5e-324), 3),
        "0.0;0;0;0;0;0;0;0;"
    );
}

#[test]
fn multi_digit_values_are_rendered_in_decimal() {
    let digits = convert_digits(frac_of(0.8), 16);
    assert_eq!(digits, vec![12, 12, 12, 12, 12, 12, 12, 12]);
    assert_eq!(
        convert_from_decimal_to_binary(frac_of(0.8), 16),
        "0.12;12;12;12;12;12;12;12;"
    );
}

#[test]
fn out_of_range_bit_patterns_are_refused() {
    assert!(Frac::from_bits(1.0f64.to_bits()).is_none());
    assert!(Frac::from_bits(1.5f64.to_bits()).is_none());
    assert!(Frac::from_bits((-0.5f64).to_bits()).is_none());
    assert!(Frac::from_bits(f64::NAN.to_bits()).is_none());
    assert!(Frac::from_bits(f64::INFINITY.to_bits()).is_none());
    assert!(Frac::from_bits(0.999999f64.to_bits()).is_some());
    assert!(Frac::from_bits(0.0f64.to_bits()).is_some());
}

#[test]
fn decoded_fractions_carry_the_exact_value() {
    // 0.5 is 1 * 2^-1; the decoder keeps the full 53-bit significand.
    let f = frac_of(0.5);
    assert_eq!(f.sig, 1u64 << 52);
    assert_eq!(f.exp, -53);
    // The smallest positive double is 1 * 2^-1074.
    let tiny = frac_of(5e-324);
    assert_eq!(tiny.sig, 1);
    assert_eq!(tiny.exp, -1074);
}
