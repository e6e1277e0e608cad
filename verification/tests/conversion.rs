use fracbase::convert::convert_from_decimal_to_binary;
use fracbase::frac::Frac;

fn frac_of(x: f64) -> Frac {
    Frac::from_bits(x.to_bits()).expect("value must be a finite fraction in [0, 1)")
}

fn conv(x: f64, base: u32) -> String {
    convert_from_decimal_to_binary(frac_of(x), base)
}

#[test]
fn test_conversion_base_2() {
    assert_eq!(conv(0.5, 2), "0.1;");
    assert_eq!(conv(0.25, 2), "0.0;1;");
    assert_eq!(conv(0.75, 2), "0.1;1;");
    assert_eq!(conv(0.125, 2), "0.0;0;1;");
    assert_eq!(conv(0.6875, 2), "0.1;0;1;1;");
    assert_eq!(conv(0.7, 2), "0.1;0;1;1;0;0;1;1;");
    assert_eq!(conv(0.8, 2), "0.1;1;0;0;1;1;0;0;");
    assert_eq!(conv(0.9, 2), "0.1;1;1;0;0;1;1;0;");
    assert_eq!(conv(0.6, 2), "0.1;0;0;1;1;0;0;1;");
    assert_eq!(conv(0.3, 2), "0.0;1;0;0;1;1;0;0;");
    assert_eq!(conv(0.1, 2), "0.0;0;0;1;1;0;0;1;");
}

#[test]
fn test_conversion_base_8() {
    assert_eq!(conv(0.5, 8), "0.4;");
    assert_eq!(conv(0.25, 8), "0.2;");
    assert_eq!(conv(0.75, 8), "0.6;");
    assert_eq!(conv(0.8, 8), "0.6;3;1;4;6;3;1;4;");
    assert_eq!(conv(0.16666, 8), "0.1;2;5;2;5;0;7;2;");
}

#[test]
fn test_conversion_base_16() {
    assert_eq!(conv(0.5, 16), "0.8;");
    assert_eq!(conv(0.25, 16), "0.4;");
    assert_eq!(conv(0.75, 16), "0.12;");
    assert_eq!(conv(0.8, 16), "0.12;12;12;12;12;12;12;12;");
    assert_eq!(conv(0.16666, 16), "0.2;10;10;10;3;10;13;1;");
}

#[test]
fn test_conversion_base_60() {
    assert_eq!(conv(0.5, 60), "0.30;");
    assert_eq!(conv(0.25, 60), "0.15;");
    assert_eq!(conv(0.75, 60), "0.45;");
    assert_eq!(conv(0.8, 60), "0.48;");
    assert_eq!(conv(0.16666, 60), "0.9;59;58;33;36;0;0;0;");
}
