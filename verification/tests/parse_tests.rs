use memscan::ScanError;
use memscan::parse::{parse_address, parse_scan_target, u32_to_decimal, ScanTarget};

#[test]
fn hex_value_text_parses() {
    assert_eq!(parse_scan_target("0x64"), Ok(ScanTarget::Word(100)));
    assert_eq!(parse_scan_target("0xFFFFFFFF"), Ok(ScanTarget::Word(u32::MAX)));
    assert_eq!(parse_scan_target("0xdeadBEEF"), Ok(ScanTarget::Word(0xdead_beef)));
}

#[test]
fn float_form_is_classified_and_parses_as_float() {
    assert_eq!(parse_scan_target("100.5"), Ok(ScanTarget::FloatText));
    // the caller converts the float form itself
    let v: f32 = "100.5".parse().unwrap();
    assert_eq!(v, 100.5);
    // and truncates it for an exact scan, as the three-form value
    // rule prescribes
    assert_eq!(v as u32, 100);
}

#[test]
fn decimal_value_text_parses() {
    assert_eq!(parse_scan_target("100"), Ok(ScanTarget::Word(100)));
    assert_eq!(parse_scan_target("0"), Ok(ScanTarget::Word(0)));
    assert_eq!(parse_scan_target("4294967295"), Ok(ScanTarget::Word(u32::MAX)));
}

#[test]
fn malformed_value_text_is_a_parse_error() {
    assert_eq!(parse_scan_target("abc"), Err(ScanError::ParseError));
    assert_eq!(parse_scan_target(""), Err(ScanError::ParseError));
    assert_eq!(parse_scan_target("0x"), Err(ScanError::ParseError));
    assert_eq!(parse_scan_target("0xzz"), Err(ScanError::ParseError));
    assert_eq!(parse_scan_target("12a4"), Err(ScanError::ParseError));
    // one past the 32-bit range, in both alphabets
    assert_eq!(parse_scan_target("4294967296"), Err(ScanError::ParseError));
    assert_eq!(parse_scan_target("0x100000000"), Err(ScanError::ParseError));
}

#[test]
fn hex_form_takes_precedence_over_float_form() {
    // a 0x prefix selects the hexadecimal form, so the dot is a parse
    // error there, not a float marker
    assert_eq!(parse_scan_target("0x64.5"), Err(ScanError::ParseError));
}

#[test]
fn addresses_accept_hex_and_decimal() {
    assert_eq!(parse_address("0x64"), Ok(0x64));
    assert_eq!(parse_address("100"), Ok(100));
    assert_eq!(parse_address("0x7fff12340000"), Ok(0x7fff_1234_0000));
    assert_eq!(parse_address("zz"), Err(ScanError::ParseError));
    assert_eq!(parse_address("1.5"), Err(ScanError::ParseError));
    assert_eq!(parse_address(""), Err(ScanError::ParseError));
}

#[test]
fn decimal_rendering_is_exact() {
    assert_eq!(u32_to_decimal(0), "0");
    assert_eq!(u32_to_decimal(7), "7");
    assert_eq!(u32_to_decimal(100), "100");
    assert_eq!(u32_to_decimal(40960), "40960");
    assert_eq!(u32_to_decimal(u32::MAX), "4294967295");
}
