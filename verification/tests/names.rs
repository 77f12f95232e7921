use vpsnet::names::{format_interface_name, parse_interface_number};

#[test]
fn formats_prefix_and_decimal_number() {
    assert_eq!(format_interface_name(0), "vps0");
    assert_eq!(format_interface_name(1), "vps1");
    assert_eq!(format_interface_name(8), "vps8");
    assert_eq!(format_interface_name(10), "vps10");
    assert_eq!(format_interface_name(4096), "vps4096");
    assert_eq!(format_interface_name(u64::MAX), "vps18446744073709551615");
}

#[test]
fn parses_the_number_after_the_prefix() {
    assert_eq!(parse_interface_number("vps1"), 1);
    assert_eq!(parse_interface_number("vps7"), 7);
    assert_eq!(parse_interface_number("vps007"), 7);
    assert_eq!(parse_interface_number("vps120"), 120);
    assert_eq!(parse_interface_number("vps18446744073709551615"), u64::MAX);
}

#[test]
fn accepts_a_leading_plus_sign() {
    assert_eq!(parse_interface_number("vps+5"), 5);
    assert_eq!(parse_interface_number("vps+"), 0);
    assert_eq!(parse_interface_number("vps++5"), 0);
}

#[test]
fn names_without_a_number_carry_zero() {
    assert_eq!(parse_interface_number(""), 0);
    assert_eq!(parse_interface_number("vp"), 0);
    assert_eq!(parse_interface_number("vps"), 0);
    assert_eq!(parse_interface_number("vpsx"), 0);
    assert_eq!(parse_interface_number("vps1x"), 0);
    assert_eq!(parse_interface_number("vps-1"), 0);
    assert_eq!(parse_interface_number("vps 1"), 0);
    assert_eq!(parse_interface_number("vps\u{0661}"), 0);
    assert_eq!(parse_interface_number("eth0"), 0);
    assert_eq!(parse_interface_number("xyz12"), 0);
}

#[test]
fn numbers_beyond_64_bits_carry_zero() {
    assert_eq!(parse_interface_number("vps18446744073709551616"), 0);
    assert_eq!(parse_interface_number("vps99999999999999999999999"), 0);
}

#[test]
fn parsing_undoes_formatting() {
    for n in [0u64, 1, 9, 10, 99, 100, 65535, 1 << 40, u64::MAX] {
        assert_eq!(parse_interface_number(&format_interface_name(n)), n);
    }
}
