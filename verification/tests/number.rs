use samply_hotspots::number::{count_text, format_hex, parse_hex, parse_int_auto, IntErrorKind};

#[test]
fn parse_hex_edge_cases() {
    assert_eq!(parse_hex("  0X1f \n"), Some(31));
    assert_eq!(parse_hex("+10"), Some(16));
    assert_eq!(parse_hex("0x+10"), Some(16));
    assert_eq!(parse_hex(""), None);
    assert_eq!(parse_hex("0x"), None);
    assert_eq!(parse_hex("+"), None);
    assert_eq!(parse_hex("-1"), None);
    assert_eq!(parse_hex("ffffffffffffffff"), Some(u64::MAX));
    assert_eq!(parse_hex("10000000000000000"), None);
    assert_eq!(parse_hex("1 0"), None);
}

#[test]
fn parse_int_auto_reads_decimal_or_hex() {
    assert_eq!(parse_int_auto("0x100000000"), Ok(0x1_0000_0000));
    assert_eq!(parse_int_auto(" 25 "), Ok(25));
    assert_eq!(parse_int_auto("0XfF"), Ok(255));
    assert_eq!(parse_int_auto("ff"), Err(IntErrorKind::InvalidDigit));
    assert_eq!(parse_int_auto(""), Err(IntErrorKind::Empty));
    assert_eq!(parse_int_auto("0x"), Err(IntErrorKind::Empty));
    assert_eq!(parse_int_auto("+"), Err(IntErrorKind::InvalidDigit));
    assert_eq!(parse_int_auto("18446744073709551616"), Err(IntErrorKind::PosOverflow));
    assert_eq!(parse_int_auto("18446744073709551615"), Ok(u64::MAX));
    assert_eq!(parse_int_auto("99999999999999999999x"), Err(IntErrorKind::PosOverflow));
    assert_eq!(parse_int_auto("9x99999999999999999999"), Err(IntErrorKind::InvalidDigit));
}

#[test]
fn format_hex_is_lower_case_with_prefix() {
    assert_eq!(format_hex(0), "0x0");
    assert_eq!(format_hex(255), "0xff");
    assert_eq!(format_hex(0x1_0000_0000), "0x100000000");
    assert_eq!(format_hex(u64::MAX), "0xffffffffffffffff");
}

#[test]
fn parse_hex_reads_back_format_hex() {
    for v in [0u64, 1, 15, 16, 0xdead_beef, 0x1_0000_3f00, u64::MAX] {
        assert_eq!(parse_hex(&format_hex(v)), Some(v));
        assert_eq!(parse_int_auto(&format_hex(v)), Ok(v));
    }
}

#[test]
fn count_text_right_aligns_in_six_columns() {
    assert_eq!(count_text(0), "     0");
    assert_eq!(count_text(42), "    42");
    assert_eq!(count_text(123456), "123456");
    assert_eq!(count_text(1234567), "1234567");
    assert_eq!(count_text(42), format!("{:6}", 42));
}
