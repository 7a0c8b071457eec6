use subnet_monitor::address::{format_address, from_octets, octets, parse_address};
use subnet_monitor::text::{decimal_text, digit_text, is_digit_char, read_short_number};

#[test]
fn from_octets_is_big_endian() {
    assert_eq!(from_octets(192, 168, 100, 5), 0xc0a8_6405);
    assert_eq!(from_octets(0, 0, 0, 0), 0);
    assert_eq!(from_octets(255, 255, 255, 255), 0xffff_ffff);
    assert_eq!(from_octets(1, 2, 3, 4), 0x0102_0304);
}

#[test]
fn octets_splits_most_significant_first() {
    assert_eq!(octets(0xc0a8_6405), [192, 168, 100, 5]);
    assert_eq!(octets(0), [0, 0, 0, 0]);
    assert_eq!(octets(0xffff_ffff), [255, 255, 255, 255]);
}

#[test]
fn octets_and_from_octets_are_inverse() {
    for address in [0u32, 1, 0x7f00_0001, 0xc0a8_6405, 0xffff_fffe, 0xffff_ffff] {
        let parts = octets(address);
        assert_eq!(from_octets(parts[0], parts[1], parts[2], parts[3]), address);
    }
}

#[test]
fn format_address_writes_dotted_quad() {
    assert_eq!(format_address(0xc0a8_6405), "192.168.100.5");
    assert_eq!(format_address(0), "0.0.0.0");
    assert_eq!(format_address(0xffff_ffff), "255.255.255.255");
    assert_eq!(format_address(from_octets(10, 0, 200, 9)), "10.0.200.9");
}

#[test]
fn format_address_writes_each_octet_without_padding() {
    assert_eq!(format_address(1), "0.0.0.1");
    assert_eq!(format_address(0x0a00_0001), "10.0.0.1");
    assert_eq!(format_address(0x7f00_0001), "127.0.0.1");
    assert_eq!(format_address(0xc0a8_6409), "192.168.100.9");
    assert_eq!(format_address(0xe000_00fb), "224.0.0.251");
    assert_eq!(format_address(0x0164_0a63), "1.100.10.99");
}

#[test]
fn decimal_text_has_no_leading_zeros() {
    assert_eq!(decimal_text(0), "0");
    assert_eq!(decimal_text(7), "7");
    assert_eq!(decimal_text(10), "10");
    assert_eq!(decimal_text(255), "255");
    assert_eq!(decimal_text(1000), "1000");
    assert_eq!(decimal_text(u64::MAX), "18446744073709551615");
}

#[test]
fn digit_text_names_each_digit() {
    let digits: Vec<&str> = (0u8..10).map(digit_text).collect();
    assert_eq!(digits, vec!["0", "1", "2", "3", "4", "5", "6", "7", "8", "9"]);
}

#[test]
fn parse_address_reads_dotted_quads() {
    assert_eq!(parse_address("192.168.100.5"), Some(0xc0a8_6405));
    assert_eq!(parse_address("0.0.0.0"), Some(0));
    assert_eq!(parse_address("255.255.255.255"), Some(0xffff_ffff));
    assert_eq!(parse_address("255.255.255.0"), Some(0xffff_ff00));
    assert_eq!(parse_address("1.2.3.4"), Some(0x0102_0304));
    assert_eq!(parse_address("10.0.200.9"), Some(from_octets(10, 0, 200, 9)));
}

#[test]
fn parse_address_undoes_format_address() {
    for address in [0u32, 1, 9, 10, 99, 100, 255, 256, 0x0a00_0001, 0xc0a8_6409, 0xffff_ffff] {
        assert_eq!(parse_address(&format_address(address)), Some(address));
    }
    for a in [0u8, 1, 9, 10, 99, 100, 199, 200, 249, 250, 255] {
        for b in [0u8, 7, 10, 100, 255] {
            let address = from_octets(a, b, b, a);
            assert_eq!(parse_address(&format_address(address)), Some(address));
        }
    }
}

#[test]
fn parse_address_wants_four_octets() {
    assert_eq!(parse_address(""), None);
    assert_eq!(parse_address("1"), None);
    assert_eq!(parse_address("1.2"), None);
    assert_eq!(parse_address("1.2.3"), None);
    assert_eq!(parse_address("1.2.3.4.5"), None);
    assert_eq!(parse_address("1.2.3.4."), None);
    assert_eq!(parse_address(".1.2.3.4"), None);
    assert_eq!(parse_address("1..2.3"), None);
    assert_eq!(parse_address("1.2.3."), None);
    assert_eq!(parse_address("..."), None);
}

#[test]
fn parse_address_wants_octets_up_to_255() {
    assert_eq!(parse_address("256.0.0.0"), None);
    assert_eq!(parse_address("0.0.0.256"), None);
    assert_eq!(parse_address("1.2.3.999"), None);
    assert_eq!(parse_address("1.2.3.1000"), None);
    assert_eq!(parse_address("1.2.3.4294967297"), None);
    assert_eq!(parse_address("99999999999999999999999999.2.3.4"), None);
}

#[test]
fn parse_address_refuses_leading_zeros() {
    assert_eq!(parse_address("01.2.3.4"), None);
    assert_eq!(parse_address("1.2.3.04"), None);
    assert_eq!(parse_address("1.2.00.4"), None);
    assert_eq!(parse_address("192.168.100.005"), None);
    assert_eq!(parse_address("0.0.0.0"), Some(0));
}

#[test]
fn parse_address_refuses_anything_but_digits_and_dots() {
    assert_eq!(parse_address(" 1.2.3.4"), None);
    assert_eq!(parse_address("1.2.3.4 "), None);
    assert_eq!(parse_address("1.2.3.4\n"), None);
    assert_eq!(parse_address("1.2.3.-4"), None);
    assert_eq!(parse_address("+1.2.3.4"), None);
    assert_eq!(parse_address("1.2.3.4a"), None);
    assert_eq!(parse_address("0x1.2.3.4"), None);
    assert_eq!(parse_address("1,2,3,4"), None);
    assert_eq!(parse_address("localhost"), None);
    assert_eq!(parse_address("\u{661}.2.3.4"), None);
    assert_eq!(parse_address("1.2.3.4\u{e9}"), None);
    assert_eq!(parse_address("::1"), None);
}

#[test]
fn read_short_number_reads_the_run_of_digits() {
    assert_eq!(read_short_number("192.168", 7, 0), (Some(192), 3));
    assert_eq!(read_short_number("192.168", 7, 4), (Some(168), 7));
    assert_eq!(read_short_number("192.168", 7, 3), (None, 3));
    assert_eq!(read_short_number("192.168", 7, 7), (None, 7));
    assert_eq!(read_short_number("0", 1, 0), (Some(0), 1));
    assert_eq!(read_short_number("999x", 4, 0), (Some(999), 3));
    assert_eq!(read_short_number("1000", 4, 0), (None, 4));
    assert_eq!(read_short_number("007", 3, 0), (None, 3));
    assert_eq!(read_short_number("x42", 3, 1), (Some(42), 3));
}

#[test]
fn is_digit_char_knows_the_ten_digits() {
    for c in "0123456789".chars() {
        assert!(is_digit_char(c));
    }
    for c in "/:aA .-+\u{661}".chars() {
        assert!(!is_digit_char(c));
    }
}
