use shredstream_proxy::addr::Ipv4Address;
use shredstream_proxy::ipv4_text::parse_ipv4;
use shredstream_proxy::text::{decimal_text, find_char, join, parse_byte, same_text};

#[test]
fn numbers_are_written_in_decimal() {
    assert_eq!(decimal_text(0), "0");
    assert_eq!(decimal_text(9), "9");
    assert_eq!(decimal_text(10), "10");
    assert_eq!(decimal_text(1203), "1203");
    assert_eq!(decimal_text(usize::MAX), usize::MAX.to_string());
}

#[test]
fn bytes_are_read_as_the_standard_library_reads_them() {
    for text in ["0", "32", "128", "255", "256", "007", "+5", "+", "", "-1", "1x", "99999999999"] {
        assert_eq!(parse_byte(text), text.parse::<u8>().ok(), "{text}");
    }
}

#[test]
fn places_and_equality_of_texts() {
    assert_eq!(find_char("a/b/c", '/'), Some(1));
    assert_eq!(find_char("abc", '/'), None);
    assert!(same_text("inet", "inet"));
    assert!(!same_text("inet", "inet6"));
}

#[test]
fn texts_are_joined() {
    let parts = vec!["a".to_string(), "b".to_string(), "c".to_string()];
    assert_eq!(join(&parts, " "), "a b c");
    assert_eq!(join(&parts[..1].to_vec(), " "), "a");
    assert_eq!(join(&Vec::new(), " "), "");
}

#[test]
fn dotted_decimal_addresses_are_read() {
    assert_eq!(parse_ipv4("192.168.1.10"), Some(Ipv4Address::new(192, 168, 1, 10)));
    assert_eq!(parse_ipv4("0.0.0.0"), Some(Ipv4Address::new(0, 0, 0, 0)));
    assert_eq!(parse_ipv4("255.255.255.255"), Some(Ipv4Address::new(255, 255, 255, 255)));
}

#[test]
fn anything_else_is_no_address() {
    for text in [
        "", "1", "1.2.3", "1.2.3.4.5", "1.2.3.4.", ".1.2.3", "1..2.3", "256.1.1.1", "1.2.3.0256",
        "01.2.3.4", "1.2.3.00", "1.2.3.4 ", "+1.2.3.4", "fe80::1234", "1.2.3.1000", "a.b.c.d",
    ] {
        assert_eq!(parse_ipv4(text), None, "{text}");
    }
}
