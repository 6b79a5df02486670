use arkdns::address::parse_ipv4;
use arkdns::decimal::{push_decimal, to_decimal};

#[test]
fn parse_ipv4_reads_dotted_quads() {
    assert_eq!(parse_ipv4("10.0.0.5"), Some([10, 0, 0, 5]));
    assert_eq!(parse_ipv4("0.0.0.0"), Some([0, 0, 0, 0]));
    assert_eq!(parse_ipv4("255.255.255.255"), Some([255, 255, 255, 255]));
    assert_eq!(parse_ipv4("192.168.1.100"), Some([192, 168, 1, 100]));
    assert_eq!(parse_ipv4("1.22.199.200"), Some([1, 22, 199, 200]));
}

#[test]
fn parse_ipv4_refuses_everything_else() {
    for text in [
        "",
        ".",
        "1",
        "1.2.3",
        "1.2.3.",
        ".1.2.3",
        "1.2.3.4.",
        "1.2.3.4.5",
        "1..2.3",
        "256.0.0.1",
        "1.2.3.256",
        "1.2.3.1000",
        "01.2.3.4",
        "1.2.3.04",
        "1.2.3.00",
        "1.2.3.4 ",
        " 1.2.3.4",
        "1.2.3.-4",
        "+1.2.3.4",
        "1,2,3,4",
        "a.b.c.d",
        "1.2.3.4a",
        "１.2.3.4",
        "::1",
        "0x1.2.3.4",
    ] {
        assert_eq!(parse_ipv4(text), None, "{text:?}");
    }
}

#[test]
fn parse_ipv4_agrees_with_the_text_of_every_octet() {
    for v in 0..=255u8 {
        let text = format!("{v}.{}.0.{v}", 255 - v);
        assert_eq!(parse_ipv4(&text), Some([v, 255 - v, 0, v]), "{text}");
    }
}

#[test]
fn decimal_numerals_have_no_leading_zero() {
    assert_eq!(to_decimal(0), "0");
    assert_eq!(to_decimal(7), "7");
    assert_eq!(to_decimal(10), "10");
    assert_eq!(to_decimal(1053), "1053");
    assert_eq!(to_decimal(u64::MAX), "18446744073709551615");
    let mut out = String::from("n=");
    push_decimal(&mut out, 60);
    assert_eq!(out, "n=60");
}
