use rustyalias::addr::{Ipv4, Ipv6};
use rustyalias::ip_parser::{
    interpret_ip, parse_hexadecimal_ip, parse_hyphenated_ip, parse_hyphenated_ipv6,
};

fn v4(a: u8, b: u8, c: u8, d: u8) -> Ipv4 {
    Ipv4::new(a, b, c, d)
}

#[test]
fn test_dot_notation() {
    let cases = [
        ("10.0.0.1.example.com", v4(10, 0, 0, 1)),
        ("app.10.8.0.1.example.com", v4(10, 8, 0, 1)),
        ("customer1.app.10.0.0.1.example.com", v4(10, 0, 0, 1)),
    ];

    for (input, expected) in cases {
        let result = interpret_ip(input);
        assert_eq!(result, Some((Some(expected), None)));
    }
}

#[test]
fn test_dash_notation() {
    let cases = [
        ("192-168-1-250.example.com", v4(192, 168, 1, 250)),
        ("app-116-203-255-68.example.com", v4(116, 203, 255, 68)),
        ("customer2-app-127-0-0-1.example.com", v4(127, 0, 0, 1)),
    ];

    for (input, expected) in cases {
        let result = interpret_ip(input);
        assert_eq!(result, Some((Some(expected), None)));
    }
}

#[test]
fn test_hex_notation() {
    let cases = [
        ("0a000803.example.com", v4(10, 0, 8, 3)),
        ("app-c0a801fc.example.com", v4(192, 168, 1, 252)),
        ("customer3-app-7f000101.example.com", v4(127, 0, 1, 1)),
    ];

    for (input, expected) in cases {
        let result = interpret_ip(input);
        assert_eq!(result, Some((Some(expected), None)));
    }
}

#[test]
fn test_ipv6_notation() {
    let expected = Ipv6::new([0x2a04, 0x4e42, 0x200, 0, 0, 0, 0, 0x201]);
    let cases = [
        "2a04-4e42-200--201.example.com",
        "customer4.2a04-4e42-200--201.example.com",
    ];

    for input in cases {
        let result = interpret_ip(input);
        assert_eq!(result, Some((None, Some(expected))));
    }
}

#[test]
fn test_invalid_inputs() {
    let invalid_cases = [
        "invalid.example.com",
        "256.256.256.256.example.com",
        "not-an-ip.example.com",
        "gggggggg.example.com", // invalid hex
    ];

    for input in invalid_cases {
        let result = interpret_ip(input);
        assert_eq!(result, None);
    }
}

#[test]
fn test_hex_label_beats_dotted_decimal() {
    // The eight-hex-digit strategy runs before the dotted-decimal one.
    let result = interpret_ip("0a000001.10.0.0.2.example.com");
    assert_eq!(result, Some((Some(v4(10, 0, 0, 1)), None)));
}

#[test]
fn test_dotted_decimal_leftmost_window_wins() {
    let result = interpret_ip("10.0.0.1.10.0.0.2.example.com");
    assert_eq!(result, Some((Some(v4(10, 0, 0, 1)), None)));
}

#[test]
fn test_dotted_decimal_rejects_leading_zeros() {
    assert_eq!(interpret_ip("10.0.0.01.example.com"), None);
}

#[test]
fn test_parse_hexadecimal_ip_exact() {
    assert_eq!(parse_hexadecimal_ip("c0a801fc"), Ok(v4(192, 168, 1, 252)));
    assert_eq!(parse_hexadecimal_ip("C0A801FC"), Ok(v4(192, 168, 1, 252)));
    // Wrong length and non-hex digits are both rejected.
    assert_eq!(parse_hexadecimal_ip("c0a801f"), Err(()));
    assert_eq!(parse_hexadecimal_ip("c0a801fc0"), Err(()));
    assert_eq!(parse_hexadecimal_ip("gggggggg"), Err(()));
}

#[test]
fn test_parse_hyphenated_ip_windows_and_fallback() {
    // More than four fields: the leftmost window of four octets wins.
    assert_eq!(
        parse_hyphenated_ip("app-116-203-255-68"),
        Some(v4(116, 203, 255, 68))
    );
    // No octet window, but an eight-hex-digit field is still found.
    assert_eq!(parse_hyphenated_ip("app-c0a801fc"), Some(v4(192, 168, 1, 252)));
    assert_eq!(parse_hyphenated_ip("app-c0a801fx"), None);
    // Leading zeros fail the strict parse.
    assert_eq!(parse_hyphenated_ip("192-168-01-1"), None);
}

#[test]
fn test_parse_hyphenated_ipv6_forms() {
    assert_eq!(
        parse_hyphenated_ipv6("2a04-4e42-200--201"),
        Some(Ipv6::new([0x2a04, 0x4e42, 0x200, 0, 0, 0, 0, 0x201]))
    );
    // A full eight-group form needs no collapse.
    assert_eq!(
        parse_hyphenated_ipv6("1-2-3-4-5-6-7-8"),
        Some(Ipv6::new([1, 2, 3, 4, 5, 6, 7, 8]))
    );
    // `--` alone is the all-zero address.
    assert_eq!(parse_hyphenated_ipv6("--"), Some(Ipv6::new([0; 8])));
    assert_eq!(parse_hyphenated_ipv6("--1"), Some(Ipv6::new([0, 0, 0, 0, 0, 0, 0, 1])));
    // Too few groups, two collapses, or a bad group all fail.
    assert_eq!(parse_hyphenated_ipv6("1-2-3-4"), None);
    assert_eq!(parse_hyphenated_ipv6("1--2--3"), None);
    assert_eq!(parse_hyphenated_ipv6("12345--1"), None);
    assert_eq!(parse_hyphenated_ipv6("1-2-3-4-5-6-7--8"), None);
}
