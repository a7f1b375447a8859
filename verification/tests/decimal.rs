use ram_mapper::decimal::{parse_u32_in, push_decimal};

fn parse(s: &str) -> Option<u32> {
    let chars: Vec<char> = s.chars().collect();
    parse_u32_in(&chars, 0, chars.len())
}

#[test]
fn parse_plain_numbers() {
    assert_eq!(parse("0"), Some(0));
    assert_eq!(parse("42"), Some(42));
    assert_eq!(parse("4294967295"), Some(u32::MAX));
}

#[test]
fn parse_sign_and_leading_zeros() {
    assert_eq!(parse("+17"), Some(17));
    assert_eq!(parse("007"), Some(7));
    assert_eq!(parse("0000000000000000000000012"), Some(12));
}

#[test]
fn parse_rejects_what_str_parse_rejects() {
    for s in ["", "+", "-1", "-0", "12a", " 12", "12 ", "4294967296", "99999999999", "++1", "1+1"] {
        assert_eq!(parse(s), None, "{:?}", s);
        assert!(s.parse::<u32>().is_err(), "{:?}", s);
    }
}

#[test]
fn parse_agrees_with_str_parse() {
    let samples = [
        "0", "1", "9", "10", "+0", "+9", "65535", "65536", "0065536", "4294967294", "4294967295",
        "4294967296", "18446744073709551616", "3\t", "a", "١", "+-1", "00", "+007",
    ];
    for s in samples {
        assert_eq!(parse(s), s.parse::<u32>().ok(), "{:?}", s);
    }
}

#[test]
fn parse_a_field_inside_a_line() {
    let chars: Vec<char> = "12\t345\tx".chars().collect();
    assert_eq!(parse_u32_in(&chars, 3, 6), Some(345));
    assert_eq!(parse_u32_in(&chars, 0, 2), Some(12));
    assert_eq!(parse_u32_in(&chars, 7, 8), None);
}

#[test]
fn push_decimal_writes_the_digits() {
    for n in [0u64, 1, 9, 10, 99, 100, 12345, u32::MAX as u64, u64::MAX] {
        let mut s = String::from("x=");
        push_decimal(&mut s, n);
        assert_eq!(s, format!("x={}", n));
    }
}

#[test]
fn decimal_round_trip_on_values() {
    for n in [0u32, 7, 10, 4096, 65535, 1_000_000, u32::MAX] {
        let mut s = String::new();
        push_decimal(&mut s, n as u64);
        assert_eq!(parse(&s), Some(n));
    }
}
