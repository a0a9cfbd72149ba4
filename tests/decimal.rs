use vstp::decimal::{parse_u64_dec, u64_to_dec};

#[test]
fn decimal_text_round_trips() {
    for n in [0u64, 7, 10, 99, 100, 12345, u64::MAX] {
        let t = u64_to_dec(n);
        assert_eq!(t, n.to_string().into_bytes());
        assert_eq!(parse_u64_dec(&t), Some(n));
    }
}

#[test]
fn decimal_parse_rules() {
    assert_eq!(parse_u64_dec(b"+7"), Some(7));
    assert_eq!(parse_u64_dec(b"007"), Some(7));
    assert_eq!(parse_u64_dec(b""), None);
    assert_eq!(parse_u64_dec(b"+"), None);
    assert_eq!(parse_u64_dec(b"-1"), None);
    assert_eq!(parse_u64_dec(b"12a"), None);
    assert_eq!(parse_u64_dec(b"18446744073709551615"), Some(u64::MAX));
    assert_eq!(parse_u64_dec(b"18446744073709551616"), None);
}
