use timehistory::decimal::{parse_decimal, to_decimal};

#[test]
fn numbers_in_decimal_notation() {
    assert_eq!(to_decimal(0), b"0".to_vec());
    assert_eq!(to_decimal(7), b"7".to_vec());
    assert_eq!(to_decimal(10), b"10".to_vec());
    assert_eq!(to_decimal(16384), b"16384".to_vec());
    assert_eq!(to_decimal(usize::MAX), format!("{}", usize::MAX).into_bytes());
}

#[test]
fn numbers_are_read_back() {
    for value in [0usize, 1, 9, 10, 99, 100, 256, 65535, usize::MAX] {
        assert_eq!(parse_decimal(&to_decimal(value)), Some(value));
    }
}

#[test]
fn parse_decimal_as_the_standard_library_does() {
    let texts: [&str; 14] = [
        "", "+", "-", "0", "+0", "007", "+42", "-1", "1 ", " 1", "1_000", "12a", "++1",
        "18446744073709551616",
    ];
    for text in texts {
        assert_eq!(parse_decimal(text.as_bytes()), text.parse::<usize>().ok(), "{:?}", text);
    }
    assert_eq!(
        parse_decimal(format!("{}", usize::MAX).as_bytes()),
        Some(usize::MAX)
    );
    assert_eq!(parse_decimal(format!("{}0", usize::MAX).as_bytes()), None);
}
