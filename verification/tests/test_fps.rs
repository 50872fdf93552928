use video_use::fps::{parse_fps, FpsError};

#[test]
fn test_accepts_integer_decimal_and_rational_rates() {
    let cases = [
        ("60", "60/1"),
        ("29.97", "2997/100"),
        ("30000/1001", "30000/1001"),
        ("24", "24/1"),
        ("23.976", "2997/125"),
    ];
    for (input, expected) in cases {
        assert_eq!(parse_fps(input).unwrap(), expected);
    }
}

#[test]
fn test_canonical_rates_are_idempotent() {
    for val in &["60", "29.97", "30000/1001"] {
        let canonical = parse_fps(val).unwrap();
        assert_eq!(parse_fps(&canonical).unwrap(), canonical);
    }
}

#[test]
fn test_rejects_invalid_or_non_positive_rates() {
    let invalid = [
        "",
        "nope",
        "0",
        "-24",
        "1/0",
        "1e3",
        "1_000",
        "0.12345678901234567890",
        "111111111111111111111111111111111",
    ];
    for val in invalid {
        assert!(parse_fps(val).is_err(), "Expected error for {:?}", val);
    }
}

#[test]
fn test_fps_error_kinds() {
    assert_eq!(parse_fps(""), Err(FpsError::InvalidFormat));
    assert_eq!(parse_fps("   "), Err(FpsError::InvalidFormat));
    assert_eq!(parse_fps("nope"), Err(FpsError::InvalidFormat));
    assert_eq!(parse_fps("1.2.3"), Err(FpsError::InvalidFormat));
    assert_eq!(parse_fps("111111111111111111111111111111111"), Err(FpsError::InvalidFormat));
    assert_eq!(parse_fps("0"), Err(FpsError::NotPositive));
    assert_eq!(parse_fps("0/5"), Err(FpsError::NotPositive));
    assert_eq!(parse_fps("1/0"), Err(FpsError::NotPositive));
    assert_eq!(parse_fps("0.0"), Err(FpsError::NotPositive));
    assert_eq!(parse_fps("1.0123456789"), Err(FpsError::TooLarge));
    assert_eq!(parse_fps("99999999999999999999/1"), Err(FpsError::TooLarge));
    assert_eq!(parse_fps("2147483648"), Err(FpsError::TooLarge));
    assert_eq!(parse_fps("9999999999.5"), Err(FpsError::TooLarge));
}

#[test]
fn test_fps_reduction_and_whitespace() {
    assert_eq!(parse_fps("  25 ").unwrap(), "25/1");
    assert_eq!(parse_fps("\t48/2\n").unwrap(), "24/1");
    assert_eq!(parse_fps("2147483647").unwrap(), "2147483647/1");
    assert_eq!(parse_fps("4294967294/2").unwrap(), "2147483647/1");
    assert_eq!(parse_fps("0.5").unwrap(), "1/2");
    assert_eq!(parse_fps("007").unwrap(), "7/1");
    assert_eq!(parse_fps("1/3").unwrap(), "1/3");
}

#[test]
fn test_acceptance_conditions() {
    assert_eq!(parse_fps(" 0.5 ").unwrap(), "1/2");
    assert_eq!(parse_fps("0"), Err(FpsError::NotPositive));
    assert_eq!(parse_fps("0/5"), Err(FpsError::NotPositive));
    assert_eq!(parse_fps("1.0000000001"), Err(FpsError::TooLarge));
    assert_eq!(parse_fps("2147483648"), Err(FpsError::TooLarge));
    assert_eq!(parse_fps("4294967296/2"), Err(FpsError::TooLarge));
    assert_eq!(parse_fps("4294967294/2").unwrap(), "2147483647/1");
    assert_eq!(parse_fps("9223372036854775808/1"), Err(FpsError::TooLarge));
    assert_eq!(parse_fps("123456789012345678901234567890123"), Err(FpsError::InvalidFormat));
}
