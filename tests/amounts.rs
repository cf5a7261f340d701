use treasury::{is_valid_precision_amount, PRECISION_FACTOR};

#[test]
fn test_is_valid_precision_amount() {
    assert!(is_valid_precision_amount(1_000_000));

    assert!(!is_valid_precision_amount(999_999));
    assert!(!is_valid_precision_amount(500_000));
    assert!(!is_valid_precision_amount(1));
    assert!(!is_valid_precision_amount(0));

    assert!(is_valid_precision_amount(2_000_000));
    assert!(is_valid_precision_amount(5_000_000));
    assert!(is_valid_precision_amount(10_000_000));
    assert!(is_valid_precision_amount(100_000_000));

    assert!(!is_valid_precision_amount(1_000_001));
    assert!(!is_valid_precision_amount(1_500_000));
    assert!(!is_valid_precision_amount(2_000_001));
    assert!(!is_valid_precision_amount(999_999_999));

    assert!(is_valid_precision_amount(1_000_000_000_000));
    assert!(is_valid_precision_amount(1_000_000_000_000_000_000));

    assert!(!is_valid_precision_amount(1_000_000_000_001));

    assert!(is_valid_precision_amount(999_000_000));
    assert!(!is_valid_precision_amount(999_000_001));
    assert!(!is_valid_precision_amount(999_999_999));

    let large_valid = 1_000_000u128 * 1_000_000_000u128;
    assert!(is_valid_precision_amount(large_valid));

    let max_reasonable = 1_000_000u128 * (u64::MAX as u128);
    assert!(is_valid_precision_amount(max_reasonable));

    assert!(!is_valid_precision_amount(u128::MAX));
}

#[test]
fn precision_factor_multiples_are_valid() {
    for k in [1u128, 2, 3, 7, 1_000, 123_456_789] {
        assert!(is_valid_precision_amount(PRECISION_FACTOR * k));
    }
    let largest_multiple = (u128::MAX / PRECISION_FACTOR) * PRECISION_FACTOR;
    assert!(is_valid_precision_amount(largest_multiple));
}

#[test]
fn precision_factor_remainders_are_invalid() {
    for k in [0u128, 1, 2, 99] {
        for r in [1u128, 2, 500_000, 999_999] {
            assert!(!is_valid_precision_amount(PRECISION_FACTOR * k + r));
        }
    }
}
