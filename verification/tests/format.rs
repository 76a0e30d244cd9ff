use primegen::arith::bigint_shl;
use primegen::bigint::{BigInt, LIMBS};

#[test]
fn decimal_of_a_128_bit_value() {
    let value = BigInt::from(123456789012345678901234567890_u128);
    assert_eq!(value.to_decimal_string(), "123456789012345678901234567890");
}

#[test]
fn decimal_matches_the_host() {
    for value in [0u128, 1, 9, 10, 99, 100, 255, 65535, 1 << 64, u128::MAX, u128::MAX / 3] {
        assert_eq!(BigInt::from(value).to_decimal_string(), format!("{}", value));
    }
}

#[test]
fn decimal_of_large_powers_of_two() {
    let value = bigint_shl(BigInt::from(1u128), 256);
    assert_eq!(
        value.to_decimal_string(),
        "115792089237316195423570985008687907853269984665640564039457584007913129639936"
    );
    // the largest value has 617 decimal digits
    let max = BigInt { chunks: [u64::MAX; LIMBS] };
    let text = max.to_decimal_string();
    assert_eq!(text.len(), 617);
    assert!(text.starts_with("32317006071311007300714876688669951960444102669715"));
    assert!(text.ends_with("96230655"));
}

#[test]
fn binary_matches_the_host() {
    for value in [0u128, 1, 2, 3, 255, 256, 1 << 63, 1 << 64, u128::MAX, 0x1234_5678_9abc_def0] {
        assert_eq!(BigInt::from(value).to_binary_string(), format!("{:b}", value));
    }
}

#[test]
fn binary_of_the_largest_value() {
    let max = BigInt { chunks: [u64::MAX; LIMBS] };
    let text = max.to_binary_string();
    assert_eq!(text.len(), 2048);
    assert!(text.chars().all(|c| c == '1'));
}
