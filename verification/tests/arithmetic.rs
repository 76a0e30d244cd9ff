use primegen::arith::{
    bigint_add, bigint_div, bigint_mul, bigint_shl, bigint_shr, bigint_sub, checked_add,
    checked_div_rem, checked_mul, checked_sub,
};
use primegen::bigint::{BigInt, LIMBS};
use primegen::bytes::BYTES;

fn big(limbs: &[u64]) -> BigInt {
    let mut chunks = [0u64; LIMBS];
    chunks[..limbs.len()].copy_from_slice(limbs);
    BigInt { chunks }
}

fn pow2(exponent: usize) -> BigInt {
    bigint_shl(BigInt::from(1u128), exponent)
}

fn max_value() -> BigInt {
    BigInt { chunks: [u64::MAX; LIMBS] }
}

#[test]
fn small_product_quotient_remainder() {
    let product = BigInt::from(7u128) * BigInt::from(9u128);
    assert!(product == BigInt::from(63u128));
    assert!(BigInt::from(63u128) / BigInt::from(9u128) == BigInt::from(7u128));
    assert!(BigInt::from(63u128) % BigInt::from(9u128) == BigInt::from(0u128));
}

#[test]
fn division_stress_identity() {
    // a = 2^256 - 1 = (2^128 - 1) * (2^128 + 1)
    let a = big(&[u64::MAX, u64::MAX, u64::MAX, u64::MAX]);
    let b = big(&[1, 0, 1]);
    let (q, r) = bigint_div(a, b);
    assert!(bigint_add(bigint_mul(q, b), r) == a);
    assert!(r < b);
    assert!(q == big(&[u64::MAX, u64::MAX]));
    assert!(r.is_zero());
}

#[test]
fn division_stress_remainder_two() {
    // 2^256 + 1 leaves 2 when divided by 2^128 + 1
    let a = big(&[1, 0, 0, 0, 1]);
    let b = big(&[1, 0, 1]);
    let (q, r) = bigint_div(a, b);
    assert!(bigint_add(bigint_mul(q, b), r) == a);
    assert!(r == BigInt::from(2u128));
    assert!(q == big(&[u64::MAX, u64::MAX]));
}

#[test]
fn add_then_sub_gives_back() {
    let a = big(&[u64::MAX, u64::MAX, 5, 0, 9]);
    let b = big(&[1, u64::MAX, u64::MAX, 7]);
    let sum = a + b;
    assert!(sum - b == a);
    assert!(sum - a == b);
    assert!(sum == big(&[0, u64::MAX, 5, 8, 9]));
}

#[test]
fn mul_then_div_gives_back() {
    let a = big(&[0x1234_5678_9abc_def0, 0xfedc_ba98_7654_3210, 77]);
    let b = big(&[0xdead_beef, 0, 0, 0xffff_ffff_ffff_ffff]);
    let product = a * b;
    assert!(product / b == a);
    assert!((product % b).is_zero());
    assert!(product / a == b);
}

#[test]
fn quotient_and_remainder_rebuild_dividend() {
    let a = big(&[3, 1, 4, 1, 5, 9, 2, 6, 5, 3, 5, 8, 9, 7, 9, 3]);
    let b = big(&[2, 7, 1, 8, 2, 8, 1, 8]);
    let (q, r) = bigint_div(a, b);
    assert!(r < b);
    assert!(bigint_add(bigint_mul(q, b), r) == a);
    assert!(a / b == q);
    assert!(a % b == r);
}

#[test]
fn division_with_full_width_dividend() {
    // the dividend uses every bit, so scaling it needs an extra limb
    let a = max_value();
    let b = BigInt::from(3u128);
    let (q, r) = bigint_div(a, b);
    assert!(r.is_zero());
    assert!(q == BigInt { chunks: [0x5555_5555_5555_5555; LIMBS] });

    let c = big(&[0, 1]);
    let (q2, r2) = bigint_div(a, c);
    let mut expected = [u64::MAX; LIMBS];
    expected[LIMBS - 1] = 0;
    assert!(q2 == BigInt { chunks: expected });
    assert!(r2 == BigInt::from(u64::MAX as u128));

    // multiplication refuses to rebuild a full-width dividend, so the
    // quotient is checked from the other side
    let d = big(&[7, 0, 0, 5]);
    let (q3, r3) = bigint_div(a, d);
    assert!(r3 < d);
    assert!(checked_mul(q3, d).is_none());
    let (q4, r4) = bigint_div(bigint_sub(a, r3), q3);
    assert!(q4 == d && r4.is_zero());
}

#[test]
fn division_needs_a_correction_step() {
    // the first guess of the quotient digit is one too large here
    let a = big(&[0, 0, 0x8000_0000_0000_0000, 0x7fff_ffff_ffff_ffff]);
    let b = big(&[u64::MAX, u64::MAX, 0x8000_0000_0000_0000]);
    let (q, r) = bigint_div(a, b);
    assert!(r < b);
    assert!(bigint_add(bigint_mul(q, b), r) == a);
}

#[test]
fn division_edge_cases() {
    let five = BigInt::from(5u128);
    let (q, r) = bigint_div(BigInt::zero(), five);
    assert!(q.is_zero() && r.is_zero());
    let (q, r) = bigint_div(BigInt::from(3u128), five);
    assert!(q.is_zero() && r == BigInt::from(3u128));
    let (q, r) = bigint_div(five, five);
    assert!(q == BigInt::from(1u128) && r.is_zero());
    assert!(checked_div_rem(five, BigInt::zero()).is_none());
    assert!(checked_div_rem(five, BigInt::from(2u128)).is_some());
}

#[test]
fn subtraction_edge_cases() {
    assert!(bigint_sub(BigInt::zero(), BigInt::zero()).is_zero());
    let a = big(&[9, 8, 7]);
    assert!(bigint_sub(a, a).is_zero());
    assert!(checked_sub(BigInt::from(1u128), BigInt::from(2u128)).is_none());
    assert!(checked_sub(BigInt::from(2u128), BigInt::from(1u128)).unwrap() == BigInt::from(1u128));
    // the borrow runs through zero limbs
    assert!(bigint_sub(big(&[0, 0, 1]), BigInt::from(1u128)) == big(&[u64::MAX, u64::MAX]));
}

#[test]
fn addition_overflow_is_detected() {
    assert!(checked_add(max_value(), BigInt::from(1u128)).is_none());
    assert!(checked_add(max_value(), BigInt::zero()).unwrap() == max_value());
    // the carry runs through full limbs
    assert!(
        bigint_add(big(&[u64::MAX, u64::MAX]), BigInt::from(1u128)) == big(&[0, 0, 1])
    );
}

#[test]
fn multiplication_by_zero_never_fails() {
    assert!(checked_mul(BigInt::zero(), max_value()).unwrap().is_zero());
    assert!(checked_mul(max_value(), BigInt::zero()).unwrap().is_zero());
    assert!(bigint_mul(BigInt::zero(), BigInt::zero()).is_zero());
}

#[test]
fn multiplication_tests_operand_sizes() {
    // top limb indices 15 and 15: 15 + 15 + 1 < 32
    let a = pow2(64 * 15);
    assert!(checked_mul(a, a).unwrap() == pow2(64 * 30));
    // top limb indices 16 and 15: refused
    let b = pow2(64 * 16);
    assert!(checked_mul(b, a).is_none());
    // the product would fit, yet the sizes are refused
    let c = pow2(64 * 31);
    assert!(checked_mul(c, BigInt::from(1u128)).is_none());
}

#[test]
fn multiplication_exact_value() {
    let a = BigInt::from(u128::MAX);
    let square = a * a;
    // (2^128 - 1)^2 = 2^256 - 2^129 + 1
    assert!(square == big(&[1, 0, u64::MAX - 1, u64::MAX]));
}

#[test]
fn shifts_by_zero_are_identity() {
    let a = big(&[1, 2, 3, 4]);
    assert!(bigint_shl(a, 0) == a);
    assert!(bigint_shr(a, 0) == a);
}

#[test]
fn shifts_by_the_width_give_zero() {
    let a = max_value();
    assert!(bigint_shl(a, 64 * LIMBS).is_zero());
    assert!(bigint_shr(a, 64 * LIMBS).is_zero());
    assert!(bigint_shl(a, 64 * LIMBS + 77).is_zero());
    assert!(bigint_shr(a, usize::MAX).is_zero());
}

#[test]
fn shift_left_then_right_gives_back() {
    let a = big(&[0xdead_beef_cafe_f00d, 0x0123_4567_89ab_cdef, 0x00ff]);
    for amount in [0usize, 1, 7, 63, 64] {
        assert!(bigint_shr(bigint_shl(a, amount), amount) == a);
    }
    // beyond one limb too
    for amount in [65usize, 128, 200, 1800] {
        assert!(bigint_shr(bigint_shl(a, amount), amount) == a);
    }
}

#[test]
fn shift_exact_values() {
    let a = big(&[0x8000_0000_0000_0001]);
    assert!(bigint_shl(a, 1) == big(&[2, 1]));
    assert!(bigint_shl(a, 64) == big(&[0, 0x8000_0000_0000_0001]));
    assert!(bigint_shl(a, 65) == big(&[0, 2, 1]));
    assert!(bigint_shr(big(&[0, 2, 1]), 65) == a);
    assert!(bigint_shr(big(&[5, 6]), 64) == big(&[6]));
    assert!(bigint_shr(big(&[5, 6]), 1) == big(&[2, 3]));
    // bits pushed past the top are dropped
    let top = pow2(64 * LIMBS - 1);
    assert!(bigint_shl(top, 1).is_zero());
    assert!(bigint_shl(bigint_add(top, BigInt::from(1u128)), 1) == BigInt::from(2u128));
}

#[test]
fn comparison_orders_by_value() {
    let a = big(&[u64::MAX, 0, 1]);
    let b = big(&[0, 1, 1]);
    let c = big(&[0, 0, 2]);
    assert!(a < b && b < c && a < c);
    assert!(c > a && !(a > b));
    assert!(a <= a && a >= a && a == a);
    assert!(a != b);
    assert!(BigInt::zero() < BigInt::from(1u128));
    // adding the same value keeps the order
    let d = big(&[7, 7, 7, 7]);
    assert!(a + d < b + d);
}

#[test]
fn single_word_steps() {
    let a = big(&[u64::MAX, u64::MAX, 3]);
    assert!(a.increase() == big(&[0, 0, 4]));
    assert!(a.increase_by_2() == big(&[1, 0, 4]));
    assert!(a.add_u64(u64::MAX) == big(&[u64::MAX - 1, 0, 4]));
    assert!(big(&[0, 0, 4]).decrease() == a);
    assert!(big(&[1, 0, 4]).sub_u64(2) == a);
    assert!(BigInt::from(5u128).sub_u64(5).is_zero());
    assert!(BigInt::zero().add_u64(0).is_zero());
    // a carry into the top limb is no overflow
    let mut high = [u64::MAX; LIMBS];
    high[LIMBS - 1] = 0;
    let mut next = [0u64; LIMBS];
    next[LIMBS - 1] = 1;
    assert!(BigInt { chunks: high }.increase() == BigInt { chunks: next });
}

#[test]
fn size_and_parity() {
    assert_eq!(BigInt::zero().size(), 0);
    assert_eq!(BigInt::from(1u128).size(), 0);
    assert_eq!(BigInt::from(u128::MAX).size(), 1);
    assert_eq!(max_value().size(), LIMBS - 1);
    assert!(BigInt::zero().is_zero() && BigInt::zero().is_even());
    assert!(!BigInt::from(1u128).is_even());
    assert!(big(&[2, 1]).is_even());
    assert!(!big(&[0, 1]).is_zero());
}

#[test]
fn bytes_round_trip() {
    let a = big(&[0x0102_0304_0506_0708, 0x090a_0b0c_0d0e_0f10, 0, 0xffee_ddcc_bbaa_9988]);
    let bytes = a.to_bytes();
    assert_eq!(bytes.len(), BYTES);
    assert_eq!(&bytes[..9], &[0x08, 0x07, 0x06, 0x05, 0x04, 0x03, 0x02, 0x01, 0x10]);
    assert!(BigInt::from_bytes(&bytes) == a);
    assert!(BigInt::from_bytes(&max_value().to_bytes()) == max_value());
    assert!(BigInt::from_bytes(&[]).is_zero());
    let short = [1u8, 0, 0, 0, 0, 0, 0, 0, 2, 0, 0, 0, 0, 0, 0, 0x80];
    assert!(BigInt::from_bytes(&short) == big(&[1, 0x8000_0000_0000_0002]));
}

#[test]
fn bits_are_read_by_position() {
    let a = big(&[0b101, 0x8000_0000_0000_0000]);
    assert!(a.bit_at(0) && !a.bit_at(1) && a.bit_at(2));
    assert!(a.bit_at(127) && !a.bit_at(126) && !a.bit_at(128));
    assert!(!a.bit_at(64 * LIMBS - 1));
    assert!(max_value().bit_at(64 * LIMBS - 1));
}

#[test]
fn modify_forces_top_and_bottom_bit() {
    let mut a = big(&[4, 9]);
    a.modify();
    let mut expected = [0u64; LIMBS];
    expected[0] = 5;
    expected[1] = 9;
    expected[15] = 0x8000_0000_0000_0000;
    assert!(a == BigInt { chunks: expected });
    assert!(!a.is_even());
    assert_eq!(a.size(), 15);
    let mut b = a;
    b.modify();
    assert!(b == a);
    let mut c = BigInt::from(8u128);
    c.force_width(1);
    assert!(c == BigInt::from(0x8000_0000_0000_0009u128));
}

#[test]
fn random_reads_128_bytes() {
    let mut entropy = [0u8; 128];
    entropy[0] = 7;
    entropy[127] = 0x40;
    let mut expected = [0u64; LIMBS];
    expected[0] = 7;
    expected[15] = 0x4000_0000_0000_0000;
    assert!(BigInt::random(&entropy) == BigInt { chunks: expected });
}

#[test]
fn random_range_reduces_into_the_range() {
    let min = BigInt::from(2u128);
    let max = BigInt::from(11u128);
    let mut entropy = [0u8; 8];
    entropy[0] = 25;
    // 2 + 25 mod 10
    assert!(BigInt::random_range(min, max, &entropy) == BigInt::from(7u128));
    entropy[0] = 9;
    assert!(BigInt::random_range(min, max, &entropy) == BigInt::from(11u128));
    entropy[0] = 10;
    assert!(BigInt::random_range(min, max, &entropy) == min);
    assert!(BigInt::random_range(max, max, &[0xffu8; 16]) == max);
}
