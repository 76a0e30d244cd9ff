use primegen::algos::{
    fermat_test_u128, isqrt, miller_rabin_round, miller_rabin_test, miller_rabin_test_u128,
    split_twos, split_twos_u128, trial_division, trial_division_simple, PrimeResult,
};
use primegen::bigint::{BigInt, LIMBS};
use primegen::bytes::BYTES;
use primegen::rng;
use primegen::utils::{generate_small_primes, mod_exp, mod_exp_u128, mul_mod};

/// A small deterministic byte source standing in for the randomness oracle.
struct Source {
    state: u64,
}

impl Source {
    fn new(seed: u64) -> Source {
        Source { state: seed }
    }

    fn next(&mut self) -> u64 {
        self.state ^= self.state << 13;
        self.state ^= self.state >> 7;
        self.state ^= self.state << 17;
        self.state
    }

    fn fill(&mut self, len: usize) -> Vec<u8> {
        let mut out = Vec::with_capacity(len);
        while out.len() < len {
            out.extend_from_slice(&self.next().to_le_bytes());
        }
        out.truncate(len);
        out
    }

    /// Witnesses between 2 and `n - 2`.
    fn witnesses(&mut self, n: u128, count: usize) -> Vec<u128> {
        (0..count).map(|_| 2 + (self.next() as u128) % (n - 3)).collect()
    }

    /// Witnesses strictly between 2 and `n - 2`, drawn again until one fits.
    fn drawn_witnesses(&mut self, n: u128, count: usize) -> Vec<u128> {
        let mut out = Vec::new();
        while out.len() < count {
            if let Some(x) = rng::u128_range(2, n - 2, self.next().to_le_bytes()) {
                out.push(x);
            }
        }
        out
    }
}

fn big(limbs: &[u64]) -> BigInt {
    let mut chunks = [0u64; LIMBS];
    chunks[..limbs.len()].copy_from_slice(limbs);
    BigInt { chunks }
}

/// `2^exponent - 1`.
fn mersenne(exponent: usize) -> BigInt {
    let mut chunks = [0u64; LIMBS];
    for i in 0..exponent / 64 {
        chunks[i] = u64::MAX;
    }
    if exponent % 64 != 0 {
        chunks[exponent / 64] = (1u64 << (exponent % 64)) - 1;
    }
    BigInt { chunks }
}

#[test]
fn mod_exp_special_exponents_and_moduli() {
    let a = big(&[0x1234_5678, 99]);
    let m = big(&[1000, 1]);
    assert!(mod_exp(a, BigInt::zero(), m) == BigInt::from(1u128));
    assert!(mod_exp(a, BigInt::from(1u128), m) == a % m);
    assert!(mod_exp(a, big(&[5, 5]), BigInt::from(1u128)).is_zero());
    assert!(mod_exp(BigInt::zero(), BigInt::zero(), m) == BigInt::from(1u128));
    assert_eq!(mod_exp_u128(12345, 0, 97), 1);
    assert_eq!(mod_exp_u128(12345, 1, 97), 12345 % 97);
    assert_eq!(mod_exp_u128(12345, 678, 1), 0);
}

#[test]
fn mod_exp_exact_values() {
    assert_eq!(mod_exp_u128(4, 13, 497), 445);
    assert_eq!(mod_exp_u128(2, 10, 1000), 24);
    assert_eq!(mod_exp_u128(3, 200, 1 << 64), 6627890308811632801);
    assert!(
        mod_exp(BigInt::from(4u128), BigInt::from(13u128), BigInt::from(497u128))
            == BigInt::from(445u128)
    );
    // 2^200 mod (2^127 - 1) = 2^73
    assert!(
        mod_exp(BigInt::from(2u128), BigInt::from(200u128), mersenne(127))
            == BigInt::from(1u128 << 73)
    );
}

#[test]
fn mod_exp_matches_machine_words() {
    let mut source = Source::new(0x0123_4567_89ab_cdef);
    for _ in 0..25 {
        let base = source.next() as u128;
        let exponent = source.next() as u128;
        let modulus = (source.next() as u128) | 1;
        let expected = mod_exp_u128(base, exponent, modulus);
        let got = mod_exp(BigInt::from(base), BigInt::from(exponent), BigInt::from(modulus));
        assert!(got == BigInt::from(expected));
    }
}

#[test]
fn mul_mod_exact_value() {
    let m = mersenne(127);
    let a = BigInt::from(1u128 << 100);
    // 2^200 mod (2^127 - 1) = 2^73
    assert!(mul_mod(a, a, m) == BigInt::from(1u128 << 73));
}

#[test]
fn fermat_holds_for_known_primes() {
    let mut source = Source::new(0xfeed_face_0bad_f00d);
    for exponent in [61usize, 89, 107, 127, 521] {
        let p = mersenne(exponent);
        let p_minus_1 = p.decrease();
        for _ in 0..3 {
            let a = BigInt::random_range(BigInt::from(2u128), p.sub_u64(2), &source.fill(BYTES));
            assert!(mod_exp(a, p_minus_1, p) == BigInt::from(1u128));
        }
    }
    for p in [5u128, 7, 104729, 2147483647, (1 << 61) - 1, 18446744073709551557] {
        for a in source.witnesses(p, 3) {
            assert_eq!(mod_exp_u128(a, p - 1, p), 1);
        }
        assert_eq!(fermat_test_u128(p, 3, &source.witnesses(p, 3)), PrimeResult::ProbablePrime);
    }
}

#[test]
fn miller_rabin_accepts_known_primes() {
    let mut source = Source::new(0x1357_9bdf_0246_8ace);
    for exponent in [61usize, 89, 107, 127] {
        let p = mersenne(exponent);
        for k in [0usize, 1, 5] {
            let entropy = source.fill(k * BYTES);
            assert_eq!(miller_rabin_test(p, k, &entropy), PrimeResult::ProbablePrime);
        }
    }
    let small = [5u128, 7, 11, 13, 104729, 2147483647, (1 << 61) - 1, 18446744073709551557];
    for p in small {
        let witnesses = source.witnesses(p, 8);
        assert_eq!(miller_rabin_test_u128(p, 8, &witnesses), PrimeResult::ProbablePrime);
        assert_eq!(
            miller_rabin_test(BigInt::from(p), 4, &source.fill(4 * BYTES)),
            PrimeResult::ProbablePrime
        );
    }
}

#[test]
fn miller_rabin_on_the_mersenne_prime_521() {
    let mut source = Source::new(0x5a5a_a5a5_1234_8765);
    let p = mersenne(521);
    let entropy = source.fill(10 * BYTES);
    assert_eq!(miller_rabin_test(p, 10, &entropy), PrimeResult::ProbablePrime);
}

#[test]
fn miller_rabin_rejects_carmichael_561() {
    let mut source = Source::new(0x0f1e_2d3c_4b5a_6978);
    let entropy = source.fill(10 * BYTES);
    assert_eq!(miller_rabin_test(BigInt::from(561u128), 10, &entropy), PrimeResult::Composite);
    let witnesses = source.witnesses(561, 10);
    assert_eq!(miller_rabin_test_u128(561, 10, &witnesses), PrimeResult::Composite);
}

#[test]
fn miller_rabin_rejects_known_composites() {
    let mut source = Source::new(0x7777_3333_1111_9999);
    for c in [561u128, 41041, 825265, 321197185, (1 << 61) + 1, 18446744073709551557 * 3] {
        let entropy = source.fill(40 * BYTES);
        assert_eq!(miller_rabin_test(BigInt::from(c), 40, &entropy), PrimeResult::Composite);
    }
    for c in [561u128, 41041, 825265, 321197185] {
        let witnesses = source.witnesses(c, 40);
        assert_eq!(miller_rabin_test_u128(c, 40, &witnesses), PrimeResult::Composite);
    }
    let large = (1u128 << 61) + 1;
    let witnesses = source.drawn_witnesses(large, 40);
    assert_eq!(miller_rabin_test_u128(large, 40, &witnesses), PrimeResult::Composite);
    let prime = (1u128 << 61) - 1;
    let witnesses = source.drawn_witnesses(prime, 40);
    assert_eq!(miller_rabin_test_u128(prime, 40, &witnesses), PrimeResult::ProbablePrime);
    // a product of two Mersenne primes
    let product = mersenne(89) * mersenne(107);
    let entropy = source.fill(40 * BYTES);
    assert_eq!(miller_rabin_test(product, 40, &entropy), PrimeResult::Composite);
}

#[test]
fn miller_rabin_round_by_witness() {
    // 561 - 1 = 2^4 * 35
    let n = BigInt::from(561u128);
    let (s, d) = split_twos(n.decrease());
    assert_eq!(s, 4);
    assert!(d == BigInt::from(35u128));
    assert_eq!(split_twos_u128(560), (4, 35));
    // 2 is a Fermat liar for 561 but no strong liar; 50 is a strong liar
    assert_eq!(mod_exp_u128(2, 560, 561), 1);
    assert!(!miller_rabin_round(n, s, d, BigInt::from(2u128)));
    assert!(miller_rabin_round(n, s, d, BigInt::from(50u128)));
    assert!(miller_rabin_round(n, s, d, BigInt::from(1u128)));
    assert!(miller_rabin_round(n, s, d, BigInt::from(560u128)));
    // the witness of a round is 2 + raw mod (n - 3)
    let mut entropy = vec![0u8; 2 * BYTES];
    entropy[0] = 48; // 2 + 48 = 50
    entropy[BYTES] = 0; // 2
    assert_eq!(miller_rabin_test(n, 1, &entropy), PrimeResult::ProbablePrime);
    assert_eq!(miller_rabin_test(n, 2, &entropy), PrimeResult::Composite);
    assert_eq!(miller_rabin_test(n, 0, &entropy), PrimeResult::ProbablePrime);
}

#[test]
fn fermat_test_by_witness() {
    // 561 is a Carmichael number: every witness coprime to it passes
    assert_eq!(fermat_test_u128(561, 3, &[2, 5, 7]), PrimeResult::ProbablePrime);
    assert_eq!(fermat_test_u128(561, 3, &[2, 3, 7]), PrimeResult::Composite);
    assert_eq!(fermat_test_u128(15, 1, &[2]), PrimeResult::Composite);
    assert_eq!(fermat_test_u128(13, 4, &[2, 3, 5, 7]), PrimeResult::ProbablePrime);
    assert_eq!(fermat_test_u128(15, 0, &[]), PrimeResult::ProbablePrime);
}

#[test]
fn integer_square_root() {
    assert_eq!(isqrt(0), 0);
    assert_eq!(isqrt(1), 1);
    assert_eq!(isqrt(3), 1);
    assert_eq!(isqrt(4), 2);
    assert_eq!(isqrt(99), 9);
    assert_eq!(isqrt(100), 10);
    assert_eq!(isqrt(u64::MAX), 0xffff_ffff);
    assert_eq!(isqrt(0xffff_fffe_0000_0001), 0xffff_ffff);
    assert_eq!(isqrt(0xffff_fffe_0000_0000), 0xffff_fffe);
}

#[test]
fn trial_division_on_the_wheel() {
    for p in [5u64, 7, 11, 13, 97, 104729, 2147483647] {
        assert_eq!(trial_division(p, 5), PrimeResult::Prime);
    }
    for c in [9u64, 15, 25, 35, 49, 121, 169, 104729 * 3, 2147483647 * 5, 999999000001 * 7] {
        assert_eq!(trial_division(c, 5), PrimeResult::Composite);
    }
    // a wheel that starts past the smallest factor misses it
    assert_eq!(trial_division(25, 11), PrimeResult::Prime);
    assert_eq!(trial_division(7 * 7, 5), PrimeResult::Composite);
    assert_eq!(trial_division(11 * 13, 11), PrimeResult::Composite);
}

#[test]
fn simple_trial_division() {
    // divisors are tried from 3 to just below the square root
    assert_eq!(trial_division_simple(32771), PrimeResult::Prime);
    assert_eq!(trial_division_simple(32769), PrimeResult::Composite);
    assert_eq!(trial_division_simple(65521), PrimeResult::Prime);
    assert_eq!(trial_division_simple(65535), PrimeResult::Composite);
    assert_eq!(trial_division_simple(15), PrimeResult::Prime);
    assert_eq!(trial_division_simple(63), PrimeResult::Composite);
    // the square of a prime escapes: its only divisor is the root itself
    assert_eq!(trial_division_simple(193 * 193), PrimeResult::Prime);
}

#[test]
fn small_prime_table() {
    let table = generate_small_primes::<10>().unwrap();
    assert_eq!(table, [2, 3, 5, 7, 11, 13, 17, 19, 23, 29]);
    let pair = generate_small_primes::<2>().unwrap();
    assert_eq!(pair, [2, 3]);
    let large = generate_small_primes::<5000>().unwrap();
    assert_eq!(large[4999], 48611);
    assert_eq!(large[999], 7919);
    assert!(large.windows(2).all(|w| w[0] < w[1]));
}
