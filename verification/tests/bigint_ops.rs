use primegen::bigint::BigInt;
use primegen::rng;

/// A small deterministic byte source standing in for the randomness oracle.
struct Source {
    state: u64,
}

impl Source {
    fn new(seed: u64) -> Source {
        Source { state: seed }
    }

    fn next(&mut self) -> u64 {
        self.state ^= self.state << 13;
        self.state ^= self.state >> 7;
        self.state ^= self.state << 17;
        self.state
    }

    fn bytes8(&mut self) -> [u8; 8] {
        self.next().to_le_bytes()
    }

    fn bytes16(&mut self) -> [u8; 16] {
        let mut out = [0u8; 16];
        out[..8].copy_from_slice(&self.bytes8());
        out[8..].copy_from_slice(&self.bytes8());
        out
    }

    fn range(&mut self, min: u128, max: u128) -> u128 {
        loop {
            if let Some(x) = rng::u128_range(min, max, self.bytes8()) {
                return x;
            }
        }
    }
}

const ROUNDS: usize = 50;

#[test]
fn from_u128() {
    let mut source = Source::new(0x9e3779b97f4a7c15);
    for _ in 0..ROUNDS {
        let num = rng::u128(source.bytes16());
        assert_eq!(format!("{:b}", num), BigInt::from(num).to_binary_string());
    }
}

#[test]
fn add() {
    let mut source = Source::new(0x1234_5678_9abc_def1);
    for _ in 0..ROUNDS {
        let num1 = rng::u64(source.bytes8()) as u128;
        let num2 = rng::u64(source.bytes8()) as u128;
        let expected = num1 + num2;
        let test = BigInt::from(num1) + BigInt::from(num2);
        assert_eq!(format!("{:b}", expected), test.to_binary_string());
    }
}

#[test]
fn add_assign() {
    let mut source = Source::new(0x0bad_cafe_dead_beef);
    for _ in 0..ROUNDS {
        let num1 = rng::u64(source.bytes8()) as u128;
        let num2 = rng::u64(source.bytes8()) as u128;
        let expected = num1 + num2;
        let mut n = BigInt::from(num1);
        n += BigInt::from(num2);
        assert_eq!(format!("{:b}", expected), n.to_binary_string());
    }
}

#[test]
fn sub() {
    let mut source = Source::new(0x2545_f491_4f6c_dd1d);
    for _ in 0..ROUNDS {
        let num1 = rng::u64(source.bytes8()) as u128;
        let num2 = source.range(1, num1);
        let expected = num1 - num2;
        let test = BigInt::from(num1) - BigInt::from(num2);
        assert_eq!(format!("{:b}", expected), test.to_binary_string());
    }
}

#[test]
fn sub_assign() {
    let mut source = Source::new(0x7fff_0123_4567_89ab);
    for _ in 0..ROUNDS {
        let num1 = rng::u64(source.bytes8()) as u128;
        let num2 = source.range(1, num1);
        let expected = num1 - num2;
        let mut n = BigInt::from(num1);
        n -= BigInt::from(num2);
        assert_eq!(format!("{:b}", expected), n.to_binary_string());
    }
}

#[test]
fn shl() {
    let mut source = Source::new(0x1111_2222_3333_4444);
    for _ in 0..ROUNDS {
        let num1 = rng::u64(source.bytes8()) as u128;
        let amount = 10;
        let expected = num1 << amount;
        let test = BigInt::from(num1) << amount;
        assert_eq!(format!("{:b}", expected), test.to_binary_string());
    }
}

#[test]
fn shl_assign() {
    let mut source = Source::new(0x5555_6666_7777_8888);
    for _ in 0..ROUNDS {
        let num1 = rng::u64(source.bytes8()) as u128;
        let amount = 10;
        let expected = num1 << amount;
        let mut n = BigInt::from(num1);
        n <<= amount;
        assert_eq!(format!("{:b}", expected), n.to_binary_string());
    }
}

#[test]
fn shr() {
    let mut source = Source::new(0x9999_aaaa_bbbb_cccc);
    for _ in 0..ROUNDS {
        let num1 = rng::u64(source.bytes8()) as u128;
        let amount = 10;
        let expected = num1 >> amount;
        let test = BigInt::from(num1) >> amount;
        assert_eq!(format!("{:b}", expected), test.to_binary_string());
    }
}

#[test]
fn shr_assign() {
    let mut source = Source::new(0xdddd_eeee_ffff_0001);
    for _ in 0..ROUNDS {
        let num1 = rng::u64(source.bytes8()) as u128;
        let amount = 10;
        let expected = num1 >> amount;
        let mut n = BigInt::from(num1);
        n >>= amount;
        assert_eq!(format!("{:b}", expected), n.to_binary_string());
    }
}

#[test]
fn mul() {
    let mut source = Source::new(0x0f0f_f0f0_1234_4321);
    for _ in 0..ROUNDS {
        let num1 = rng::u64(source.bytes8()) as u128;
        let num2 = rng::u64(source.bytes8()) as u128;
        let expected = num1 * num2;
        let test = BigInt::from(num1) * BigInt::from(num2);
        assert_eq!(format!("{:b}", expected), test.to_binary_string());
    }
}

#[test]
fn mul_assign() {
    let mut source = Source::new(0x6a09_e667_f3bc_c908);
    for _ in 0..ROUNDS {
        let num1 = rng::u64(source.bytes8()) as u128;
        let num2 = rng::u64(source.bytes8()) as u128;
        let expected = num1 * num2;
        let mut n = BigInt::from(num1);
        n *= BigInt::from(num2);
        assert_eq!(format!("{:b}", expected), n.to_binary_string());
    }
}

#[test]
fn div() {
    let mut source = Source::new(0xbb67_ae85_84ca_a73b);
    for _ in 0..ROUNDS {
        let num1 = rng::u64(source.bytes8()) as u128;
        let num2 = (rng::u64(source.bytes8()) as u16) as u128;
        let expected = num1 / num2;
        let test = BigInt::from(num1) / BigInt::from(num2);
        assert_eq!(format!("{:b}", expected), test.to_binary_string());
    }
}

#[test]
fn div_assign() {
    let mut source = Source::new(0x3c6e_f372_fe94_f82b);
    for _ in 0..ROUNDS {
        let num1 = rng::u64(source.bytes8()) as u128;
        let num2 = (rng::u64(source.bytes8()) as u16) as u128;
        let expected = num1 / num2;
        let mut n = BigInt::from(num1);
        n /= BigInt::from(num2);
        assert_eq!(format!("{:b}", expected), n.to_binary_string());
    }
}
