//! Conversions between [`BigInt`], machine integers and little-endian bytes.

use vstd::prelude::*;
use vstd::arithmetic::mul::*;
use vstd::arithmetic::power2::{
    lemma2_to64, lemma2_to64_rest, lemma_pow2_adds, lemma_pow2_pos, pow2,
};
use vstd::std_specs::convert::FromSpecImpl;
use crate::arith::{bigint_add, bigint_div, bigint_sub};
use crate::bigint::{BigInt, LIMBS, modulus};
use crate::limbs::{
    lemma_radix_pow_is_pow2, lemma_value_all_zero, lemma_value_high_zero, lemma_value_of_two,
    lemma_value_take_step, lemma_value_update, limbs_value, radix_pow,
};

verus! {

/// Number of bytes of a [`BigInt`].
pub const BYTES: usize = 256;

/// The number denoted by the bytes `s`, least significant byte first.
pub open spec fn bytes_value(s: Seq<u8>) -> nat
    decreases s.len(),
{
    if s.len() == 0 {
        0
    } else {
        bytes_value(s.drop_last()) + (s.last() as nat) * pow2((8 * (s.len() - 1)) as nat)
    }
}

/// Extending a prefix by one byte adds that byte at its weight.
pub proof fn lemma_bytes_take_step(s: Seq<u8>, i: int)
    requires
        0 <= i < s.len(),
    ensures
        bytes_value(s.take(i + 1)) == bytes_value(s.take(i)) + (s[i] as nat) * pow2(
            (8 * i) as nat,
        ),
{
    assert(s.take(i + 1).drop_last() =~= s.take(i));
}

/// A sequence of `n` bytes denotes a number below `2^(8 n)`.
pub proof fn lemma_bytes_bound(s: Seq<u8>)
    ensures
        bytes_value(s) < pow2((8 * s.len()) as nat),
    decreases s.len(),
{
    lemma2_to64();
    if s.len() > 0 {
        let k = (8 * (s.len() - 1)) as nat;
        lemma_bytes_bound(s.drop_last());
        lemma_pow2_adds(k, 8);
        lemma_pow2_pos(k);
        assert(bytes_value(s.drop_last()) + s.last() * pow2(k) < pow2(k) * 256)
            by (nonlinear_arith)
            requires
                bytes_value(s.drop_last()) < pow2(k),
                s.last() <= 255,
        ;
    }
}

impl From<u128> for BigInt {
    fn from(num: u128) -> (r: BigInt)
        ensures
            r@ == num,
    {
        let mut chunks: [u64; LIMBS] = [0; LIMBS];
        let low: u64 = #[verifier::truncate] ((num & 0xffff_ffff_ffff_ffff) as u64);
        let high: u64 = #[verifier::truncate] ((num >> 64) as u64);
        chunks[0] = low;
        chunks[1] = high;
        let r = BigInt { chunks };
        proof {
            assert(num == low + 0x1_0000_0000_0000_0000 * high) by (bit_vector)
                requires
                    low == (num & 0xffff_ffff_ffff_ffff) as u64,
                    high == (num >> 64) as u64,
            ;
            lemma_value_high_zero(r.chunks@, 2);
            lemma_value_of_two(r.chunks@.take(2));
            r.lemma_of_nat();
        }
        r
    }
}

impl FromSpecImpl<u128> for BigInt {
    open spec fn obeys_from_spec() -> bool {
        true
    }

    open spec fn from_spec(num: u128) -> BigInt {
        BigInt::of_nat(num as nat)
    }
}

/// The weight of byte `k` of limb `limb`.
proof fn lemma_byte_weight(limb: nat, k: nat)
    requires
        k < 8,
    ensures
        pow2(8 * (8 * limb + k)) == pow2(8 * k) * radix_pow(limb),
        pow2(8 * k) * 256 == pow2(8 * (k + 1)),
        0 < pow2(8 * k),
        pow2(8 * k) * 256 <= 0x1_0000_0000_0000_0000,
        k < 7 ==> pow2(8 * k) * 256 < 0x1_0000_0000_0000_0000,
        pow2(0) == 1,
{
    lemma2_to64();
    lemma2_to64_rest();
    lemma_radix_pow_is_pow2(limb);
    lemma_pow2_adds(8 * k, 64 * limb);
    lemma_pow2_adds(8 * k, 8);
    lemma_pow2_pos(8 * k);
    if k < 7 {
        vstd::arithmetic::power2::lemma_pow2_strictly_increases(8 * (k + 1), 64);
    }
}

/// Adding a byte into its limb adds it to the value at its weight.
proof fn lemma_byte_added(
    value: int,
    value2: int,
    shown: int,
    shown2: int,
    old_limb: int,
    byte: int,
    weight: int,
    place: int,
    whole: int,
)
    requires
        value == shown,
        value2 + old_limb * place == value + (old_limb + byte * weight) * place,
        whole == weight * place,
        shown2 == shown + byte * whole,
    ensures
        value2 == shown2,
{
    assert((old_limb + byte * weight) * place == old_limb * place + byte * (weight * place))
        by (nonlinear_arith);
}

impl BigInt {
    /// Reads a value from little-endian bytes, eight to a limb.
    pub fn from_bytes(bytes: &[u8]) -> (r: BigInt)
        requires
            bytes.len() % 8 == 0,
            bytes.len() <= BYTES,
        ensures
            r@ == bytes_value(bytes@),
            r == BigInt::of_nat(bytes_value(bytes@)),
    {
        let n = bytes.len();
        let mut chunks: [u64; LIMBS] = [0; LIMBS];
        let mut p: usize = 0;
        let mut k: usize = 0;
        let mut weight: u64 = 1;
        proof {
            lemma_value_all_zero(chunks@);
            lemma2_to64();
            assert(bytes_value(bytes@.take(0)) == 0);
        }
        while p < n
            invariant
                p <= n,
                n == bytes.len(),
                n % 8 == 0,
                n <= BYTES,
                k == p % 8,
                weight == pow2((8 * k) as nat),
                limbs_value(chunks@) == bytes_value(bytes@.take(p as int)),
                p < n ==> chunks[p as int / 8] < weight,
                forall|j: int| p / 8 < j < LIMBS ==> chunks[j] == 0,
            decreases n - p,
        {
            let i = p / 8;
            let old_limb = chunks[i];
            let byte = bytes[p];
            let ghost before = chunks@;
            proof {
                lemma_byte_weight(i as nat, k as nat);
                assert(byte as u64 * weight + old_limb < 0x1_0000_0000_0000_0000)
                    by (nonlinear_arith)
                    requires
                        byte <= 255,
                        old_limb < weight,
                        weight * 256 <= 0x1_0000_0000_0000_0000,
                ;
            }
            let limb: u64 = old_limb + (byte as u64) * weight;
            chunks[i] = limb;
            proof {
                lemma_value_update(before, i as int, limb);
                lemma_bytes_take_step(bytes@, p as int);
                assert(chunks@ =~= before.update(i as int, limb));
                lemma_byte_added(
                    limbs_value(before) as int,
                    limbs_value(chunks@) as int,
                    bytes_value(bytes@.take(p as int)) as int,
                    bytes_value(bytes@.take(p as int + 1)) as int,
                    old_limb as int,
                    byte as int,
                    weight as int,
                    radix_pow(i as nat) as int,
                    pow2((8 * p) as nat) as int,
                );
                assert(limb < weight * 256) by (nonlinear_arith)
                    requires
                        limb == old_limb + byte * weight,
                        byte <= 255,
                        old_limb < weight,
                ;
            }
            p += 1;
            if k == 7 {
                k = 0;
                weight = 1;
            } else {
                k += 1;
                weight = weight * 256;
            }
        }
        let r = BigInt { chunks };
        proof {
            assert(bytes@.take(n as int) =~= bytes@);
            r.lemma_of_nat();
        }
        r
    }

    /// A value of at most 1024 bits read from 128 bytes of entropy.
    pub fn random(entropy: &[u8]) -> (r: BigInt)
        requires
            entropy.len() == 128,
        ensures
            r@ == bytes_value(entropy@),
            r@ < pow2(1024),
    {
        proof {
            lemma_bytes_bound(entropy@);
        }
        BigInt::from_bytes(entropy)
    }
}

/// Taking the lowest byte off what is left of a limb keeps the total.
proof fn lemma_byte_taken(
    shown: int,
    shown2: int,
    rest: int,
    rest2: int,
    byte: int,
    weight: int,
    weight2: int,
    total: int,
)
    requires
        shown + rest * weight == total,
        rest == 256 * rest2 + byte,
        shown2 == shown + byte * weight,
        weight2 == weight * 256,
    ensures
        shown2 + rest2 * weight2 == total,
{
    assert(rest * weight == rest2 * weight2 + byte * weight) by (nonlinear_arith)
        requires
            rest == 256 * rest2 + byte,
            weight2 == weight * 256,
    ;
}

impl BigInt {
    /// Writes the value as `BYTES` little-endian bytes.
    pub fn to_bytes(&self) -> (r: Vec<u8>)
        ensures
            r.len() == BYTES,
            bytes_value(r@) == self@,
    {
        let mut out: Vec<u8> = Vec::new();
        let mut i: usize = 0;
        proof {
            assert(limbs_value(self.chunks@.take(0)) == 0);
        }
        while i < LIMBS
            invariant
                i <= LIMBS,
                out.len() == 8 * i,
                bytes_value(out@) == limbs_value(self.chunks@.take(i as int)),
            decreases LIMBS - i,
        {
            let mut rest: u64 = self.chunks[i];
            let mut k: usize = 0;
            proof {
                lemma_value_take_step(self.chunks@, i as int);
                lemma_radix_pow_is_pow2(i as nat);
                lemma2_to64();
            }
            while k < 8
                invariant
                    i < LIMBS,
                    k <= 8,
                    out.len() == 8 * i + k,
                    rest < pow2((64 - 8 * k) as nat),
                    bytes_value(out@) + rest * pow2((8 * (8 * i + k)) as nat) == limbs_value(
                        self.chunks@.take(i as int + 1),
                    ),
                decreases 8 - k,
            {
                let byte: u8 = (rest % 256) as u8;
                let next: u64 = rest / 256;
                let ghost before = out@;
                out.push(byte);
                proof {
                    let len = (8 * i + k) as nat;
                    assert(out@.drop_last() =~= before);
                    lemma_pow2_adds(8 * len, 8);
                    lemma_pow2_adds((64 - 8 * (k + 1)) as nat, 8);
                    lemma2_to64();
                    lemma_byte_taken(
                        bytes_value(before) as int,
                        bytes_value(out@) as int,
                        rest as int,
                        next as int,
                        byte as int,
                        pow2(8 * len) as int,
                        pow2(8 * (len + 1)) as int,
                        limbs_value(self.chunks@.take(i as int + 1)) as int,
                    );
                }
                rest = next;
                k += 1;
            }
            proof {
                lemma2_to64();
                lemma_mul_basics(pow2((8 * (8 * i + 8)) as nat) as int);
            }
            i += 1;
        }
        proof {
            assert(self.chunks@.take(LIMBS as int) =~= self.chunks@);
        }
        out
    }
}

/// Reading back the bytes that a value was written to gives that value:
/// the bytes denote the value's number, and the value read from them is
/// the one that denotes the bytes' number.
pub proof fn lemma_bytes_round_trip(a: BigInt, bytes: Seq<u8>)
    requires
        bytes_value(bytes) == a@,
    ensures
        BigInt::of_nat(bytes_value(bytes)) == a,
{
    a.lemma_of_nat();
}

impl BigInt {
    /// A value between `min` and `max`, both included, chosen by the
    /// entropy: `min` plus the number that the bytes denote, reduced modulo
    /// the size of the range.
    pub fn random_range(min: BigInt, max: BigInt, entropy: &[u8]) -> (r: BigInt)
        requires
            min@ <= max@,
            max@ - min@ + 1 < modulus(),
            entropy.len() % 8 == 0,
            entropy.len() <= BYTES,
        ensures
            r@ == min@ + bytes_value(entropy@) % ((max@ - min@ + 1) as nat),
            min@ <= r@ <= max@,
    {
        let span = bigint_sub(max, min).increase();
        let raw = BigInt::from_bytes(entropy);
        let offset = bigint_div(raw, span).1;
        proof {
            max.lemma_in_range();
        }
        bigint_add(min, offset)
    }
}

} // verus!
