//! Machine integers read from the bytes of a randomness source.
//!
//! Nothing here draws randomness: the caller fills a buffer from its
//! source and hands it over; these functions say which number the
//! buffer denotes, reading it least significant byte first.

use vstd::prelude::*;
use vstd::arithmetic::power2::{
    lemma2_to64, lemma_pow2_adds, lemma_pow2_pos, lemma_pow2_strictly_increases, pow2,
};
use crate::bytes::{bytes_value, lemma_bytes_bound, lemma_bytes_take_step};

verus! {

/// The powers of two that bound the machine words.
proof fn lemma_pow2_128()
    ensures
        pow2(128) == 0x1_0000_0000_0000_0000_0000_0000_0000_0000,
        pow2(64) == 0x1_0000_0000_0000_0000,
        pow2(16) == 0x1_0000,
        pow2(0) == 1,
{
    lemma2_to64();
    lemma_pow2_adds(64, 64);
}

/// The number that up to sixteen bytes denote, least significant first.
pub fn le_bytes_value(bytes: &[u8]) -> (r: u128)
    requires
        bytes.len() <= 16,
    ensures
        r == bytes_value(bytes@),
{
    let n = bytes.len();
    let mut acc: u128 = 0;
    let mut weight: u128 = 1;
    let mut i: usize = 0;
    proof {
        lemma_pow2_128();
        assert(bytes_value(bytes@.take(0)) == 0);
    }
    while i < n
        invariant
            i <= n,
            n == bytes.len(),
            n <= 16,
            acc == bytes_value(bytes@.take(i as int)),
            i < 16 ==> weight == pow2((8 * i) as nat),
        decreases n - i,
    {
        proof {
            lemma_pow2_128();
            lemma2_to64();
            lemma_bytes_take_step(bytes@, i as int);
            lemma_bytes_bound(bytes@.take(i as int));
            lemma_bytes_bound(bytes@.take(i as int + 1));
            lemma_pow2_adds((8 * i) as nat, 8);
            lemma_pow2_pos((8 * i) as nat);
            if i < 15 {
                lemma_pow2_strictly_increases((8 * (i + 1)) as nat, 128);
            }
            assert(bytes[i as int] * weight <= 255 * weight) by (nonlinear_arith)
                requires
                    bytes[i as int] <= 255,
                    0 <= weight,
            ;
        }
        acc = acc + (bytes[i] as u128) * weight;
        if i < 15 {
            weight = weight * 256;
        }
        i += 1;
    }
    proof {
        assert(bytes@.take(n as int) =~= bytes@);
    }
    acc
}

/// The 16-bit number that two bytes denote.
pub fn u16(bytes: [u8; 2]) -> (r: u16)
    ensures
        r == bytes_value(bytes@),
{
    proof {
        lemma_pow2_128();
        lemma_bytes_bound(bytes@);
    }
    le_bytes_value(bytes.as_slice()) as u16
}

/// The 64-bit number that eight bytes denote.
pub fn u64(bytes: [u8; 8]) -> (r: u64)
    ensures
        r == bytes_value(bytes@),
{
    proof {
        lemma_pow2_128();
        lemma_bytes_bound(bytes@);
    }
    le_bytes_value(bytes.as_slice()) as u64
}

/// The 128-bit number that sixteen bytes denote.
pub fn u128(bytes: [u8; 16]) -> (r: u128)
    ensures
        r == bytes_value(bytes@),
{
    le_bytes_value(bytes.as_slice())
}

/// One draw for a number strictly between `min` and `max`: the 64-bit
/// number that the bytes denote where it lies there, else `None`, on which
/// the caller draws again.
pub fn u128_range(min: u128, max: u128, bytes: [u8; 8]) -> (r: Option<u128>)
    ensures
        r is Some <==> min < bytes_value(bytes@) < max,
        r is Some ==> r.unwrap() == bytes_value(bytes@),
{
    let x = self::u64(bytes) as u128;
    if x > min && x < max {
        Some(x)
    } else {
        None
    }
}

} // verus!
