//! The fixed-width unsigned integer: thirty-two little-endian 64-bit limbs.

use vstd::prelude::*;
use vstd::arithmetic::div_mod::{
    lemma_breakdown, lemma_div_denominator, lemma_fundamental_div_mod_converse, lemma_small_mod,
};
use vstd::arithmetic::mul::*;
use vstd::arithmetic::power2::{
    lemma2_to64, lemma_pow2_adds, lemma_pow2_pos, lemma_pow2_unfold, pow2,
};
use vstd::bits::lemma_u64_shr_is_div;
use crate::limbs::{
    lemma_radix_pow_is_pow2, lemma_radix_pow_pos, lemma_top_bounds, lemma_value_all_zero,
    lemma_value_bound, lemma_value_fits, lemma_value_high_zero, lemma_value_injective,
    lemma_value_low_limb, lemma_value_parts, lemma_value_update, lemma_value_zero_limbs,
    limbs_top, limbs_value, radix, radix_pow,
};
use crate::limb_ops::top_index;

verus! {

/// Number of limbs of a [`BigInt`].
pub const LIMBS: usize = 32;

/// An unsigned integer below `2^2048`.
///
/// Limb 0 holds the least significant 64 bits. Every array of limbs is a
/// valid value; leading zero limbs need no normalisation.
#[derive(Clone, Copy, Debug)]
pub struct BigInt {
    pub chunks: [u64; LIMBS],
}

/// The first number that a [`BigInt`] cannot hold, `2^2048`.
pub open spec fn modulus() -> nat {
    radix_pow(LIMBS as nat)
}

impl View for BigInt {
    type V = nat;

    open spec fn view(&self) -> nat {
        limbs_value(self.chunks@)
    }
}

impl BigInt {
    /// Index of the most significant non-zero limb; zero for the value zero.
    pub open spec fn spec_size(self) -> nat {
        limbs_top(self.chunks@)
    }

    /// Every value lies below `modulus()`.
    pub proof fn lemma_in_range(self)
        ensures
            self@ < modulus(),
    {
        lemma_value_bound(self.chunks@);
    }

    /// Values are equal exactly when they denote the same number.
    pub proof fn lemma_view_injective(self, other: BigInt)
        ensures
            self@ == other@ <==> self == other,
    {
        if self@ == other@ {
            lemma_value_injective(self.chunks@, other.chunks@);
            assert(self.chunks =~= other.chunks);
        }
    }

    /// The value zero.
    pub fn zero() -> (r: BigInt)
        ensures
            r@ == 0,
    {
        let r = BigInt { chunks: [0; LIMBS] };
        proof {
            lemma_value_all_zero(r.chunks@);
        }
        r
    }

    /// Builds a value from exactly `LIMBS` limbs, least significant first.
    pub fn from_limbs(limbs: &[u64]) -> (r: BigInt)
        requires
            limbs.len() == LIMBS,
        ensures
            r.chunks@ == limbs@,
            r@ == limbs_value(limbs@),
    {
        let mut chunks: [u64; LIMBS] = [0; LIMBS];
        let mut i: usize = 0;
        while i < LIMBS
            invariant
                i <= LIMBS,
                limbs.len() == LIMBS,
                forall|j: int| 0 <= j < i ==> chunks[j] == limbs[j],
            decreases LIMBS - i,
        {
            chunks[i] = limbs[i];
            i += 1;
        }
        assert(chunks@ =~= limbs@);
        BigInt { chunks }
    }
}

/// The limb of weight `radix()^i` in the number `v`.
pub open spec fn limb_of(v: nat, i: nat) -> u64 {
    ((v / radix_pow(i)) % radix()) as u64
}

/// An array whose first `k` limbs are those of `v`, the rest zero.
spec fn limbs_array(v: nat, k: nat) -> [u64; LIMBS]
    decreases k,
{
    if k == 0 {
        [0u64; LIMBS]
    } else {
        vstd::array::spec_array_update(
            limbs_array(v, (k - 1) as nat),
            k - 1,
            limb_of(v, (k - 1) as nat),
        )
    }
}

/// The array holds the limbs of `v` up to index `k`.
proof fn lemma_limbs_array(v: nat, k: nat)
    requires
        k <= LIMBS,
    ensures
        forall|i: int| 0 <= i < k ==> limbs_array(v, k)@[i] == limb_of(v, i as nat),
    decreases k,
{
    if k > 0 {
        let below = limbs_array(v, (k - 1) as nat);
        let limb = limb_of(v, (k - 1) as nat);
        lemma_limbs_array(v, (k - 1) as nat);
        assert(limbs_array(v, k) == vstd::array::spec_array_update(below, k - 1, limb));
        assert(limbs_array(v, k)@ == below@.update(k - 1, limb));
    }
}

/// The low `k` limbs of a number's expansion denote it modulo `radix()^k`.
proof fn lemma_limbs_of(v: nat, s: Seq<u64>, k: int)
    requires
        0 <= k <= s.len(),
        forall|i: int| 0 <= i < s.len() ==> s[i] == limb_of(v, i as nat),
    ensures
        limbs_value(s.take(k)) == v % radix_pow(k as nat),
    decreases k,
{
    lemma_radix_pow_pos(k as nat);
    if k == 0 {
        assert(limbs_value(s.take(0)) == 0);
        assert(radix_pow(0) == 1);
    } else {
        let w = radix_pow((k - 1) as nat);
        lemma_limbs_of(v, s, k - 1);
        lemma_radix_pow_pos((k - 1) as nat);
        crate::limbs::lemma_value_take_step(s, k - 1);
        assert(radix_pow(k as nat) == radix() * w);
        lemma_breakdown(v as int, w as int, radix() as int);
        lemma_mul_is_commutative(w as int, radix() as int);
        lemma_mul_is_commutative(w as int, ((v / w) % radix()) as int);
    }
}

impl BigInt {
    /// The value that denotes the number `v`, for `v` below `modulus()`.
    pub closed spec fn of_nat(v: nat) -> BigInt {
        BigInt { chunks: limbs_array(v, LIMBS as nat) }
    }

    /// `of_nat` denotes the number it was given.
    pub proof fn lemma_of_nat_view(v: nat)
        requires
            v < modulus(),
        ensures
            BigInt::of_nat(v)@ == v,
    {
        let s = BigInt::of_nat(v).chunks@;
        lemma_limbs_array(v, LIMBS as nat);
        lemma_limbs_of(v, s, 32);
        assert(s.take(32) =~= s);
        lemma_small_mod(v, modulus());
    }

    /// A value is the only one that denotes its number.
    pub proof fn lemma_of_nat(self)
        ensures
            BigInt::of_nat(self@) == self,
    {
        self.lemma_in_range();
        BigInt::lemma_of_nat_view(self@);
        BigInt::of_nat(self@).lemma_view_injective(self);
    }

    /// Whether the value is zero.
    pub fn is_zero(&self) -> (r: bool)
        ensures
            r == (self@ == 0),
    {
        let mut i: usize = 0;
        while i < LIMBS
            invariant
                i <= LIMBS,
                forall|k: int| 0 <= k < i ==> self.chunks[k] == 0,
            decreases LIMBS - i,
        {
            if self.chunks[i] != 0 {
                proof {
                    if self@ == 0 {
                        lemma_value_zero_limbs(self.chunks@);
                    }
                }
                return false;
            }
            i += 1;
        }
        proof {
            lemma_value_all_zero(self.chunks@);
        }
        true
    }

    /// Whether the value is even.
    pub fn is_even(&self) -> (r: bool)
        ensures
            r == (self@ % 2 == 0),
    {
        let low = self.chunks[0];
        proof {
            lemma_value_low_limb(self.chunks@);
            let rest = limbs_value(self.chunks@.skip(1));
            assert((low as nat + radix() * rest) % 2 == low as nat % 2) by (nonlinear_arith)
                requires
                    radix() == 0x1_0000_0000_0000_0000,
            ;
            assert((low & 1 == 0) == (low % 2 == 0)) by (bit_vector);
        }
        low & 1 == 0
    }

    /// Index of the most significant non-zero limb; zero for the value zero.
    pub fn size(&self) -> (r: usize)
        ensures
            r == self.spec_size(),
            r < LIMBS,
            self@ < radix_pow((r + 1) as nat),
            self@ != 0 ==> self@ >= radix_pow(r as nat),
    {
        proof {
            lemma_top_bounds(self.chunks@);
        }
        top_index(self.chunks.as_slice())
    }
}

/// A bit of the value is the bit of the limb that holds it.
proof fn lemma_bit_of_limb(high: int, limb: int, rest: int, low_weight: int, high_weight: int)
    requires
        0 < low_weight,
        0 <= limb,
        0 <= rest,
        0 <= high_weight,
        high == limb + (low_weight * (2 * high_weight)) * rest,
    ensures
        (high / low_weight) % 2 == (limb / low_weight) % 2,
{
    let q = limb / low_weight;
    let r = limb % low_weight;
    let m = 2 * high_weight * rest;
    assert(limb == q * low_weight + r && 0 <= r < low_weight) by (nonlinear_arith)
        requires
            q == limb / low_weight,
            r == limb % low_weight,
            0 < low_weight,
    ;
    assert(high == (q + m) * low_weight + r) by (nonlinear_arith)
        requires
            high == limb + (low_weight * (2 * high_weight)) * rest,
            limb == q * low_weight + r,
            m == 2 * high_weight * rest,
    ;
    lemma_fundamental_div_mod_converse(high, low_weight, q + m, r);
    assert(m == 2 * (high_weight * rest)) by (nonlinear_arith)
        requires
            m == 2 * high_weight * rest,
    ;
}

impl BigInt {
    /// The bit of weight `2^position`.
    pub fn bit_at(&self, position: usize) -> (r: bool)
        requires
            position < 64 * LIMBS,
        ensures
            r == ((self@ / pow2(position as nat)) % 2 == 1),
    {
        let i: usize = position / 64;
        let k: u64 = (position % 64) as u64;
        let limb = self.chunks[i];
        let shifted = limb >> k;
        proof {
            let v = self@ as int;
            let weight = radix_pow(i as nat) as int;
            let high = limbs_value(self.chunks@.skip(i as int)) as int;
            let rest = limbs_value(self.chunks@.skip(i as int).skip(1)) as int;
            let low_weight = pow2(k as nat) as int;
            let high_weight = pow2((63 - k) as nat) as int;
            lemma2_to64();
            lemma_radix_pow_pos(i as nat);
            lemma_radix_pow_is_pow2(i as nat);
            lemma_pow2_pos(k as nat);
            lemma_pow2_pos((63 - k) as nat);
            lemma_value_parts(self.chunks@, i as int);
            lemma_mul_is_commutative(weight, high);
            lemma_fundamental_div_mod_converse(
                v,
                weight,
                high,
                limbs_value(self.chunks@.take(i as int)) as int,
            );
            lemma_value_low_limb(self.chunks@.skip(i as int));
            lemma_pow2_adds((64 * i) as nat, k as nat);
            lemma_div_denominator(v, weight, low_weight);
            lemma_pow2_unfold((64 - k) as nat);
            lemma_pow2_adds(k as nat, (64 - k) as nat);
            lemma_bit_of_limb(high, limb as int, rest, low_weight, high_weight);
            lemma_u64_shr_is_div(limb, k);
            assert((shifted & 1 == 1) == (shifted % 2 == 1)) by (bit_vector);
        }
        shifted & 1 == 1
    }
}

/// Taking a carry into one limb moves what is left of it up one weight.
proof fn lemma_carry_moves(
    v: int,
    v2: int,
    old_limb: int,
    low: int,
    high: int,
    carry: int,
    w: int,
    w2: int,
    total: int,
)
    requires
        v + carry * w == total,
        v2 + old_limb * w == v + low * w,
        old_limb + carry == low + 0x1_0000_0000_0000_0000 * high,
        w2 == 0x1_0000_0000_0000_0000 * w,
    ensures
        v2 + high * w2 == total,
{
    assert((old_limb + carry) * w == low * w + high * w2) by (nonlinear_arith)
        requires
            old_limb + carry == low + 0x1_0000_0000_0000_0000 * high,
            w2 == 0x1_0000_0000_0000_0000 * w,
    ;
    assert((old_limb + carry) * w == old_limb * w + carry * w) by (nonlinear_arith);
}

/// Taking a borrow from one limb moves what is left of it up one weight.
proof fn lemma_borrow_moves(
    v: int,
    v2: int,
    old_limb: int,
    low: int,
    next: int,
    borrow: int,
    w: int,
    w2: int,
    total: int,
)
    requires
        v == total + borrow * w,
        v2 + old_limb * w == v + low * w,
        low + borrow == old_limb + 0x1_0000_0000_0000_0000 * next,
        w2 == 0x1_0000_0000_0000_0000 * w,
    ensures
        v2 == total + next * w2,
{
    assert((low + borrow) * w == old_limb * w + next * w2) by (nonlinear_arith)
        requires
            low + borrow == old_limb + 0x1_0000_0000_0000_0000 * next,
            w2 == 0x1_0000_0000_0000_0000 * w,
    ;
    assert((low + borrow) * w == low * w + borrow * w) by (nonlinear_arith);
}

/// Nothing is carried or borrowed past the top when the result is in range.
proof fn lemma_nothing_left(v: int, extra: int, w: int, total: int)
    by (nonlinear_arith)
    requires
        0 <= v < w,
        0 <= extra,
        0 <= total < w,
        v + extra * w == total || v == total + extra * w,
    ensures
        extra == 0,
{
}

impl BigInt {
    /// Adds one machine word; the carry stops at the first limb that
    /// takes it without overflow.
    pub fn add_u64(self, inc: u64) -> (r: BigInt)
        requires
            self@ + inc < modulus(),
        ensures
            r@ == self@ + inc,
    {
        let mut chunks = self.chunks;
        let mut carry: u64 = inc;
        let mut i: usize = 0;
        proof {
            assert(radix_pow(0) == 1);
            lemma_mul_basics(inc as int);
        }
        while carry != 0 && i < LIMBS
            invariant
                i <= LIMBS,
                limbs_value(chunks@) + carry * radix_pow(i as nat) == self@ + inc,
            decreases LIMBS - i,
        {
            let sum: u128 = chunks[i] as u128 + carry as u128;
            let low: u64 = #[verifier::truncate] ((sum & 0xffff_ffff_ffff_ffff) as u64);
            let high: u64 = #[verifier::truncate] ((sum >> 64) as u64);
            let ghost before = chunks@;
            proof {
                assert(sum == low + 0x1_0000_0000_0000_0000 * high) by (bit_vector)
                    requires
                        low == (sum & 0xffff_ffff_ffff_ffff) as u64,
                        high == (sum >> 64) as u64,
                ;
                lemma_value_update(before, i as int, low);
                assert(radix_pow((i + 1) as nat) == radix() * radix_pow(i as nat));
                lemma_carry_moves(
                    limbs_value(before) as int,
                    limbs_value(before.update(i as int, low)) as int,
                    before[i as int] as int,
                    low as int,
                    high as int,
                    carry as int,
                    radix_pow(i as nat) as int,
                    radix_pow((i + 1) as nat) as int,
                    self@ + inc,
                );
            }
            chunks[i] = low;
            carry = high;
            i += 1;
        }
        proof {
            lemma_value_bound(chunks@);
            if carry != 0 {
                lemma_nothing_left(
                    limbs_value(chunks@) as int,
                    carry as int,
                    modulus() as int,
                    self@ + inc,
                );
            }
            lemma_mul_basics(radix_pow(i as nat) as int);
        }
        BigInt { chunks }
    }

    /// Subtracts one machine word; the borrow stops at the first limb that
    /// covers it.
    pub fn sub_u64(self, dec: u64) -> (r: BigInt)
        requires
            self@ >= dec,
        ensures
            r@ == self@ - dec,
    {
        let mut chunks = self.chunks;
        let mut borrow: u64 = dec;
        let mut i: usize = 0;
        proof {
            assert(radix_pow(0) == 1);
            lemma_mul_basics(dec as int);
        }
        while borrow != 0 && i < LIMBS
            invariant
                i <= LIMBS,
                limbs_value(chunks@) == self@ - dec + borrow * radix_pow(i as nat),
            decreases LIMBS - i,
        {
            let limb = chunks[i];
            let (low, next): (u64, u64) = if limb >= borrow {
                (limb - borrow, 0)
            } else {
                ((limb as u128 + 0x1_0000_0000_0000_0000 - borrow as u128) as u64, 1)
            };
            let ghost before = chunks@;
            proof {
                lemma_value_update(before, i as int, low);
                assert(radix_pow((i + 1) as nat) == radix() * radix_pow(i as nat));
                lemma_borrow_moves(
                    limbs_value(before) as int,
                    limbs_value(before.update(i as int, low)) as int,
                    limb as int,
                    low as int,
                    next as int,
                    borrow as int,
                    radix_pow(i as nat) as int,
                    radix_pow((i + 1) as nat) as int,
                    self@ - dec,
                );
            }
            chunks[i] = low;
            borrow = next;
            i += 1;
        }
        proof {
            lemma_value_bound(chunks@);
            self.lemma_in_range();
            if borrow != 0 {
                lemma_nothing_left(
                    limbs_value(chunks@) as int,
                    borrow as int,
                    modulus() as int,
                    self@ - dec,
                );
            }
            lemma_mul_basics(radix_pow(i as nat) as int);
        }
        BigInt { chunks }
    }

    /// The value plus one.
    pub fn increase(self) -> (r: BigInt)
        requires
            self@ + 1 < modulus(),
        ensures
            r@ == self@ + 1,
    {
        self.add_u64(1)
    }

    /// The value minus one.
    pub fn decrease(self) -> (r: BigInt)
        requires
            self@ >= 1,
        ensures
            r@ == self@ - 1,
    {
        self.sub_u64(1)
    }

    /// The value plus two.
    pub fn increase_by_2(self) -> (r: BigInt)
        requires
            self@ + 2 < modulus(),
        ensures
            r@ == self@ + 2,
    {
        self.add_u64(2)
    }
}

/// The limbs of a candidate of `limbs` limbs: the top bit of the highest of
/// them set, then the lowest bit of limb 0.
pub open spec fn forced_limbs(s: Seq<u64>, limbs: int) -> Seq<u64> {
    let top = s.update(limbs - 1, s[limbs - 1] | 0x8000_0000_0000_0000);
    top.update(0, top[0] | 1)
}

impl BigInt {
    /// Forces the value to be odd and to have its top bit set within the
    /// low `limbs` limbs, as a prime candidate of `64 * limbs` bits needs.
    pub fn force_width(&mut self, limbs: usize)
        requires
            1 <= limbs <= LIMBS,
        ensures
            final(self).chunks@ == forced_limbs(old(self).chunks@, limbs as int),
            final(self)@ % 2 == 1,
            final(self)@ >= pow2((64 * limbs - 1) as nat),
            old(self)@ < pow2((64 * limbs) as nat) ==> final(self)@ < pow2((64 * limbs) as nat),
    {
        let ghost before = self.chunks@;
        let high = self.chunks[limbs - 1];
        self.chunks[limbs - 1] = high | 0x8000_0000_0000_0000;
        let low = self.chunks[0];
        self.chunks[0] = low | 1;
        proof {
            let after = self.chunks@;
            let top = after[limbs - 1];
            assert(after =~= forced_limbs(before, limbs as int));
            assert((low | 1) % 2 == 1) by (bit_vector);
            assert(high | 0x8000_0000_0000_0000 >= 0x8000_0000_0000_0000) by (bit_vector);
            assert(((high | 0x8000_0000_0000_0000) | 1) >= 0x8000_0000_0000_0000) by (bit_vector);
            assert(top >= 0x8000_0000_0000_0000);
            // odd
            lemma_value_low_limb(after);
            let rest = limbs_value(after.skip(1));
            assert((after[0] as nat + radix() * rest) % 2 == after[0] as nat % 2)
                by (nonlinear_arith)
                requires
                    radix() == 0x1_0000_0000_0000_0000,
            ;
            // the top bit of the width is set
            let k = (limbs - 1) as nat;
            lemma_value_parts(after, k as int);
            lemma_value_low_limb(after.skip(k as int));
            lemma_radix_pow_is_pow2(k);
            lemma2_to64();
            vstd::arithmetic::power2::lemma2_to64_rest();
            lemma_pow2_adds(64 * k, 63);
            lemma_pow2_pos(64 * k);
            assert(radix_pow(k) * limbs_value(after.skip(k as int)) >= pow2(64 * k) * pow2(63))
                by (nonlinear_arith)
                requires
                    limbs_value(after.skip(k as int)) >= pow2(63),
                    radix_pow(k) == pow2(64 * k),
            ;
            // nothing above the width changes
            lemma_radix_pow_is_pow2(limbs as nat);
            if limbs_value(before) < pow2((64 * limbs) as nat) {
                lemma_value_fits(before, limbs as int);
                lemma_value_high_zero(after, limbs as int);
                lemma_value_bound(after.take(limbs as int));
            }
        }
    }

    /// Forces the value to be an odd number with bit 1023 set.
    pub fn modify(&mut self)
        ensures
            final(self).chunks@ == forced_limbs(old(self).chunks@, 16),
            final(self)@ % 2 == 1,
            final(self)@ >= pow2(1023),
            old(self)@ < pow2(1024) ==> final(self)@ < pow2(1024),
    {
        self.force_width(LIMBS / 2);
    }
}

} // verus!
