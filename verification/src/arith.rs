//! Arithmetic on [`BigInt`]: addition, subtraction, multiplication,
//! division with remainder and shifts, as functions and as operators.

use vstd::prelude::*;
use vstd::arithmetic::mul::*;
use vstd::arithmetic::div_mod::{
    lemma_basic_div, lemma_div_denominator, lemma_fundamental_div_mod_converse,
    lemma_mod_multiples_basic,
};
use vstd::arithmetic::power2::{
    lemma_pow2_adds, lemma_pow2_pos, lemma_pow2_strictly_increases, pow2,
};
use vstd::bits::{lemma_u64_pow2_no_overflow, lemma_u64_shl_is_mul};
use vstd::std_specs::ops::{
    AddSpecImpl, DivSpecImpl, MulSpecImpl, RemSpecImpl, ShlSpecImpl, ShrSpecImpl, SubSpecImpl,
};
use std::ops::{
    Add, AddAssign, Div, DivAssign, Mul, MulAssign, Rem, RemAssign, Shl, ShlAssign, Shr,
    ShrAssign, Sub, SubAssign,
};
use crate::limbs::{lemma_radix_pow_is_pow2, lemma_value_parts};
use crate::limb_ops::{div_limb, fit_limbs};
use crate::division::div_rem_limbs;
use crate::bigint::{BigInt, LIMBS, modulus};
use crate::limbs::{
    lemma_radix_pow_adds, lemma_radix_pow_monotonic, lemma_radix_pow_pos, lemma_top_bounds,
    lemma_value_bound, lemma_value_high_zero, limbs_value, radix_pow,
};
use crate::limb_ops::{add_limbs, mul_add_into, sub_limbs, zero_limbs};

verus! {

/// The sum, or `None` where it does not fit the width.
pub fn checked_add(own: BigInt, other: BigInt) -> (r: Option<BigInt>)
    ensures
        r is Some <==> own@ + other@ < modulus(),
        r is Some ==> r.unwrap()@ == own@ + other@,
{
    let (sum, carry) = add_limbs(own.chunks.as_slice(), other.chunks.as_slice());
    proof {
        lemma_value_bound(sum@);
    }
    if carry {
        None
    } else {
        Some(BigInt::from_limbs(sum.as_slice()))
    }
}

/// The sum of two values that fits the width.
pub fn bigint_add(own: BigInt, other: BigInt) -> (r: BigInt)
    requires
        own@ + other@ < modulus(),
    ensures
        r@ == own@ + other@,
{
    let (sum, carry) = add_limbs(own.chunks.as_slice(), other.chunks.as_slice());
    proof {
        lemma_value_bound(sum@);
    }
    BigInt::from_limbs(sum.as_slice())
}

/// The difference, or `None` where the subtrahend is the larger.
pub fn checked_sub(own: BigInt, other: BigInt) -> (r: Option<BigInt>)
    ensures
        r is Some <==> own@ >= other@,
        r is Some ==> r.unwrap()@ == own@ - other@,
{
    let (diff, borrow) = sub_limbs(own.chunks.as_slice(), other.chunks.as_slice());
    proof {
        lemma_value_bound(diff@);
        lemma_value_bound(own.chunks@);
    }
    if borrow {
        None
    } else {
        Some(BigInt::from_limbs(diff.as_slice()))
    }
}

/// The difference of two values, the first at least the second.
pub fn bigint_sub(own: BigInt, other: BigInt) -> (r: BigInt)
    requires
        own@ >= other@,
    ensures
        r@ == own@ - other@,
{
    let (diff, borrow) = sub_limbs(own.chunks.as_slice(), other.chunks.as_slice());
    proof {
        lemma_value_bound(diff@);
        lemma_value_bound(own.chunks@);
    }
    BigInt::from_limbs(diff.as_slice())
}

impl Add for BigInt {
    type Output = BigInt;

    fn add(self, other: BigInt) -> (r: BigInt)
        ensures
            r@ == self@ + other@,
    {
        let r = bigint_add(self, other);
        proof {
            r.lemma_of_nat();
        }
        r
    }
}

impl AddSpecImpl for BigInt {
    open spec fn obeys_add_spec() -> bool {
        true
    }

    open spec fn add_req(self, other: BigInt) -> bool {
        self@ + other@ < modulus()
    }

    open spec fn add_spec(self, other: BigInt) -> BigInt {
        BigInt::of_nat(self@ + other@)
    }
}

impl AddAssign for BigInt {
    fn add_assign(&mut self, other: BigInt)
        requires
            old(self)@ + other@ < modulus(),
        ensures
            final(self)@ == old(self)@ + other@,
    {
        *self = bigint_add(*self, other);
    }
}

impl Sub for BigInt {
    type Output = BigInt;

    fn sub(self, other: BigInt) -> (r: BigInt)
        ensures
            r@ == self@ - other@,
    {
        let r = bigint_sub(self, other);
        proof {
            r.lemma_of_nat();
        }
        r
    }
}

impl SubSpecImpl for BigInt {
    open spec fn obeys_sub_spec() -> bool {
        true
    }

    open spec fn sub_req(self, other: BigInt) -> bool {
        self@ >= other@
    }

    open spec fn sub_spec(self, other: BigInt) -> BigInt {
        BigInt::of_nat((self@ - other@) as nat)
    }
}

impl SubAssign for BigInt {
    fn sub_assign(&mut self, other: BigInt)
        requires
            old(self)@ >= other@,
        ensures
            final(self)@ == old(self)@ - other@,
    {
        *self = bigint_sub(*self, other);
    }
}

/// Products of smaller numbers are smaller.
proof fn lemma_product_below(x: int, x_bound: int, y: int, y_bound: int)
    by (nonlinear_arith)
    requires
        0 <= x < x_bound,
        0 <= y < y_bound,
    ensures
        x * y < x_bound * y_bound,
{
}

/// Whether schoolbook multiplication accepts the operands: one of them is
/// zero, or their top limb indices leave room for the product.
pub open spec fn mul_fits(own: BigInt, other: BigInt) -> bool {
    own@ == 0 || other@ == 0 || own.spec_size() + other.spec_size() + 1 < LIMBS
}

/// Operands that multiplication accepts have a product within the width.
pub proof fn lemma_mul_fits_in_range(own: BigInt, other: BigInt)
    requires
        mul_fits(own, other),
    ensures
        own@ * other@ < modulus(),
{
    lemma_radix_pow_pos(LIMBS as nat);
    if own@ == 0 || other@ == 0 {
        lemma_mul_basics(own@ as int);
        lemma_mul_basics(other@ as int);
    } else {
        let t = own.spec_size();
        let n = other.spec_size();
        lemma_top_bounds(own.chunks@);
        lemma_top_bounds(other.chunks@);
        lemma_radix_pow_adds(t + 1, n + 1);
        lemma_radix_pow_monotonic(t + n + 2, LIMBS as nat);
        lemma_product_below(
            own@ as int,
            radix_pow(t + 1) as int,
            other@ as int,
            radix_pow(n + 1) as int,
        );
    }
}

/// After a row of the multiplication the accumulator holds the product
/// with the limbs so far, and nothing is carried out of it.
proof fn lemma_row_done(
    acc: int,
    carry: int,
    a: int,
    b_low: int,
    b_next: int,
    limb: int,
    bj: int,
    total: int,
)
    requires
        0 <= acc,
        0 <= carry,
        0 <= a,
        0 <= limb,
        0 < total,
        acc + carry * total == a * b_low + a * limb * bj,
        b_next == b_low + limb * bj,
        a * b_next < total,
    ensures
        carry == 0,
        acc == a * b_next,
{
    assert(a * b_next == a * b_low + a * limb * bj) by (nonlinear_arith)
        requires
            b_next == b_low + limb * bj,
    ;
    assert(carry == 0) by (nonlinear_arith)
        requires
            0 <= acc,
            0 <= carry,
            0 < total,
            acc + carry * total < total,
    ;
}

/// The product of two operands that schoolbook multiplication accepts.
pub fn bigint_mul(own: BigInt, other: BigInt) -> (r: BigInt)
    requires
        mul_fits(own, other),
    ensures
        r@ == own@ * other@,
{
    if own.is_zero() || other.is_zero() {
        proof {
            lemma_mul_basics(own@ as int);
            lemma_mul_basics(other@ as int);
        }
        return BigInt::zero();
    }
    let t = own.size();
    let n = other.size();
    let own_low = vstd::slice::slice_subrange(own.chunks.as_slice(), 0, t + 1);
    let mut acc = zero_limbs(LIMBS);
    let mut j: usize = 0;
    proof {
        lemma_top_bounds(own.chunks@);
        lemma_top_bounds(other.chunks@);
        lemma_value_high_zero(own.chunks@, t as int + 1);
        assert(own_low@ =~= own.chunks@.take(t as int + 1));
        assert(limbs_value(other.chunks@.take(0)) == 0);
        lemma_mul_basics(own@ as int);
    }
    while j <= n
        invariant
            j <= n + 1,
            t + n + 1 < LIMBS,
            acc.len() == LIMBS,
            own_low.len() == t + 1,
            limbs_value(own_low@) == own@,
            own@ < radix_pow((t + 1) as nat),
            limbs_value(acc@) == own@ * limbs_value(other.chunks@.take(j as int)),
        decreases n + 1 - j,
    {
        let limb = other.chunks[j];
        let ghost before = limbs_value(acc@);
        let carry = mul_add_into(&mut acc, own_low, limb, j);
        proof {
            let b_low = limbs_value(other.chunks@.take(j as int));
            let b_next = limbs_value(other.chunks@.take(j as int + 1));
            crate::limbs::lemma_value_take_step(other.chunks@, j as int);
            lemma_value_bound(other.chunks@.take(j as int + 1));
            lemma_radix_pow_adds((t + 1) as nat, (j + 1) as nat);
            lemma_radix_pow_monotonic((t + j + 2) as nat, LIMBS as nat);
            lemma_radix_pow_pos(LIMBS as nat);
            lemma_product_below(
                own@ as int,
                radix_pow((t + 1) as nat) as int,
                b_next as int,
                radix_pow((j + 1) as nat) as int,
            );
            lemma_row_done(
                limbs_value(acc@) as int,
                carry as int,
                own@ as int,
                b_low as int,
                b_next as int,
                limb as int,
                radix_pow(j as nat) as int,
                radix_pow(LIMBS as nat) as int,
            );
        }
        j += 1;
    }
    proof {
        lemma_value_high_zero(other.chunks@, n as int + 1);
    }
    BigInt::from_limbs(acc.as_slice())
}

/// The product, or `None` where schoolbook multiplication rejects the operands.
pub fn checked_mul(own: BigInt, other: BigInt) -> (r: Option<BigInt>)
    ensures
        r is Some <==> mul_fits(own, other),
        r is Some ==> r.unwrap()@ == own@ * other@,
{
    if own.is_zero() || other.is_zero() || own.size() + other.size() + 1 < LIMBS {
        Some(bigint_mul(own, other))
    } else {
        None
    }
}

impl Mul for BigInt {
    type Output = BigInt;

    fn mul(self, other: BigInt) -> (r: BigInt)
        ensures
            r@ == self@ * other@,
    {
        let r = bigint_mul(self, other);
        proof {
            r.lemma_of_nat();
        }
        r
    }
}

impl MulSpecImpl for BigInt {
    open spec fn obeys_mul_spec() -> bool {
        true
    }

    open spec fn mul_req(self, other: BigInt) -> bool {
        mul_fits(self, other)
    }

    open spec fn mul_spec(self, other: BigInt) -> BigInt {
        BigInt::of_nat(self@ * other@)
    }
}

impl MulAssign for BigInt {
    fn mul_assign(&mut self, other: BigInt)
        requires
            mul_fits(*old(self), other),
        ensures
            final(self)@ == old(self)@ * other@,
    {
        *self = bigint_mul(*self, other);
    }
}

/// Quotient and remainder of a division by a non-zero divisor.
pub fn bigint_div(dividend: BigInt, divisor: BigInt) -> (r: (BigInt, BigInt))
    requires
        divisor@ != 0,
    ensures
        r.0@ == dividend@ / divisor@,
        r.1@ == dividend@ % divisor@,
        dividend@ == r.0@ * divisor@ + r.1@,
        r.1@ < divisor@,
{
    let (q, rem) = div_rem_limbs(dividend.chunks.as_slice(), divisor.chunks.as_slice());
    proof {
        lemma_fundamental_div_mod_converse(
            dividend@ as int,
            divisor@ as int,
            limbs_value(q@) as int,
            limbs_value(rem@) as int,
        );
    }
    (BigInt::from_limbs(q.as_slice()), BigInt::from_limbs(rem.as_slice()))
}

/// Quotient and remainder, or `None` where the divisor is zero.
pub fn checked_div_rem(dividend: BigInt, divisor: BigInt) -> (r: Option<(BigInt, BigInt)>)
    ensures
        r is Some <==> divisor@ != 0,
        r is Some ==> r.unwrap().0@ == dividend@ / divisor@ && r.unwrap().1@ == dividend@
            % divisor@,
{
    if divisor.is_zero() {
        None
    } else {
        Some(bigint_div(dividend, divisor))
    }
}

impl Div for BigInt {
    type Output = BigInt;

    fn div(self, other: BigInt) -> (r: BigInt)
        ensures
            r@ == self@ / other@,
    {
        let r = bigint_div(self, other).0;
        proof {
            r.lemma_of_nat();
        }
        r
    }
}

impl DivSpecImpl for BigInt {
    open spec fn obeys_div_spec() -> bool {
        true
    }

    open spec fn div_req(self, other: BigInt) -> bool {
        other@ != 0
    }

    open spec fn div_spec(self, other: BigInt) -> BigInt {
        BigInt::of_nat(self@ / other@)
    }
}

impl DivAssign for BigInt {
    fn div_assign(&mut self, other: BigInt)
        requires
            other@ != 0,
        ensures
            final(self)@ == old(self)@ / other@,
    {
        *self = bigint_div(*self, other).0;
    }
}

impl Rem for BigInt {
    type Output = BigInt;

    fn rem(self, other: BigInt) -> (r: BigInt)
        ensures
            r@ == self@ % other@,
    {
        let r = bigint_div(self, other).1;
        proof {
            r.lemma_of_nat();
        }
        r
    }
}

impl RemSpecImpl for BigInt {
    open spec fn obeys_rem_spec() -> bool {
        true
    }

    open spec fn rem_req(self, other: BigInt) -> bool {
        other@ != 0
    }

    open spec fn rem_spec(self, other: BigInt) -> BigInt {
        BigInt::of_nat(self@ % other@)
    }
}

impl RemAssign for BigInt {
    fn rem_assign(&mut self, other: BigInt)
        requires
            other@ != 0,
        ensures
            final(self)@ == old(self)@ % other@,
    {
        *self = bigint_div(*self, other).1;
    }
}

/// The power of two with an exponent below 64, as one limb.
fn pow2_limb(bits: u64) -> (scale: u64)
    requires
        bits < 64,
    ensures
        scale == pow2(bits as nat),
        scale >= 1,
{
    proof {
        lemma_u64_pow2_no_overflow(bits as nat);
        lemma_mul_basics(pow2(bits as nat) as int);
        lemma_u64_shl_is_mul(1, bits);
    }
    1u64 << bits
}

/// The weight of a shift by whole limbs and then by bits.
proof fn lemma_shift_weight(limb_shift: nat, bit_shift: nat)
    ensures
        pow2(bit_shift) * radix_pow(limb_shift) == pow2(64 * limb_shift + bit_shift),
        pow2(64 * limb_shift + bit_shift) > 0,
{
    lemma_radix_pow_is_pow2(limb_shift);
    lemma_pow2_adds(bit_shift, 64 * limb_shift);
    lemma_pow2_pos(64 * limb_shift + bit_shift);
}

/// The logical left shift: bits moved past the top of the width are dropped.
pub fn bigint_shl(own: BigInt, amount: usize) -> (r: BigInt)
    ensures
        r@ == (own@ * pow2(amount as nat)) % modulus(),
{
    let limb_shift: usize = amount / 64;
    let bit_shift: u64 = (amount % 64) as u64;
    proof {
        lemma_radix_pow_is_pow2(LIMBS as nat);
        lemma_radix_pow_pos(LIMBS as nat);
    }
    if limb_shift >= LIMBS {
        proof {
            lemma_pow2_adds(2048, (amount - 2048) as nat);
            let rest = own@ * pow2((amount - 2048) as nat);
            assert(own@ * pow2(amount as nat) == rest * modulus()) by (nonlinear_arith)
                requires
                    pow2(amount as nat) == modulus() * pow2((amount - 2048) as nat),
                    rest == own@ * pow2((amount - 2048) as nat),
            ;
            lemma_mod_multiples_basic(rest as int, modulus() as int);
        }
        return BigInt::zero();
    }
    let scale = pow2_limb(bit_shift);
    let len: usize = LIMBS + limb_shift + 1;
    let mut acc = zero_limbs(len);
    let carry = mul_add_into(&mut acc, own.chunks.as_slice(), scale, limb_shift);
    let low = vstd::slice::slice_subrange(acc.as_slice(), 0, LIMBS);
    proof {
        let shifted = own@ * pow2(amount as nat);
        lemma_shift_weight(limb_shift as nat, bit_shift as nat);
        assert(own@ * scale * radix_pow(limb_shift as nat) == shifted) by (nonlinear_arith)
            requires
                scale * radix_pow(limb_shift as nat) == pow2(amount as nat),
                shifted == own@ * pow2(amount as nat),
        ;
        lemma_value_bound(own.chunks@);
        lemma_radix_pow_adds(LIMBS as nat, 1);
        lemma_radix_pow_adds((LIMBS + 1) as nat, limb_shift as nat);
        assert(radix_pow(1) == crate::limbs::radix() * radix_pow(0));
        lemma_u64_pow2_no_overflow(bit_shift as nat);
        lemma_radix_pow_pos(limb_shift as nat);
        lemma_radix_pow_pos(len as nat);
        assert(shifted < radix_pow(len as nat)) by (nonlinear_arith)
            requires
                shifted == own@ * (scale * radix_pow(limb_shift as nat)),
                own@ < radix_pow(LIMBS as nat),
                scale < crate::limbs::radix(),
                radix_pow(len as nat) == radix_pow(LIMBS as nat) * crate::limbs::radix()
                    * radix_pow(limb_shift as nat),
                0 < radix_pow(limb_shift as nat),
        ;
        assert(carry == 0 && limbs_value(acc@) == shifted) by (nonlinear_arith)
            requires
                limbs_value(acc@) + carry * radix_pow(len as nat) == shifted,
                shifted < radix_pow(len as nat),
        ;
        lemma_value_parts(acc@, LIMBS as int);
        assert(low@ =~= acc@.take(LIMBS as int));
        let high = limbs_value(acc@.skip(LIMBS as int));
        lemma_mul_is_commutative(high as int, modulus() as int);
        lemma_fundamental_div_mod_converse(
            shifted as int,
            modulus() as int,
            high as int,
            limbs_value(low@) as int,
        );
    }
    BigInt::from_limbs(low)
}

/// The logical right shift.
pub fn bigint_shr(own: BigInt, amount: usize) -> (r: BigInt)
    ensures
        r@ == own@ / pow2(amount as nat),
{
    let limb_shift: usize = amount / 64;
    let bit_shift: u64 = (amount % 64) as u64;
    proof {
        lemma_radix_pow_is_pow2(LIMBS as nat);
        lemma_value_bound(own.chunks@);
    }
    if limb_shift >= LIMBS {
        proof {
            if amount > 2048 {
                lemma_pow2_strictly_increases(2048, amount as nat);
            }
            lemma_basic_div(own@ as int, pow2(amount as nat) as int);
        }
        return BigInt::zero();
    }
    let scale = pow2_limb(bit_shift);
    let high = vstd::slice::slice_subrange(own.chunks.as_slice(), limb_shift, LIMBS);
    let (q, rest) = div_limb(high, scale);
    proof {
        let weight = radix_pow(limb_shift as nat);
        lemma_radix_pow_pos(limb_shift as nat);
        lemma_shift_weight(limb_shift as nat, bit_shift as nat);
        lemma_value_parts(own.chunks@, limb_shift as int);
        assert(high@ =~= own.chunks@.skip(limb_shift as int));
        lemma_mul_is_commutative(limbs_value(high@) as int, weight as int);
        lemma_fundamental_div_mod_converse(
            own@ as int,
            weight as int,
            limbs_value(high@) as int,
            limbs_value(own.chunks@.take(limb_shift as int)) as int,
        );
        lemma_fundamental_div_mod_converse(
            limbs_value(high@) as int,
            scale as int,
            limbs_value(q@) as int,
            rest as int,
        );
        lemma_div_denominator(own@ as int, weight as int, scale as int);
        lemma_mul_is_commutative(weight as int, scale as int);
        lemma_value_bound(q@);
        lemma_radix_pow_monotonic(q.len() as nat, LIMBS as nat);
    }
    let fitted = fit_limbs(q.as_slice(), LIMBS);
    BigInt::from_limbs(fitted.as_slice())
}

impl Shl<usize> for BigInt {
    type Output = BigInt;

    fn shl(self, amount: usize) -> (r: BigInt)
        ensures
            r@ == (self@ * pow2(amount as nat)) % modulus(),
    {
        let r = bigint_shl(self, amount);
        proof {
            r.lemma_of_nat();
        }
        r
    }
}

impl ShlSpecImpl<usize> for BigInt {
    open spec fn obeys_shl_spec() -> bool {
        true
    }

    open spec fn shl_req(self, amount: usize) -> bool {
        true
    }

    open spec fn shl_spec(self, amount: usize) -> BigInt {
        BigInt::of_nat((self@ * pow2(amount as nat)) % modulus())
    }
}

impl ShlAssign<usize> for BigInt {
    fn shl_assign(&mut self, amount: usize)
        ensures
            final(self)@ == (old(self)@ * pow2(amount as nat)) % modulus(),
    {
        *self = bigint_shl(*self, amount);
    }
}

impl Shr<usize> for BigInt {
    type Output = BigInt;

    fn shr(self, amount: usize) -> (r: BigInt)
        ensures
            r@ == self@ / pow2(amount as nat),
    {
        let r = bigint_shr(self, amount);
        proof {
            r.lemma_of_nat();
        }
        r
    }
}

impl ShrSpecImpl<usize> for BigInt {
    open spec fn obeys_shr_spec() -> bool {
        true
    }

    open spec fn shr_req(self, amount: usize) -> bool {
        true
    }

    open spec fn shr_spec(self, amount: usize) -> BigInt {
        BigInt::of_nat(self@ / pow2(amount as nat))
    }
}

impl ShrAssign<usize> for BigInt {
    fn shr_assign(&mut self, amount: usize)
        ensures
            final(self)@ == old(self)@ / pow2(amount as nat),
    {
        *self = bigint_shr(*self, amount);
    }
}

} // verus!
