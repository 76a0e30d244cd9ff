//! Identities that tie the arithmetic operations of [`BigInt`] together.

use vstd::prelude::*;
use std::cmp::Ordering;
use vstd::arithmetic::div_mod::lemma_mod_multiples_basic;
use vstd::arithmetic::mul::*;
use vstd::arithmetic::power2::{lemma_pow2_adds, lemma_pow2_pos, pow2};
use vstd::std_specs::cmp::{PartialEqSpec, PartialOrdSpec};
use vstd::std_specs::ops::{AddSpec, DivSpec, MulSpec, RemSpec, ShlSpec, ShrSpec, SubSpec};
use crate::arith::{lemma_mul_fits_in_range, mul_fits};
use crate::bigint::{BigInt, LIMBS, modulus};
use crate::limbs::{lemma_radix_pow_is_pow2, lemma_radix_pow_pos};

verus! {

/// Subtracting either term from a sum that fits gives back the other.
pub proof fn lemma_add_then_sub(a: BigInt, b: BigInt)
    requires
        a@ + b@ < modulus(),
    ensures
        a.add_req(b),
        a.add_spec(b).sub_req(b),
        a.add_spec(b).sub_spec(b) == a,
        a.add_spec(b).sub_req(a),
        a.add_spec(b).sub_spec(a) == b,
{
    BigInt::lemma_of_nat_view(a@ + b@);
    a.lemma_of_nat();
    b.lemma_of_nat();
}

/// Dividing a product that multiplication accepts by its non-zero second
/// factor gives back the first, with no remainder.
pub proof fn lemma_mul_then_div(a: BigInt, b: BigInt)
    requires
        mul_fits(a, b),
        b@ != 0,
    ensures
        a@ * b@ < modulus(),
        a.mul_spec(b).div_req(b),
        a.mul_spec(b).div_spec(b) == a,
        a.mul_spec(b).rem_spec(b)@ == 0,
{
    lemma_mul_fits_in_range(a, b);
    BigInt::lemma_of_nat_view(a@ * b@);
    vstd::arithmetic::div_mod::lemma_div_multiples_vanish(a@ as int, b@ as int);
    lemma_mod_multiples_basic(a@ as int, b@ as int);
    lemma_mul_is_commutative(a@ as int, b@ as int);
    a.lemma_of_nat();
    lemma_radix_pow_pos(LIMBS as nat);
    BigInt::lemma_of_nat_view(0);
}

/// Quotient and remainder rebuild the dividend, and the remainder lies
/// below the divisor.
pub proof fn lemma_div_rem_identity(a: BigInt, b: BigInt)
    requires
        b@ != 0,
    ensures
        a@ == a.div_spec(b)@ * b@ + a.rem_spec(b)@,
        a.rem_spec(b)@ < b@,
        a.div_spec(b)@ == a@ / b@,
        a.rem_spec(b)@ == a@ % b@,
{
    a.lemma_in_range();
    b.lemma_in_range();
    vstd::arithmetic::div_mod::lemma_fundamental_div_mod(a@ as int, b@ as int);
    vstd::arithmetic::div_mod::lemma_mod_bound(a@ as int, b@ as int);
    vstd::arithmetic::div_mod::lemma_div_is_ordered_by_denominator(a@ as int, 1, b@ as int);
    BigInt::lemma_of_nat_view(a@ / b@);
    BigInt::lemma_of_nat_view(a@ % b@);
    lemma_mul_is_commutative(b@ as int, (a@ / b@) as int);
}

/// Shifting left and back right by the same amount gives back a value
/// whose bits the left shift does not push past the width.
pub proof fn lemma_shl_then_shr(a: BigInt, amount: usize)
    requires
        amount <= 2048,
        a@ < pow2((2048 - amount) as nat),
    ensures
        a.shl_spec(amount).shr_spec(amount) == a,
{
    let weight = pow2(amount as nat);
    lemma_radix_pow_is_pow2(LIMBS as nat);
    lemma_pow2_pos(amount as nat);
    lemma_pow2_adds((2048 - amount) as nat, amount as nat);
    assert(a@ * weight < modulus()) by (nonlinear_arith)
        requires
            a@ < pow2((2048 - amount) as nat),
            modulus() == pow2((2048 - amount) as nat) * weight,
            0 < weight,
    ;
    vstd::arithmetic::div_mod::lemma_small_mod(a@ * weight, modulus());
    BigInt::lemma_of_nat_view(a@ * weight);
    vstd::arithmetic::div_mod::lemma_div_multiples_vanish(a@ as int, weight as int);
    lemma_mul_is_commutative(a@ as int, weight as int);
    a.lemma_of_nat();
}

/// Of two values exactly one is the smaller, or they are equal.
pub proof fn lemma_order_total(a: BigInt, b: BigInt)
    ensures
        a.partial_cmp_spec(&b) == Some(Ordering::Less) || a.partial_cmp_spec(&b) == Some(
            Ordering::Equal,
        ) || a.partial_cmp_spec(&b) == Some(Ordering::Greater),
        a.partial_cmp_spec(&b) == Some(Ordering::Equal) <==> a == b,
        a.partial_cmp_spec(&b) == Some(Ordering::Less) <==> b.partial_cmp_spec(&a) == Some(
            Ordering::Greater,
        ),
        a.eq_spec(&b) <==> a == b,
{
    a.lemma_view_injective(b);
}

/// The order is transitive.
pub proof fn lemma_order_transitive(a: BigInt, b: BigInt, c: BigInt)
    requires
        a.partial_cmp_spec(&b) == Some(Ordering::Less) || a == b,
        b.partial_cmp_spec(&c) == Some(Ordering::Less) || b == c,
    ensures
        a.partial_cmp_spec(&c) == Some(Ordering::Less) || a == c,
        a.partial_cmp_spec(&b) == Some(Ordering::Less) && b.partial_cmp_spec(&c) == Some(
            Ordering::Less,
        ) ==> a.partial_cmp_spec(&c) == Some(Ordering::Less),
{
    a.lemma_view_injective(c);
}

/// The order is that of the numbers, so arithmetic keeps it: adding the
/// same value on both sides, where both sums fit, changes no comparison.
pub proof fn lemma_order_follows_arithmetic(a: BigInt, b: BigInt, c: BigInt)
    requires
        a@ + c@ < modulus(),
        b@ + c@ < modulus(),
    ensures
        a.partial_cmp_spec(&b) == Some(Ordering::Less) <==> a@ < b@,
        a.partial_cmp_spec(&b) == Some(Ordering::Greater) <==> a@ > b@,
        a.add_spec(c).partial_cmp_spec(&b.add_spec(c)) == a.partial_cmp_spec(&b),
{
    BigInt::lemma_of_nat_view(a@ + c@);
    BigInt::lemma_of_nat_view(b@ + c@);
}

} // verus!
