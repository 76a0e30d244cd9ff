//! Little-endian sequences of 64-bit limbs and the natural numbers they denote.

use vstd::prelude::*;
use vstd::arithmetic::mul::*;
use vstd::arithmetic::power2::*;

verus! {

/// The radix of the representation, `2^64`.
pub open spec fn radix() -> nat {
    0x1_0000_0000_0000_0000
}

/// `radix()` raised to the power `k`.
pub open spec fn radix_pow(k: nat) -> nat
    decreases k,
{
    if k == 0 {
        1
    } else {
        radix() * radix_pow((k - 1) as nat)
    }
}

/// The number denoted by the limbs `s`, least significant limb first.
pub open spec fn limbs_value(s: Seq<u64>) -> nat
    decreases s.len(),
{
    if s.len() == 0 {
        0
    } else {
        limbs_value(s.drop_last()) + (s.last() as nat) * radix_pow((s.len() - 1) as nat)
    }
}

/// Every power of the radix is positive.
pub proof fn lemma_radix_pow_pos(k: nat)
    ensures
        radix_pow(k) >= 1,
    decreases k,
{
    if k > 0 {
        lemma_radix_pow_pos((k - 1) as nat);
        lemma_mul_strictly_positive(radix() as int, radix_pow((k - 1) as nat) as int);
    }
}

/// Powers of the radix multiply by adding exponents.
pub proof fn lemma_radix_pow_adds(i: nat, j: nat)
    ensures
        radix_pow(i + j) == radix_pow(i) * radix_pow(j),
    decreases i,
{
    if i == 0 {
        assert(radix_pow(0) == 1);
        assert(1 * radix_pow(j) == radix_pow(j));
    } else {
        lemma_radix_pow_adds((i - 1) as nat, j);
        assert(radix_pow(i + j) == radix() * radix_pow((i + j - 1) as nat));
        lemma_mul_is_associative(
            radix() as int,
            radix_pow((i - 1) as nat) as int,
            radix_pow(j) as int,
        );
    }
}

/// Powers of the radix grow with the exponent.
pub proof fn lemma_radix_pow_monotonic(i: nat, j: nat)
    requires
        i <= j,
    ensures
        radix_pow(i) <= radix_pow(j),
{
    lemma_radix_pow_adds(i, (j - i) as nat);
    lemma_radix_pow_pos((j - i) as nat);
    lemma_radix_pow_pos(i);
    lemma_mul_inequality(1, radix_pow((j - i) as nat) as int, radix_pow(i) as int);
    lemma_mul_is_commutative(radix_pow(i) as int, radix_pow((j - i) as nat) as int);
}

/// A sequence of `n` limbs denotes a number below `radix()^n`.
pub proof fn lemma_value_bound(s: Seq<u64>)
    ensures
        limbs_value(s) < radix_pow(s.len()),
    decreases s.len(),
{
    if s.len() > 0 {
        let k = (s.len() - 1) as nat;
        lemma_value_bound(s.drop_last());
        lemma_radix_pow_pos(k);
        lemma_mul_inequality(s.last() as int, radix() as int - 1, radix_pow(k) as int);
        lemma_mul_is_distributive_sub_other_way(radix_pow(k) as int, radix() as int, 1);
    }
}

/// Extending a prefix by one limb adds that limb at its weight.
pub proof fn lemma_value_take_step(s: Seq<u64>, i: int)
    requires
        0 <= i < s.len(),
    ensures
        limbs_value(s.take(i + 1)) == limbs_value(s.take(i)) + (s[i] as nat) * radix_pow(i as nat),
{
    assert(s.take(i + 1).drop_last() =~= s.take(i));
}

/// The value of a sequence splits at any index into a low and a high part.
pub proof fn lemma_value_split(s: Seq<u64>, k: int)
    requires
        0 <= k <= s.len(),
    ensures
        limbs_value(s) == limbs_value(s.take(k)) + radix_pow(k as nat) * limbs_value(s.skip(k)),
    decreases s.len(),
{
    if k == s.len() {
        assert(s.take(k) =~= s);
        assert(s.skip(k).len() == 0);
        assert(radix_pow(k as nat) * 0 == 0);
    } else {
        let t = s.drop_last();
        let hi = s.skip(k);
        lemma_value_split(t, k);
        assert(t.take(k) =~= s.take(k));
        assert(t.skip(k) =~= hi.drop_last());
        assert(hi.last() == s.last());
        let m = (s.len() - 1 - k) as nat;
        lemma_radix_pow_adds(k as nat, m);
        lemma_mul_is_distributive_add(
            radix_pow(k as nat) as int,
            limbs_value(hi.drop_last()) as int,
            (hi.last() as nat * radix_pow(m)) as int,
        );
        lemma_mul_is_associative(
            radix_pow(k as nat) as int,
            hi.last() as int,
            radix_pow(m) as int,
        );
        lemma_mul_is_commutative(radix_pow(k as nat) as int, hi.last() as int);
        lemma_mul_is_associative(
            hi.last() as int,
            radix_pow(k as nat) as int,
            radix_pow(m) as int,
        );
    }
}

/// The digit and the rest of a number at a given weight are unique.
proof fn lemma_digit_unique(x: int, p: int, y: int, q: int, w: int)
    by (nonlinear_arith)
    requires
        0 <= x < w,
        0 <= y < w,
        x + p * w == y + q * w,
    ensures
        p == q,
        x == y,
{
}

/// A smaller digit at a weight keeps the number below the larger digit.
proof fn lemma_scaled_below(x: int, p: int, q: int, w: int)
    by (nonlinear_arith)
    requires
        0 <= x < w,
        0 <= p < q,
    ensures
        x + p * w < q * w,
{
}

/// Two limb sequences of one length that denote the same number are equal.
pub proof fn lemma_value_injective(a: Seq<u64>, b: Seq<u64>)
    requires
        a.len() == b.len(),
        limbs_value(a) == limbs_value(b),
    ensures
        a == b,
    decreases a.len(),
{
    if a.len() == 0 {
        assert(a =~= b);
    } else {
        let k = (a.len() - 1) as nat;
        lemma_value_bound(a.drop_last());
        lemma_value_bound(b.drop_last());
        lemma_digit_unique(
            limbs_value(a.drop_last()) as int,
            a.last() as int,
            limbs_value(b.drop_last()) as int,
            b.last() as int,
            radix_pow(k) as int,
        );
        lemma_value_injective(a.drop_last(), b.drop_last());
        assert(a =~= a.drop_last().push(a.last()));
        assert(b =~= b.drop_last().push(b.last()));
    }
}

/// Of two sequences of one length, the one with the smaller top limb
/// denotes the smaller number.
pub proof fn lemma_value_top_decides(a: Seq<u64>, b: Seq<u64>)
    requires
        a.len() == b.len(),
        a.len() > 0,
        a.last() < b.last(),
    ensures
        limbs_value(a) < limbs_value(b),
{
    let k = (a.len() - 1) as nat;
    lemma_value_bound(a.drop_last());
    lemma_scaled_below(
        limbs_value(a.drop_last()) as int,
        a.last() as int,
        b.last() as int,
        radix_pow(k) as int,
    );
}

/// The lowest limb carries weight one; the others denote a multiple of the radix.
pub proof fn lemma_value_low_limb(s: Seq<u64>)
    requires
        s.len() > 0,
    ensures
        limbs_value(s) == s[0] as nat + radix() * limbs_value(s.skip(1)),
{
    lemma_value_split(s, 1);
    assert(limbs_value(s.take(1).drop_last()) == 0);
    assert(limbs_value(s.take(1)) == s[0] as nat * radix_pow(0));
    assert(radix_pow(0) == 1);
    assert(radix_pow(1) == radix() * radix_pow(0));
    assert(s[0] as nat * 1 == s[0] as nat);
    assert(radix() * 1 == radix());
}

/// A sequence of zero limbs denotes zero.
pub proof fn lemma_value_all_zero(s: Seq<u64>)
    requires
        forall|i: int| 0 <= i < s.len() ==> s[i] == 0,
    ensures
        limbs_value(s) == 0,
    decreases s.len(),
{
    if s.len() > 0 {
        lemma_value_all_zero(s.drop_last());
        assert(0 * radix_pow((s.len() - 1) as nat) == 0);
    }
}

/// A sequence that denotes zero holds only zero limbs.
pub proof fn lemma_value_zero_limbs(s: Seq<u64>)
    requires
        limbs_value(s) == 0,
    ensures
        forall|i: int| 0 <= i < s.len() ==> s[i] == 0,
{
    let z = Seq::new(s.len(), |i: int| 0u64);
    lemma_value_all_zero(z);
    lemma_value_injective(s, z);
}

/// Index of the most significant non-zero limb, or zero where there is none.
pub open spec fn limbs_top(s: Seq<u64>) -> nat
    decreases s.len(),
{
    if s.len() <= 1 {
        0
    } else if s.last() != 0 {
        (s.len() - 1) as nat
    } else {
        limbs_top(s.drop_last())
    }
}

/// The top index bounds the value from both sides.
pub proof fn lemma_top_bounds(s: Seq<u64>)
    requires
        s.len() > 0,
    ensures
        limbs_top(s) < s.len(),
        limbs_value(s) < radix_pow(limbs_top(s) + 1),
        limbs_value(s) != 0 ==> s[limbs_top(s) as int] != 0 && limbs_value(s) >= radix_pow(
            limbs_top(s),
        ),
        forall|i: int| limbs_top(s) < i < s.len() ==> s[i] == 0,
    decreases s.len(),
{
    let k = (s.len() - 1) as nat;
    if s.len() == 1 {
        lemma_value_bound(s);
        assert(limbs_value(s.drop_last()) == 0);
        assert(limbs_value(s) == s[0] as nat * radix_pow(0));
    } else if s.last() != 0 {
        lemma_value_bound(s);
        lemma_radix_pow_pos(k);
        lemma_mul_inequality(1, s.last() as int, radix_pow(k) as int);
    } else {
        let t = s.drop_last();
        lemma_top_bounds(t);
        assert(0 * radix_pow(k) == 0);
        assert forall|i: int| limbs_top(s) < i < s.len() implies s[i] == 0 by {
            if i < t.len() {
                assert(t[i] == s[i]);
            }
        }
    }
}

/// Replacing one limb changes the value by the difference at that limb's weight.
pub proof fn lemma_value_update(s: Seq<u64>, k: int, x: u64)
    requires
        0 <= k < s.len(),
    ensures
        limbs_value(s.update(k, x)) + (s[k] as nat) * radix_pow(k as nat) == limbs_value(s) + (
        x as nat) * radix_pow(k as nat),
    decreases s.len(),
{
    let t = s.update(k, x);
    if k == s.len() - 1 {
        assert(t.drop_last() =~= s.drop_last());
    } else {
        lemma_value_update(s.drop_last(), k, x);
        assert(t.drop_last() =~= s.drop_last().update(k, x));
    }
}

/// The low `k` limbs denote the value modulo `radix()^k`; the rest denote
/// the quotient.
pub proof fn lemma_value_parts(s: Seq<u64>, k: int)
    requires
        0 <= k <= s.len(),
    ensures
        limbs_value(s) == limbs_value(s.take(k)) + radix_pow(k as nat) * limbs_value(s.skip(k)),
        limbs_value(s.take(k)) < radix_pow(k as nat),
{
    lemma_value_split(s, k);
    lemma_value_bound(s.take(k));
}

/// A value below `radix()^k` is held by the low `k` limbs alone.
pub proof fn lemma_value_fits(s: Seq<u64>, k: int)
    requires
        0 <= k <= s.len(),
        limbs_value(s) < radix_pow(k as nat),
    ensures
        limbs_value(s.take(k)) == limbs_value(s),
        forall|i: int| k <= i < s.len() ==> s[i] == 0,
{
    lemma_value_parts(s, k);
    let hi = limbs_value(s.skip(k));
    if hi != 0 {
        lemma_mul_inequality(1, hi as int, radix_pow(k as nat) as int);
        lemma_mul_is_commutative(hi as int, radix_pow(k as nat) as int);
    }
    lemma_mul_basics(radix_pow(k as nat) as int);
    lemma_value_zero_limbs(s.skip(k));
    assert forall|i: int| k <= i < s.len() implies s[i] == 0 by {
        assert(s.skip(k)[i - k] == s[i]);
    }
}

/// Zero limbs above index `k` contribute nothing.
pub proof fn lemma_value_high_zero(s: Seq<u64>, k: int)
    requires
        0 <= k <= s.len(),
        forall|i: int| k <= i < s.len() ==> s[i] == 0,
    ensures
        limbs_value(s.take(k)) == limbs_value(s),
{
    lemma_value_parts(s, k);
    lemma_value_all_zero(s.skip(k));
    lemma_mul_basics(radix_pow(k as nat) as int);
}

/// `radix()^k` is the power of two with exponent `64 * k`.
pub proof fn lemma_radix_pow_is_pow2(k: nat)
    ensures
        radix_pow(k) == pow2(64 * k),
    decreases k,
{
    lemma2_to64();
    if k > 0 {
        lemma_radix_pow_is_pow2((k - 1) as nat);
        lemma_pow2_adds(64, (64 * (k - 1)) as nat);
    }
}

/// A single limb denotes itself.
pub proof fn lemma_value_of_one(s: Seq<u64>)
    requires
        s.len() == 1,
    ensures
        limbs_value(s) == s[0],
{
    lemma_value_low_limb(s);
    assert(limbs_value(s.skip(1)) == 0);
}

/// The value of two limbs.
pub proof fn lemma_value_of_two(s: Seq<u64>)
    requires
        s.len() == 2,
    ensures
        limbs_value(s) == s[0] + radix() * s[1],
{
    lemma_value_low_limb(s);
    lemma_value_of_one(s.skip(1));
}

/// The value of three limbs.
pub proof fn lemma_value_of_three(s: Seq<u64>)
    requires
        s.len() == 3,
    ensures
        limbs_value(s) == s[0] + radix() * (s[1] + radix() * s[2]),
{
    lemma_value_low_limb(s);
    lemma_value_of_two(s.skip(1));
}

/// A value below `radix()^k` has its top index below `k`.
pub proof fn lemma_top_below(s: Seq<u64>, k: nat)
    requires
        s.len() > 0,
        k >= 1,
        limbs_value(s) < radix_pow(k),
    ensures
        limbs_top(s) < k,
    decreases s.len(),
{
    lemma_top_bounds(s);
    if limbs_value(s) != 0 {
        if limbs_top(s) >= k {
            lemma_radix_pow_monotonic(k, limbs_top(s));
        }
    } else {
        lemma_value_zero_limbs(s);
        if s.len() > 1 {
            assert(limbs_value(s.drop_last()) == 0) by {
                lemma_value_all_zero(s.drop_last());
            }
            lemma_top_below(s.drop_last(), k);
        }
    }
}

} // verus!
