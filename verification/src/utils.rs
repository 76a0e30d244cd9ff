//! Modular exponentiation and the table of small primes.

use vstd::prelude::*;
use vstd::arithmetic::div_mod::{lemma_mul_mod_noop_left, lemma_mul_mod_noop_right, lemma_small_mod};
use vstd::arithmetic::mul::*;
use vstd::arithmetic::power::{
    lemma_pow0, lemma_pow1, lemma_pow_adds, lemma_pow_mod_noop, lemma_pow_multiplies,
    lemma_square_is_pow2, pow,
};
use vstd::arithmetic::power2::{lemma2_to64, pow2};
use crate::algos::{is_prime, lemma_wheel_decides, PrimeResult, trial_division};
use crate::arith::{bigint_div, bigint_mul, bigint_shr};
use crate::bigint::BigInt;
use crate::limbs::{lemma_radix_pow_is_pow2, lemma_top_below};

verus! {

/// `base` to the power `exponent`, reduced modulo `modulus`.
pub open spec fn spec_mod_exp(base: nat, exponent: nat, modulus: nat) -> nat {
    (pow(base as int, exponent) % (modulus as int)) as nat
}

/// The largest modulus that [`mod_exp`] accepts: products of two residues
/// must pass the multiplication's test of the operands' sizes.
pub open spec fn max_modulus() -> nat {
    pow2(1024)
}

/// Squaring the base and halving an even exponent keeps the power.
proof fn lemma_exp_step_even(r: int, b: int, e: nat, m: int)
    requires
        m > 0,
        e % 2 == 0,
    ensures
        (r * pow(b, e)) % m == (r * pow((b * b) % m, e / 2)) % m,
{
    let h = e / 2;
    lemma_square_is_pow2(b);
    lemma_pow_multiplies(b, 2, h);
    assert(pow(b, e) == pow(b * b, h));
    lemma_pow_mod_noop(b * b, h, m);
    lemma_mul_mod_noop_right(r, pow(b * b, h), m);
    lemma_mul_mod_noop_right(r, pow((b * b) % m, h), m);
}

/// With an odd exponent one factor moves into the result first.
proof fn lemma_exp_step_odd(r: int, b: int, e: nat, m: int)
    requires
        m > 0,
        e % 2 == 1,
    ensures
        (r * pow(b, e)) % m == (((r * b) % m) * pow((b * b) % m, e / 2)) % m,
{
    let h = e / 2;
    let rest = pow(b, (e - 1) as nat);
    lemma_pow1(b);
    lemma_pow_adds(b, 1, (e - 1) as nat);
    assert(pow(b, e) == b * rest);
    lemma_mul_is_associative(r, b, rest);
    lemma_exp_step_even(r * b, b, (e - 1) as nat, m);
    lemma_mul_mod_noop_left(r * b, pow((b * b) % m, h), m);
}

/// Right-to-left binary exponentiation on machine words.
pub fn mod_exp_u128(base: u128, exponent: u128, modulus: u128) -> (r: u128)
    requires
        modulus != 0,
        modulus <= 0x1_0000_0000_0000_0000,
    ensures
        r == spec_mod_exp(base as nat, exponent as nat, modulus as nat),
{
    if modulus == 1 {
        return 0;
    }
    let ghost goal = spec_mod_exp(base as nat, exponent as nat, modulus as nat);
    let mut result: u128 = 1;
    let mut b: u128 = base % modulus;
    let mut e: u128 = exponent;
    proof {
        lemma_pow_mod_noop(base as int, exponent as nat, modulus as int);
        lemma_mul_basics(pow(b as int, e as nat));
    }
    while e > 0
        invariant
            1 < modulus <= 0x1_0000_0000_0000_0000,
            b < modulus,
            result < modulus,
            (result * pow(b as int, e as nat)) % (modulus as int) == goal,
        decreases e,
    {
        proof {
            assert(result * b < 0x1_0000_0000_0000_0000 * 0x1_0000_0000_0000_0000 && b * b
                < 0x1_0000_0000_0000_0000 * 0x1_0000_0000_0000_0000) by (nonlinear_arith)
                requires
                    result < 0x1_0000_0000_0000_0000,
                    b < 0x1_0000_0000_0000_0000,
            ;
            if e % 2 == 1 {
                lemma_exp_step_odd(result as int, b as int, e as nat, modulus as int);
            } else {
                lemma_exp_step_even(result as int, b as int, e as nat, modulus as int);
            }
            assert(e >> 1 == e / 2) by (bit_vector);
        }
        if e % 2 == 1 {
            result = (result * b) % modulus;
        }
        e = e >> 1;
        b = (b * b) % modulus;
    }
    proof {
        lemma_pow0(b as int);
        lemma_mul_basics(result as int);
        lemma_small_mod(result as nat, modulus as nat);
    }
    result
}

/// The product of two residues, reduced modulo `modulus`.
pub fn mul_mod(own: BigInt, other: BigInt, modulus: BigInt) -> (r: BigInt)
    requires
        modulus@ != 0,
        modulus@ <= max_modulus(),
        own@ < modulus@,
        other@ < modulus@,
    ensures
        r@ == (own@ * other@) % modulus@,
        r@ < modulus@,
{
    proof {
        lemma_radix_pow_is_pow2(16);
        lemma_top_below(own.chunks@, 16);
        lemma_top_below(other.chunks@, 16);
    }
    let product = bigint_mul(own, other);
    bigint_div(product, modulus).1
}

/// Right-to-left binary exponentiation: `base` to the power `exponent`,
/// reduced modulo `modulus`.
pub fn mod_exp(base: BigInt, exponent: BigInt, modulus: BigInt) -> (r: BigInt)
    requires
        modulus@ != 0,
        modulus@ <= max_modulus(),
    ensures
        r@ == spec_mod_exp(base@, exponent@, modulus@),
{
    let one = BigInt::from(1u128);
    if modulus == one {
        return BigInt::zero();
    }
    let ghost goal = spec_mod_exp(base@, exponent@, modulus@);
    let mut result = one;
    let mut b = bigint_div(base, modulus).1;
    let mut e = exponent;
    proof {
        lemma_pow_mod_noop(base@ as int, exponent@, modulus@ as int);
        lemma_mul_basics(pow(b@ as int, e@));
    }
    while !e.is_zero()
        invariant
            1 < modulus@ <= max_modulus(),
            b@ < modulus@,
            result@ < modulus@,
            (result@ * pow(b@ as int, e@)) % (modulus@ as int) == goal,
        decreases e@,
    {
        proof {
            if e@ % 2 == 1 {
                lemma_exp_step_odd(result@ as int, b@ as int, e@, modulus@ as int);
            } else {
                lemma_exp_step_even(result@ as int, b@ as int, e@, modulus@ as int);
            }
            lemma2_to64();
        }
        if !e.is_even() {
            result = mul_mod(result, b, modulus);
        }
        e = bigint_shr(e, 1);
        b = mul_mod(b, b, modulus);
    }
    proof {
        lemma_pow0(b@ as int);
        lemma_mul_basics(result@ as int);
        lemma_small_mod(result@, modulus@);
    }
    result
}

/// Any power with exponent zero is one modulo a modulus above one.
pub proof fn lemma_mod_exp_zero_exponent(base: nat, modulus: nat)
    requires
        modulus > 1,
    ensures
        spec_mod_exp(base, 0, modulus) == 1,
{
    lemma_pow0(base as int);
    lemma_small_mod(1, modulus);
}

/// The first power is the base reduced modulo the modulus.
pub proof fn lemma_mod_exp_one_exponent(base: nat, modulus: nat)
    requires
        modulus > 0,
    ensures
        spec_mod_exp(base, 1, modulus) == base % modulus,
{
    lemma_pow1(base as int);
}

/// Every power is zero modulo one.
pub proof fn lemma_mod_exp_modulus_one(base: nat, exponent: nat)
    ensures
        spec_mod_exp(base, exponent, 1) == 0,
{
}

/// A table of primes in increasing order that leaves out no prime up to
/// its last entry: the first primes, as many as it has entries.
pub open spec fn is_prime_table(t: Seq<u64>) -> bool {
    &&& forall|i: int| 0 <= i < t.len() ==> is_prime(#[trigger] t[i] as nat)
    &&& forall|i: int, j: int| 0 <= i < j < t.len() ==> t[i] < t[j]
    &&& forall|p: nat|
        t.len() > 0 && p <= t.last() && is_prime(p) ==> exists|i: int|
            0 <= i < t.len() && #[trigger] t[i] == p
}

/// The entries found so far: primes in increasing order, among them
/// every prime up to `seen`.
pub open spec fn primes_up_to(t: Seq<u64>, seen: nat) -> bool {
    &&& forall|i: int| 0 <= i < t.len() ==> is_prime(#[trigger] t[i] as nat) && t[i] <= seen
    &&& forall|i: int, j: int| 0 <= i < j < t.len() ==> t[i] < t[j]
    &&& forall|p: nat|
        p <= seen && is_prime(p) ==> exists|i: int| 0 <= i < t.len() && #[trigger] t[i] == p
}

/// In a complete list of the primes up to `seen`, the `k`-th entry of any
/// increasing list of primes up to `seen` is found at index `k` or later.
proof fn lemma_table_index(s: Seq<u64>, seen: nat, t: Seq<u64>, k: int) -> (idx: int)
    requires
        primes_up_to(s, seen),
        0 <= k < t.len(),
        forall|i: int| 0 <= i < t.len() ==> is_prime(#[trigger] t[i] as nat) && t[i] <= seen,
        forall|i: int, j: int| 0 <= i < j < t.len() ==> t[i] < t[j],
    ensures
        k <= idx < s.len(),
        s[idx] == t[k],
    decreases k,
{
    let p = t[k] as nat;
    assert(is_prime(t[k] as nat) && t[k] <= seen);
    let idx = choose|i: int| 0 <= i < s.len() && #[trigger] s[i] == p;
    if k > 0 {
        let below = lemma_table_index(s, seen, t, k - 1);
        assert(t[k - 1] < t[k]);
        if idx <= below {
            if idx < below {
                assert(s[idx] < s[below]);
            }
        }
    }
    idx
}

/// A prime table is complete up to its last entry.
proof fn lemma_table_is_complete(s: Seq<u64>)
    requires
        is_prime_table(s),
        s.len() > 0,
    ensures
        primes_up_to(s, s.last() as nat),
{
    assert forall|i: int| 0 <= i < s.len() implies is_prime(#[trigger] s[i] as nat) && s[i]
        <= s.last() by {
        if i < s.len() - 1 {
            assert(s[i] < s[s.len() - 1]);
        }
    }
}

/// Two prime tables of one length, the first ending no later than the
/// second, are the same table.
proof fn lemma_tables_agree(s: Seq<u64>, t: Seq<u64>)
    requires
        is_prime_table(s),
        is_prime_table(t),
        s.len() == t.len(),
        s.len() > 0,
        t.last() <= s.last(),
    ensures
        s == t,
{
    let n = s.len() as int;
    let seen = s.last() as nat;
    lemma_table_is_complete(s);
    lemma_table_is_complete(t);
    let top = lemma_table_index(s, seen, t, n - 1);
    assert(t.last() == s.last());
    assert forall|k: int| 0 <= k < n implies s[k] == t[k] by {
        let i = lemma_table_index(s, seen, t, k);
        let j = lemma_table_index(t, seen, s, k);
        if i > k {
            assert(s[k] < s[i]);
        }
        if j > k {
            assert(t[k] < t[j]);
        }
    }
    assert(s =~= t);
}

/// There is one table of the first primes of each length.
pub proof fn lemma_prime_table_unique(s: Seq<u64>, t: Seq<u64>)
    requires
        is_prime_table(s),
        is_prime_table(t),
        s.len() == t.len(),
    ensures
        s == t,
{
    if s.len() == 0 {
        assert(s =~= t);
    } else if t.last() <= s.last() {
        lemma_tables_agree(s, t);
    } else {
        lemma_tables_agree(t, s);
    }
}

/// Builds the table of the first `N` primes by trial division of the odd
/// numbers in turn, or `None` where 64 bits hold fewer than `N` primes.
pub fn generate_small_primes<const N: usize>() -> (r: Option<[u64; N]>)
    requires
        N >= 2,
    ensures
        r is Some <==> exists|t: Seq<u64>| is_prime_table(t) && t.len() == N,
        r is Some ==> is_prime_table(r.unwrap()@),
        r is None ==> forall|t: Seq<u64>| is_prime_table(t) ==> t.len() < N,
{
    let mut primes: [u64; N] = [0; N];
    primes[0] = 2;
    primes[1] = 3;
    let mut n: u64 = 3;
    let mut i: usize = 2;
    proof {
        let found = primes@.take(2);
        assert(is_prime(2)) by {
            assert forall|d: nat| 1 < d < 2 implies #[trigger] (2nat % d) != 0 by {}
        }
        assert(is_prime(3)) by {
            assert forall|d: nat| 1 < d < 3 implies #[trigger] (3nat % d) != 0 by {
                assert(d == 2);
            }
        }
        assert forall|p: nat| p <= 3 && is_prime(p) implies exists|k: int|
            0 <= k < found.len() && #[trigger] found[k] == p by {
            if p == 2 {
                assert(found[0] == 2);
            } else {
                assert(found[1] == 3);
            }
        }
    }
    while i < N
        invariant
            2 <= i <= N,
            n >= 3,
            n % 2 == 1,
            primes_up_to(primes@.take(i as int), n as nat),
        decreases u64::MAX - n,
    {
        let ghost found = primes@.take(i as int);
        if n > u64::MAX - 2 {
            proof {
                assert forall|t: Seq<u64>| is_prime_table(t) implies t.len() < N by {
                    if t.len() >= N {
                        let idx = lemma_table_index(found, n as nat, t, i as int);
                    }
                }
            }
            return None;
        }
        n += 2;
        let verdict = trial_division(n, 5);
        proof {
            lemma_wheel_decides(n as nat);
            assert(!is_prime((n - 1) as nat)) by {
                assert((n - 1) as nat % 2 == 0 && 1 < 2 < n - 1);
            }
        }
        if verdict == PrimeResult::Prime {
            primes[i] = n;
            i += 1;
            proof {
                let next = primes@.take(i as int);
                assert(next =~= found.push(n));
                assert forall|p: nat| p <= n && is_prime(p) implies exists|k: int|
                    0 <= k < next.len() && #[trigger] next[k] == p by {
                    if p == n {
                        assert(next[i - 1] == p);
                    } else {
                        assert(p <= n - 2);
                        let k = choose|k: int| 0 <= k < found.len() && #[trigger] found[k] == p;
                        assert(next[k] == p);
                    }
                }
            }
        } else {
            proof {
                assert forall|p: nat| p <= n && is_prime(p) implies exists|k: int|
                    0 <= k < found.len() && #[trigger] found[k] == p by {
                    assert(p <= n - 2);
                }
            }
        }
    }
    proof {
        assert(primes@.take(N as int) =~= primes@);
        assert(is_prime_table(primes@) && primes@.len() == N);
    }
    Some(primes)
}

/// The entry at index `i` of a prime table is at least `i + 2`.
pub proof fn lemma_table_entries_grow(t: Seq<u64>, i: int)
    requires
        is_prime_table(t),
        0 <= i < t.len(),
    ensures
        t[i] >= i + 2,
    decreases i,
{
    assert(is_prime(t[i] as nat));
    if i > 0 {
        lemma_table_entries_grow(t, i - 1);
        assert(t[i - 1] < t[i]);
    }
}

} // verus!
