//! Residues modulo a prime: inverses, Fermat's little theorem, and why a
//! prime passes every Miller-Rabin round.

use vstd::prelude::*;
use vstd::arithmetic::div_mod::{
    lemma_fundamental_div_mod, lemma_mod_bound, lemma_mod_multiples_vanish,
    lemma_mul_mod_noop_general, lemma_small_mod,
};
use vstd::arithmetic::mul::*;
use vstd::arithmetic::power::{lemma_pow0, lemma_pow1, lemma_pow_adds, lemma_pow_positive, pow};
use vstd::set_lib::{lemma_int_range, lemma_subset_equality, set_int_range};
use vstd::arithmetic::power2::{lemma2_to64, lemma_pow2_unfold, pow2};
use crate::algos::{
    is_prime, lemma_odd_part_twos, lemma_square_doubles, mr_round_passes, odd_part, twos,
};
use crate::utils::spec_mod_exp;

verus! {

/// From the inverse of `p mod a` to that of `a`.
proof fn lemma_inverse_step(p: int, a: int, q: int, r: int, r_inv: int, k: int, c: int, t: int)
    requires
        p == q * a + r,
        r * r_inv == k * p + 1,
        q * r_inv == t * p + c,
    ensures
        a * (p - c) == p * (a + a * t + k - r_inv) + 1,
{
    assert(a * (q * r_inv) + r * r_inv == p * r_inv) by (nonlinear_arith)
        requires
            p == q * a + r,
    ;
    assert(a * (q * r_inv) == a * t * p + a * c) by (nonlinear_arith)
        requires
            q * r_inv == t * p + c,
    ;
    assert(a * (p - c) == a * p - a * c) by (nonlinear_arith);
    assert(p * (a + a * t + k - r_inv) == p * a + a * t * p + k * p - p * r_inv)
        by (nonlinear_arith);
}

/// Every non-zero residue modulo a prime has an inverse.
pub proof fn lemma_inverse_exists(p: nat, a: nat) -> (b: nat)
    requires
        is_prime(p),
        0 < a < p,
    ensures
        0 < b < p,
        (a * b) % p == 1,
    decreases a,
{
    if a == 1 {
        lemma_small_mod(1, p);
        1
    } else {
        let q = p / a;
        let r = p % a;
        lemma_fundamental_div_mod(p as int, a as int);
        lemma_mod_bound(p as int, a as int);
        assert(r != 0);
        let r_inv = lemma_inverse_exists(p, r);
        let k = (r * r_inv) / p;
        lemma_fundamental_div_mod((r * r_inv) as int, p as int);
        let t = (q * r_inv) / p;
        let c = (q * r_inv) % p;
        lemma_fundamental_div_mod((q * r_inv) as int, p as int);
        lemma_mod_bound((q * r_inv) as int, p as int);
        lemma_mul_is_commutative(p as int, k as int);
        lemma_mul_is_commutative(p as int, t as int);
        lemma_mul_is_commutative(a as int, q as int);
        lemma_inverse_step(
            p as int,
            a as int,
            q as int,
            r as int,
            r_inv as int,
            k as int,
            c as int,
            t as int,
        );
        let y = a + a * t + k - r_inv;
        lemma_mod_multiples_vanish(y, 1, p as int);
        lemma_small_mod(1, p);
        if c == 0 {
            // then a * p is one more than a multiple of p
            lemma_mod_multiples_vanish(a as int, 0, p as int);
            lemma_mul_is_commutative(p as int, a as int);
            assert(false);
        }
        (p - c) as nat
    }
}

/// A prime that divides a product divides one of the factors.
pub proof fn lemma_prime_divides_product(p: nat, x: nat, y: nat)
    requires
        is_prime(p),
        (x * y) % p == 0,
    ensures
        x % p == 0 || y % p == 0,
{
    if x % p != 0 {
        let a = x % p;
        lemma_mod_bound(x as int, p as int);
        let b = lemma_inverse_exists(p, a);
        let (pi, xi, yi, ai, bi) = (p as int, x as int, y as int, a as int, b as int);
        // y = y * (a * b) = (y * a) * b = (y * x) * b = 0 modulo p
        lemma_mul_mod_noop_general(yi, ai * bi, pi);
        lemma_mul_basics(yi);
        assert((yi * (ai * bi)) % pi == yi % pi);
        lemma_mul_is_associative(yi, ai, bi);
        lemma_mul_mod_noop_general(yi * ai, bi, pi);
        lemma_mul_mod_noop_general(yi, xi, pi);
        lemma_mul_is_commutative(xi, yi);
        assert((yi * ai) % pi == 0);
        lemma_mul_basics(bi);
        lemma_small_mod(0, p);
    }
}

/// The product of the numbers from 1 to `n`.
pub open spec fn factorial(n: nat) -> nat
    decreases n,
{
    if n == 0 {
        1
    } else {
        n * factorial((n - 1) as nat)
    }
}

/// The product of the entries of `s`.
pub open spec fn product(s: Seq<int>) -> int
    decreases s.len(),
{
    if s.len() == 0 {
        1
    } else {
        product(s.drop_last()) * s.last()
    }
}

/// The residues of `a, 2a, ..., na` modulo `p`.
pub open spec fn multiples(a: nat, p: nat, n: nat) -> Seq<int> {
    Seq::new(n, |i: int| (a * (i + 1)) % (p as int))
}

/// Taking one entry out of a product divides the product by it.
proof fn lemma_product_remove(s: Seq<int>, j: int)
    requires
        0 <= j < s.len(),
    ensures
        product(s) == s[j] * product(s.remove(j)),
    decreases s.len(),
{
    if j == s.len() - 1 {
        assert(s.remove(j) =~= s.drop_last());
        lemma_mul_is_commutative(product(s.drop_last()), s.last());
    } else {
        lemma_product_remove(s.drop_last(), j);
        assert(s.drop_last().remove(j) =~= s.remove(j).drop_last());
        assert(s.remove(j).last() == s.last());
        lemma_mul_is_associative(s[j], product(s.remove(j).drop_last()), s.last());
    }
}

/// A sequence that holds each of the numbers from 1 to its length once
/// has their product.
proof fn lemma_product_of_permutation(s: Seq<int>)
    requires
        s.no_duplicates(),
        forall|i: int| 0 <= i < s.len() ==> 1 <= #[trigger] s[i] <= s.len(),
    ensures
        product(s) == factorial(s.len()),
    decreases s.len(),
{
    let n = s.len() as int;
    if n > 0 {
        // each number up to n occurs, so n does
        s.unique_seq_to_set();
        lemma_int_range(1, n + 1);
        assert(s.to_set().subset_of(set_int_range(1, n + 1))) by {
            assert forall|x: int| s.to_set().contains(x) implies set_int_range(1, n + 1).contains(
                x,
            ) by {
                let i = choose|i: int| 0 <= i < s.len() && s[i] == x;
                assert(1 <= s[i] <= s.len());
            }
        }
        vstd::seq_lib::seq_to_set_is_finite(s);
        lemma_subset_equality(s.to_set(), set_int_range(1, n + 1));
        assert(set_int_range(1, n + 1).contains(n));
        assert(s.to_set().contains(n));
        let j = choose|j: int| 0 <= j < s.len() && s[j] == n;
        let rest = s.remove(j);
        assert(rest.no_duplicates()) by {
            assert forall|x: int, y: int|
                0 <= x < rest.len() && 0 <= y < rest.len() && x != y implies rest[x] != rest[y] by {
                let sx = if x < j { x } else { x + 1 };
                let sy = if y < j { y } else { y + 1 };
                assert(rest[x] == s[sx] && rest[y] == s[sy]);
            }
        }
        assert forall|i: int| 0 <= i < rest.len() implies 1 <= #[trigger] rest[i] <= rest.len() by {
            let si = if i < j { i } else { i + 1 };
            assert(rest[i] == s[si]);
            assert(1 <= s[si] <= s.len());
            assert(s[si] != s[j]);
        }
        lemma_product_of_permutation(rest);
        lemma_product_remove(s, j);
    }
}

/// The product of the first `n` multiples of `a`, reduced modulo `p`, is
/// that of `a^n * n!`.
proof fn lemma_product_of_multiples(a: nat, p: nat, n: nat)
    requires
        p > 0,
    ensures
        product(multiples(a, p, n)) % (p as int) == (pow(a as int, n) * factorial(n)) % (p as int),
    decreases n,
{
    let pi = p as int;
    let ai = a as int;
    if n == 0 {
        lemma_pow0(ai);
    } else {
        let m = (n - 1) as nat;
        let below = multiples(a, p, m);
        let all = multiples(a, p, n);
        lemma_product_of_multiples(a, p, m);
        assert(all.drop_last() =~= below);
        assert(all.last() == (ai * n) % pi);
        let x = product(below);
        let y = pow(ai, m) * factorial(m);
        // x * ((a n) % p) = x * (a n) = y * (a n) modulo p
        lemma_mul_mod_noop_general(x, ai * n, pi);
        lemma_mul_mod_noop_general(y, ai * n, pi);
        lemma_pow1(ai);
        lemma_pow_adds(ai, m, 1);
        assert(y * (ai * n) == pow(ai, n) * factorial(n)) by (nonlinear_arith)
            requires
                y == pow(ai, m) * factorial(m),
                pow(ai, n) == pow(ai, m) * ai,
                factorial(n) == n * factorial(m),
        ;
    }
}

/// A prime does not divide the product of two numbers it does not divide.
proof fn lemma_product_not_divisible(p: nat, x: nat, y: nat)
    requires
        is_prime(p),
        x % p != 0,
        y % p != 0,
    ensures
        (x * y) % p != 0,
{
    if (x * y) % p == 0 {
        lemma_prime_divides_product(p, x, y);
    }
}

/// A prime does not divide the factorial of a smaller number.
proof fn lemma_factorial_not_divisible(p: nat, k: nat)
    requires
        is_prime(p),
        k < p,
    ensures
        factorial(k) % p != 0,
    decreases k,
{
    if k == 0 {
        lemma_small_mod(1, p);
    } else {
        lemma_factorial_not_divisible(p, (k - 1) as nat);
        lemma_small_mod(k, p);
        lemma_product_not_divisible(p, k, factorial((k - 1) as nat));
    }
}

/// Modulo a prime, the multiples `a, 2a, ..., (p - 1)a` of a number that
/// the prime does not divide are the residues from 1 to `p - 1`, each once.
proof fn lemma_multiples_permute(a: nat, p: nat)
    requires
        is_prime(p),
        a % p != 0,
    ensures
        multiples(a, p, (p - 1) as nat).no_duplicates(),
        forall|i: int|
            0 <= i < p - 1 ==> 1 <= #[trigger] multiples(a, p, (p - 1) as nat)[i] <= p - 1,
{
    let s = multiples(a, p, (p - 1) as nat);
    let pi = p as int;
    assert forall|i: int| 0 <= i < p - 1 implies 1 <= #[trigger] s[i] <= p - 1 by {
        let k = (i + 1) as nat;
        lemma_mod_bound((a * k) as int, pi);
        lemma_small_mod(k, p);
        lemma_product_not_divisible(p, a, k);
    }
    assert forall|i: int, j: int| 0 <= i < s.len() && 0 <= j < s.len() && i != j implies s[i]
        != s[j] by {
        if s[i] == s[j] {
            let (lo, hi) = if i < j {
                (i, j)
            } else {
                (j, i)
            };
            let gap = (hi - lo) as nat;
            vstd::arithmetic::div_mod::lemma_mod_equivalence(a * (hi + 1), a * (lo + 1), pi);
            assert(a * (hi + 1) - a * (lo + 1) == a * gap) by (nonlinear_arith)
                requires
                    gap == hi - lo,
            ;
            lemma_small_mod(gap, p);
            lemma_product_not_divisible(p, a, gap);
        }
    }
}

/// Fermat's little theorem: a number that a prime `p` does not divide,
/// raised to the power `p - 1`, is 1 modulo `p`.
pub proof fn lemma_fermat_little(a: nat, p: nat)
    requires
        is_prime(p),
        a % p != 0,
    ensures
        pow(a as int, (p - 1) as nat) % (p as int) == 1,
{
    let n = (p - 1) as nat;
    let pi = p as int;
    let s = multiples(a, p, n);
    let f = factorial(n) as int;
    let e = pow(a as int, n);
    lemma_multiples_permute(a, p);
    lemma_product_of_permutation(s);
    lemma_product_of_multiples(a, p, n);
    // f = e * f modulo p, so p divides (e - 1) * f, and it does not divide f
    assert(f % pi == (e * f) % pi);
    lemma_small_mod(0, p);
    assert(a > 0);
    lemma_pow_positive(a as int, n);
    vstd::arithmetic::div_mod::lemma_mod_equivalence(e * f, f, pi);
    assert(e * f - f == (e - 1) * f) by (nonlinear_arith);
    lemma_factorial_not_divisible(p, n);
    lemma_mul_nonnegative(e - 1, f);
    lemma_prime_divides_product(p, (e - 1) as nat, f as nat);
    assert((e - 1) % pi == 0);
    vstd::arithmetic::div_mod::lemma_mod_equivalence(e, 1, pi);
    lemma_small_mod(1, p);
}

/// Modulo a prime, only 1 and `p - 1` square to 1.
pub proof fn lemma_square_roots_of_one(p: nat, x: nat)
    requires
        is_prime(p),
        x < p,
        (x * x) % p == 1,
    ensures
        x == 1 || x == p - 1,
{
    let pi = p as int;
    let xi = x as int;
    lemma_small_mod(1, p);
    lemma_small_mod(0, p);
    assert(x > 0) by {
        if x == 0 {
            lemma_mul_basics(xi);
        }
    }
    vstd::arithmetic::div_mod::lemma_mod_equivalence(xi * xi, 1, pi);
    assert(xi * xi - 1 == (xi - 1) * (xi + 1)) by (nonlinear_arith);
    lemma_mul_nonnegative(xi - 1, xi + 1);
    lemma_prime_divides_product(p, (x - 1) as nat, x + 1);
    if ((x - 1) as nat) % p == 0 {
        lemma_small_mod((x - 1) as nat, p);
        assert(x == 1);
    } else {
        // x + 1 is a positive multiple of p and at most p
        assert((x + 1) % p == 0);
        lemma_fundamental_div_mod(xi + 1, pi);
        let q = (xi + 1) / pi;
        assert(xi + 1 == pi * q);
        assert(q == 1) by (nonlinear_arith)
            requires
                xi + 1 == pi * q,
                0 < xi + 1 <= pi,
        ;
        assert(x == p - 1);
    }
}

/// Along the chain `a^d, a^(2d), ..., a^(2^s d)` modulo a prime that ends
/// in 1, every member is 1 or is followed, before the end, by `p - 1`.
proof fn lemma_squaring_chain(p: nat, a: nat, d: nat, s: nat, r: nat)
    requires
        is_prime(p),
        p > 2,
        r <= s,
        spec_mod_exp(a, d * pow2(s), p) == 1,
    ensures
        spec_mod_exp(a, d * pow2(r), p) == 1 || exists|q: nat|
            r <= q < s && #[trigger] spec_mod_exp(a, d * pow2(q), p) == p - 1,
    decreases s - r,
{
    if r < s {
        lemma_squaring_chain(p, a, d, s, r + 1);
        let x = spec_mod_exp(a, d * pow2(r), p);
        if spec_mod_exp(a, d * pow2(r + 1), p) == 1 {
            lemma_square_doubles(a, d * pow2(r), p);
            lemma_pow2_unfold(r + 1);
            assert(2 * (d * pow2(r)) == d * pow2(r + 1)) by (nonlinear_arith)
                requires
                    pow2(r + 1) == 2 * pow2(r),
            ;
            lemma_mod_bound(pow(a as int, d * pow2(r)), p as int);
            lemma_square_roots_of_one(p, x);
        }
    }
}

/// A prime above two passes the Miller-Rabin round of every witness that
/// it does not divide.
pub proof fn lemma_prime_passes_round(p: nat, a: nat)
    requires
        is_prime(p),
        p > 2,
        a % p != 0,
    ensures
        mr_round_passes(p, a),
{
    let m = (p - 1) as nat;
    lemma_odd_part_twos(m);
    lemma_fermat_little(a, p);
    lemma_squaring_chain(p, a, odd_part(m), twos(m), 0);
    lemma2_to64();
    lemma_mul_basics(odd_part(m) as int);
}

/// Fermat's little theorem as modular exponentiation computes it: for a
/// prime `p` and any `a` from 2 to `p - 2`, `a^(p - 1)` is 1 modulo `p`.
pub proof fn lemma_fermat_mod_exp(p: nat, a: nat)
    requires
        is_prime(p),
        2 <= a <= p - 2,
    ensures
        spec_mod_exp(a, (p - 1) as nat, p) == 1,
{
    lemma_small_mod(a, p);
    lemma_fermat_little(a, p);
}

/// Divisibility passes along a chain of divisors.
proof fn lemma_divides_transitive(n: nat, f: nat, q: nat)
    requires
        f > 0,
        q > 0,
        n % f == 0,
        f % q == 0,
    ensures
        n % q == 0,
{
    lemma_fundamental_div_mod(n as int, f as int);
    lemma_fundamental_div_mod(f as int, q as int);
    let (a, b) = (n / f, f / q);
    assert(n == (a * b) * q) by (nonlinear_arith)
        requires
            n == f * a,
            f == q * b,
    ;
    vstd::arithmetic::div_mod::lemma_mod_multiples_basic((a * b) as int, q as int);
}

/// Every number from two up has a prime divisor.
pub proof fn lemma_prime_divisor(f: nat) -> (q: nat)
    requires
        f >= 2,
    ensures
        is_prime(q),
        q <= f,
        f % q == 0,
    decreases f,
{
    if is_prime(f) {
        vstd::arithmetic::div_mod::lemma_mod_self_0(f as int);
        f
    } else {
        let e = choose|e: nat| 1 < e < f && #[trigger] (f % e) == 0;
        let q = lemma_prime_divisor(e);
        lemma_divides_transitive(f, e, q);
        q
    }
}

/// A number from two up that is not prime has a prime divisor within its
/// square root.
pub proof fn lemma_small_prime_divisor(n: nat) -> (q: nat)
    requires
        n >= 2,
        !is_prime(n),
    ensures
        is_prime(q),
        q * q <= n,
        n % q == 0,
{
    let d = choose|d: nat| 1 < d < n && #[trigger] (n % d) == 0;
    let e = n / d;
    lemma_fundamental_div_mod(n as int, d as int);
    assert(1 < e < n) by (nonlinear_arith)
        requires
            n == d * e,
            1 < d < n,
    ;
    lemma_mul_is_commutative(d as int, e as int);
    vstd::arithmetic::div_mod::lemma_mod_multiples_basic(d as int, e as int);
    let f = if d <= e {
        d
    } else {
        e
    };
    assert(f * f <= n) by (nonlinear_arith)
        requires
            n == d * e,
            f == d && d <= e || f == e && e <= d,
    ;
    let q = lemma_prime_divisor(f);
    lemma_divides_transitive(n, f, q);
    assert(q * q <= f * f) by (nonlinear_arith)
        requires
            q <= f,
    ;
    q
}

/// A prime above three leaves 1 or 5 when divided by six.
pub proof fn lemma_prime_mod_six(q: nat)
    requires
        is_prime(q),
        q > 3,
    ensures
        q % 6 == 1 || q % 6 == 5,
{
    assert(q % 2 != 0);
    assert(q % 3 != 0);
}

} // verus!
