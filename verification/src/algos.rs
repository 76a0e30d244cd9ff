//! Primality tests: trial division on machine words, and the Fermat and
//! Miller-Rabin tests with witnesses drawn by the caller.

use vstd::prelude::*;
use vstd::arithmetic::power::{lemma_pow_mod_noop, lemma_pow_multiplies, pow};
use vstd::arithmetic::power2::{lemma2_to64, lemma_pow2_strictly_increases, lemma_pow2_unfold, pow2};
use crate::arith::bigint_shr;
use crate::bigint::BigInt;
use crate::bytes::{BYTES, bytes_value};
use crate::number_theory::{lemma_fermat_little, lemma_prime_passes_round};
use crate::utils::{max_modulus, mod_exp, mod_exp_u128, mul_mod, spec_mod_exp};

verus! {

/// The verdict of a primality test.
#[derive(Clone, Copy, Debug, PartialEq, Eq, Structural)]
pub enum PrimeResult {
    Prime,
    Composite,
    Unknown,
    ProbablePrime,
}

/// `n` is prime: at least two, with no divisor strictly between one and itself.
pub open spec fn is_prime(n: nat) -> bool {
    &&& n >= 2
    &&& forall|d: nat| 1 < d < n ==> #[trigger] (n % d) != 0
}

/// The largest `r` with `r * r <= n`.
pub fn isqrt(n: u64) -> (r: u64)
    ensures
        r * r <= n < (r + 1) * (r + 1),
        r < 0x1_0000_0000,
{
    let mut low: u64 = 0;
    let mut high: u64 = 0x1_0000_0000;
    while high - low > 1
        invariant
            low < high <= 0x1_0000_0000,
            low * low <= n < high * high,
        decreases high - low,
    {
        let mid: u64 = low + (high - low) / 2;
        assert(mid * mid < 0x1_0000_0000 * 0x1_0000_0000) by (nonlinear_arith)
            requires
                mid < 0x1_0000_0000,
        ;
        if mid * mid <= n {
            low = mid;
        } else {
            high = mid;
        }
    }
    low
}

/// Whether trial division by `x` from 3 up, for as long as `x + 1` stays
/// within the square root of `n`, finds a divisor.
pub open spec fn simple_division_finds(n: nat) -> bool {
    exists|x: nat| 3 <= x && (x + 1) * (x + 1) <= n && #[trigger] (n % x) == 0
}

/// Trial division of a 16-bit number by every `x` from 3 to just below
/// its integer square root.
///
/// `Composite` is always right; `Prime` says only that no such `x` divides.
pub fn trial_division_simple(n: u16) -> (r: PrimeResult)
    ensures
        r == (if simple_division_finds(n as nat) {
            PrimeResult::Composite
        } else {
            PrimeResult::Prime
        }),
        r == PrimeResult::Composite ==> !is_prime(n as nat),
{
    let root = isqrt(n as u64);
    let mut x: u64 = 3;
    while x < root
        invariant
            3 <= x,
            root * root <= n < (root + 1) * (root + 1),
            root < 0x1_0000_0000,
            forall|y: nat| 3 <= y < x ==> #[trigger] (n as nat % y) != 0,
        decreases root - x,
    {
        if n as u64 % x == 0 {
            proof {
                assert((x + 1) * (x + 1) <= root * root) by (nonlinear_arith)
                    requires
                        0 <= x + 1 <= root,
                ;
                assert(n as nat % (x as nat) == 0);
                assert(x < n) by (nonlinear_arith)
                    requires
                        (x + 1) * (x + 1) <= n,
                        x >= 3,
                ;
            }
            return PrimeResult::Composite;
        }
        x += 1;
    }
    proof {
        assert forall|y: nat| 3 <= y && (y + 1) * (y + 1) <= n implies #[trigger] (n as nat % y)
            != 0 by {
            if y >= x {
                assert((root + 1) * (root + 1) <= (y + 1) * (y + 1)) by (nonlinear_arith)
                    requires
                        0 <= root <= y,
                ;
            }
        }
    }
    PrimeResult::Prime
}

/// The `k`-th trial divisor of the wheel that starts at `start` and
/// advances by six.
pub open spec fn wheel_at(start: nat, k: nat) -> nat {
    start + 6 * k
}

/// Whether the wheel from `start` finds a divisor of `n`: some trial
/// divisor `x` within the square root of `n` such that `x` or `x + 2`
/// divides `n`.
pub open spec fn wheel_finds(n: nat, start: nat) -> bool {
    exists|k: nat|
        {
            let x = #[trigger] wheel_at(start, k);
            x * x <= n && (n % x == 0 || n % (x + 2) == 0)
        }
}

/// Trial division by 3 and then by `x` and `x + 2` for every `x` from
/// `start`, in steps of six, up to the integer square root of `n`.
///
/// From `start == 5` this decides the primality of an odd `n` above three.
pub fn trial_division(n: u64, start: u64) -> (r: PrimeResult)
    requires
        start != 0,
    ensures
        r == (if n % 3 == 0 || wheel_finds(n as nat, start as nat) {
            PrimeResult::Composite
        } else {
            PrimeResult::Prime
        }),
        start == 5 && n > 3 && n % 2 == 1 ==> (r == PrimeResult::Prime <==> is_prime(n as nat)),
{
    proof {
        if start == 5 && n > 3 && n % 2 == 1 {
            lemma_wheel_decides(n as nat);
        }
    }
    if n % 3 == 0 {
        return PrimeResult::Composite;
    }
    let root = isqrt(n);
    let mut x: u64 = start;
    let ghost mut steps: nat = 0;
    while x <= root
        invariant
            start != 0,
            start == 5 && n > 3 && n % 2 == 1 ==> ((n % 3 == 0 || wheel_finds(n as nat, 5))
                <==> !is_prime(n as nat)),
            x == wheel_at(start as nat, steps),
            root * root <= n < (root + 1) * (root + 1),
            root < 0x1_0000_0000,
            forall|k: nat|
                k < steps ==> {
                    let y = #[trigger] wheel_at(start as nat, k);
                    n as nat % y != 0 && n as nat % (y + 2) != 0
                },
        decreases root + 6 - x,
    {
        if n % x == 0 || n % (x + 2) == 0 {
            proof {
                assert(x * x <= root * root) by (nonlinear_arith)
                    requires
                        0 <= x <= root,
                ;
                let y = wheel_at(start as nat, steps);
                assert(y * y <= n && (n as nat % y == 0 || n as nat % (y + 2) == 0));
            }
            return PrimeResult::Composite;
        }
        x += 6;
        proof {
            steps = steps + 1;
        }
    }
    proof {
        assert forall|k: nat|
            {
                let y = #[trigger] wheel_at(start as nat, k);
                !(y * y <= n && (n as nat % y == 0 || n as nat % (y + 2) == 0))
            } by {
            let y = wheel_at(start as nat, k);
            if k >= steps {
                assert((root + 1) * (root + 1) <= y * y) by (nonlinear_arith)
                    requires
                        0 <= root + 1 <= y,
                ;
            }
        }
    }
    PrimeResult::Prime
}

/// A multiple of a multiple of `c` is a multiple of `c`.
proof fn lemma_factor_of_multiple(d: nat, e: nat, c: nat)
    requires
        c > 0,
        d % c == 0,
    ensures
        (d * e) % c == 0,
        (e * d) % c == 0,
{
    let q = d / c;
    vstd::arithmetic::div_mod::lemma_fundamental_div_mod(d as int, c as int);
    assert(d * e == (q * e) * c && e * d == (q * e) * c) by (nonlinear_arith)
        requires
            d == c * q,
    ;
    vstd::arithmetic::div_mod::lemma_mod_multiples_basic((q * e) as int, c as int);
}

/// The two factors of an odd number that three does not divide are odd
/// themselves, are no multiples of three, and one of them lies within the
/// square root.
proof fn lemma_factor_facts(n: nat, d: nat, e: nat)
    requires
        n == d * e,
        n % 2 == 1,
        n % 3 != 0,
        1 < d < n,
    ensures
        d % 2 == 1,
        d % 3 != 0,
        e % 2 == 1,
        e % 3 != 0,
        1 < e < n,
        d * d <= n || e * e <= n,
{
    assert(1 < e < n) by (nonlinear_arith)
        requires
            n == d * e,
            1 < d < n,
    ;
    if d % 2 == 0 {
        lemma_factor_of_multiple(d, e, 2);
    }
    if e % 2 == 0 {
        lemma_factor_of_multiple(e, d, 2);
    }
    if d % 3 == 0 {
        lemma_factor_of_multiple(d, e, 3);
    }
    if e % 3 == 0 {
        lemma_factor_of_multiple(e, d, 3);
    }
    if d <= e {
        assert(d * d <= d * e) by (nonlinear_arith)
            requires
                d <= e,
        ;
    } else {
        assert(e * e <= d * e) by (nonlinear_arith)
            requires
                e <= d,
        ;
    }
}

/// The cofactor of a divisor.
proof fn lemma_divisor_pair(n: nat, d: nat) -> (e: nat)
    requires
        d > 0,
        n % d == 0,
    ensures
        n == d * e,
        d > 0 && n > 0 ==> n % e == 0,
{
    let e = n / d;
    vstd::arithmetic::div_mod::lemma_fundamental_div_mod(n as int, d as int);
    if n > 0 {
        assert(e > 0) by (nonlinear_arith)
            requires
                n == d * e,
                n > 0,
        ;
        vstd::arithmetic::mul::lemma_mul_is_commutative(d as int, e as int);
        vstd::arithmetic::div_mod::lemma_mod_multiples_basic(d as int, e as int);
    }
    e
}

/// A factor within the square root that is odd and no multiple of three
/// is met by the wheel from five.
proof fn lemma_small_factor_on_wheel(n: nat, f: nat)
    requires
        f > 1,
        f % 2 == 1,
        f % 3 != 0,
        f * f <= n,
        n % f == 0,
    ensures
        wheel_finds(n, 5),
{
    if f % 6 == 5 {
        let k = ((f - 5) / 6) as nat;
        assert(wheel_at(5, k) == f);
    } else {
        assert(f % 6 == 1);
        let k = ((f - 7) / 6) as nat;
        let x = wheel_at(5, k);
        assert(x + 2 == f);
        assert(x * x <= f * f) by (nonlinear_arith)
            requires
                0 <= x <= f,
        ;
    }
}

/// For an odd number above three, trial division on the wheel from five
/// decides primality: it finds a divisor exactly when there is one.
pub proof fn lemma_wheel_decides(n: nat)
    requires
        n > 3,
        n % 2 == 1,
    ensures
        (n % 3 == 0 || wheel_finds(n, 5)) <==> !is_prime(n),
{
    if n % 3 == 0 {
        assert(n % 3 == 0 && 1 < 3 < n);
    } else if wheel_finds(n, 5) {
        let k = choose|k: nat|
            {
                let x = #[trigger] wheel_at(5, k);
                x * x <= n && (n % x == 0 || n % (x + 2) == 0)
            };
        let x = wheel_at(5, k);
        assert(x < n && x + 2 < n) by (nonlinear_arith)
            requires
                x >= 5,
                x * x <= n,
        ;
        if n % x == 0 {
            assert(1 < x < n);
        } else {
            assert(1 < x + 2 < n && n % (x + 2) == 0);
        }
    } else if !is_prime(n) {
        let d = choose|d: nat| 1 < d < n && #[trigger] (n % d) == 0;
        let e = lemma_divisor_pair(n, d);
        lemma_factor_facts(n, d, e);
        if d * d <= n {
            lemma_small_factor_on_wheel(n, d);
        } else {
            lemma_small_factor_on_wheel(n, e);
        }
    }
}

/// What is left of `m` once every factor two is taken out.
pub open spec fn odd_part(m: nat) -> nat
    decreases m,
{
    if m == 0 || m % 2 == 1 {
        m
    } else {
        odd_part(m / 2)
    }
}

/// How many times two divides `m`; zero for zero.
pub open spec fn twos(m: nat) -> nat
    decreases m,
{
    if m == 0 || m % 2 == 1 {
        0
    } else {
        1 + twos(m / 2)
    }
}

/// A positive number is its odd part times the power of two it holds.
pub proof fn lemma_odd_part_twos(m: nat)
    requires
        m >= 1,
    ensures
        m == odd_part(m) * pow2(twos(m)),
        odd_part(m) % 2 == 1,
        pow2(twos(m)) <= m,
    decreases m,
{
    lemma2_to64();
    if m % 2 == 1 {
        assert(m * 1 == m);
    } else {
        let h = m / 2;
        lemma_odd_part_twos(h);
        lemma_pow2_unfold(twos(m));
        assert(odd_part(h) * (2 * pow2(twos(h))) == 2 * (odd_part(h) * pow2(twos(h))))
            by (nonlinear_arith);
    }
}

/// Whether the witness `a` lets `n` pass one Miller-Rabin round: with
/// `n - 1 = d * 2^s` and `d` odd, either `a^d` is 1 modulo `n`, or one of
/// `a^d, a^(2d), ..., a^(2^(s-1) d)` is `n - 1` modulo `n`.
pub open spec fn mr_round_passes(n: nat, a: nat) -> bool {
    let d = odd_part((n - 1) as nat);
    let s = twos((n - 1) as nat);
    ||| spec_mod_exp(a, d, n) == 1
    ||| exists|r: nat| r < s && #[trigger] spec_mod_exp(a, d * pow2(r), n) == n - 1
}

/// Squaring a power modulo `n` doubles its exponent.
pub proof fn lemma_square_doubles(a: nat, e: nat, n: nat)
    requires
        n > 0,
    ensures
        spec_mod_exp(spec_mod_exp(a, e, n), 2, n) == spec_mod_exp(a, 2 * e, n),
        (spec_mod_exp(a, e, n) * spec_mod_exp(a, e, n)) % n == spec_mod_exp(a, 2 * e, n),
{
    let x = pow(a as int, e);
    vstd::arithmetic::div_mod::lemma_mod_bound(x, n as int);
    lemma_pow_mod_noop(x, 2, n as int);
    lemma_pow_multiplies(a as int, e, 2);
    vstd::arithmetic::mul::lemma_mul_is_commutative(e as int, 2);
    vstd::arithmetic::power::lemma_square_is_pow2(x % (n as int));
}

/// Whether every one of the first `k` witnesses passes the Fermat test
/// for `num`: the witness to the power `num - 1` is 1 modulo `num`.
pub open spec fn fermat_passes_all(num: nat, k: nat, witnesses: Seq<u128>) -> bool {
    forall|i: int|
        0 <= i < k ==> spec_mod_exp(#[trigger] witnesses[i] as nat, (num - 1) as nat, num) == 1
}

/// The Fermat test of a machine word with `k` witnesses that the caller drew.
pub fn fermat_test_u128(num: u128, k: usize, witnesses: &[u128]) -> (r: PrimeResult)
    requires
        1 <= num <= 0x1_0000_0000_0000_0000,
        k <= witnesses.len(),
    ensures
        r == (if fermat_passes_all(num as nat, k as nat, witnesses@) {
            PrimeResult::ProbablePrime
        } else {
            PrimeResult::Composite
        }),
        is_prime(num as nat) && (forall|i: int| 0 <= i < k ==> witnesses[i] % num != 0) ==> r
            == PrimeResult::ProbablePrime,
{
    proof {
        if is_prime(num as nat) {
            assert forall|i: int| 0 <= i < k && witnesses[i] % num != 0 implies spec_mod_exp(
                #[trigger] witnesses[i] as nat,
                (num - 1) as nat,
                num as nat,
            ) == 1 by {
                lemma_fermat_little(witnesses[i] as nat, num as nat);
            }
        }
    }
    let mut i: usize = 0;
    while i < k
        invariant
            i <= k <= witnesses.len(),
            1 <= num <= 0x1_0000_0000_0000_0000,
            fermat_passes_all(num as nat, i as nat, witnesses@),
            is_prime(num as nat) ==> forall|j: int|
                0 <= j < k && witnesses[j] % num != 0 ==> spec_mod_exp(
                    #[trigger] witnesses[j] as nat,
                    (num - 1) as nat,
                    num as nat,
                ) == 1,
        decreases k - i,
    {
        let base = witnesses[i];
        if mod_exp_u128(base, num - 1, num) != 1 {
            return PrimeResult::Composite;
        }
        i += 1;
    }
    PrimeResult::ProbablePrime
}

/// Splits a positive machine word into its odd part and the number of
/// factors two.
pub fn split_twos_u128(m: u128) -> (r: (u32, u128))
    requires
        m >= 1,
    ensures
        r.0 == twos(m as nat),
        r.1 == odd_part(m as nat),
{
    let mut s: u32 = 0;
    let mut d: u128 = m;
    proof {
        lemma_odd_part_twos(m as nat);
    }
    while d % 2 == 0
        invariant
            d >= 1,
            m >= 1,
            odd_part(d as nat) == odd_part(m as nat),
            twos(d as nat) + s == twos(m as nat),
            pow2(twos(m as nat)) <= m,
        decreases d,
    {
        proof {
            if s >= 128 {
                lemma2_to64();
                vstd::arithmetic::power2::lemma_pow2_adds(64, 64);
                if twos(m as nat) > 128 {
                    lemma_pow2_strictly_increases(128, twos(m as nat));
                }
                assert(false);
            }
        }
        d = d / 2;
        s += 1;
    }
    (s, d)
}

/// One Miller-Rabin round for a machine word.
pub fn miller_rabin_round_u128(n: u128, s: u32, d: u128, base: u128) -> (r: bool)
    requires
        3 < n <= 0x1_0000_0000_0000_0000,
        s == twos((n - 1) as nat),
        d == odd_part((n - 1) as nat),
    ensures
        r == mr_round_passes(n as nat, base as nat),
        is_prime(n as nat) && base % n != 0 ==> r,
{
    proof {
        if is_prime(n as nat) && base % n != 0 {
            lemma_prime_passes_round(n as nat, base as nat);
        }
    }
    let mut x = mod_exp_u128(base, d, n);
    proof {
        lemma2_to64();
        assert(d * 1 == d);
    }
    if x == 1 {
        return true;
    }
    if s == 0 {
        return false;
    }
    if x == n - 1 {
        assert(spec_mod_exp(base as nat, d as nat * pow2(0), n as nat) == n - 1);
        return true;
    }
    let mut r: u32 = 1;
    while r < s
        invariant
            1 <= r <= s,
            3 < n <= 0x1_0000_0000_0000_0000,
            s == twos((n - 1) as nat),
            d == odd_part((n - 1) as nat),
            x < n,
            x == spec_mod_exp(base as nat, d as nat * pow2((r - 1) as nat), n as nat),
            spec_mod_exp(base as nat, d as nat, n as nat) != 1,
            forall|q: nat|
                q < r ==> #[trigger] spec_mod_exp(base as nat, d as nat * pow2(q), n as nat) != n
                    - 1,
        decreases s - r,
    {
        proof {
            lemma_square_doubles(base as nat, d as nat * pow2((r - 1) as nat), n as nat);
            lemma_pow2_unfold(r as nat);
            assert(2 * (d as nat * pow2((r - 1) as nat)) == d as nat * pow2(r as nat))
                by (nonlinear_arith)
                requires
                    pow2(r as nat) == 2 * pow2((r - 1) as nat),
            ;
            assert(x * x < 0x1_0000_0000_0000_0000 * 0x1_0000_0000_0000_0000)
                by (nonlinear_arith)
                requires
                    x < 0x1_0000_0000_0000_0000,
            ;
        }
        x = (x * x) % n;
        if x == n - 1 {
            assert(spec_mod_exp(base as nat, d as nat * pow2(r as nat), n as nat) == n - 1);
            return true;
        }
        r += 1;
    }
    false
}

/// Whether each of the first `k` witnesses lets `n` pass its round.
pub open spec fn mr_passes_all_u128(n: nat, k: nat, witnesses: Seq<u128>) -> bool {
    forall|i: int| 0 <= i < k ==> mr_round_passes(n, #[trigger] witnesses[i] as nat)
}

/// The Miller-Rabin test of an odd machine word above three, with `k`
/// witnesses that the caller drew.
///
/// A prime passes on every witness that it does not divide.
pub fn miller_rabin_test_u128(n: u128, k: usize, witnesses: &[u128]) -> (r: PrimeResult)
    requires
        3 < n <= 0x1_0000_0000_0000_0000,
        n % 2 == 1,
        k <= witnesses.len(),
    ensures
        r == (if mr_passes_all_u128(n as nat, k as nat, witnesses@) {
            PrimeResult::ProbablePrime
        } else {
            PrimeResult::Composite
        }),
        is_prime(n as nat) && (forall|i: int| 0 <= i < k ==> witnesses[i] % n != 0) ==> r
            == PrimeResult::ProbablePrime,
{
    proof {
        if is_prime(n as nat) {
            assert forall|i: int| 0 <= i < k && witnesses[i] % n != 0 implies mr_round_passes(
                n as nat,
                #[trigger] witnesses[i] as nat,
            ) by {
                lemma_prime_passes_round(n as nat, witnesses[i] as nat);
            }
        }
    }
    let (s, d) = split_twos_u128(n - 1);
    let mut i: usize = 0;
    while i < k
        invariant
            i <= k <= witnesses.len(),
            3 < n <= 0x1_0000_0000_0000_0000,
            s == twos((n - 1) as nat),
            d == odd_part((n - 1) as nat),
            mr_passes_all_u128(n as nat, i as nat, witnesses@),
            is_prime(n as nat) ==> forall|j: int|
                0 <= j < k && witnesses[j] % n != 0 ==> mr_round_passes(
                    n as nat,
                    #[trigger] witnesses[j] as nat,
                ),
        decreases k - i,
    {
        if !miller_rabin_round_u128(n, s, d, witnesses[i]) {
            return PrimeResult::Composite;
        }
        i += 1;
    }
    PrimeResult::ProbablePrime
}

/// Splits a positive value into its odd part and the number of factors two.
pub fn split_twos(m: BigInt) -> (r: (usize, BigInt))
    requires
        m@ >= 1,
    ensures
        r.0 == twos(m@),
        r.1@ == odd_part(m@),
{
    let mut s: usize = 0;
    let mut d = m;
    proof {
        lemma_odd_part_twos(m@);
    }
    while d.is_even()
        invariant
            d@ >= 1,
            m@ >= 1,
            odd_part(d@) == odd_part(m@),
            twos(d@) + s == twos(m@),
            pow2(twos(m@)) <= m@,
        decreases d@,
    {
        proof {
            lemma2_to64();
            if s >= 2048 {
                m.lemma_in_range();
                crate::limbs::lemma_radix_pow_is_pow2(32);
                if twos(m@) > 2048 {
                    lemma_pow2_strictly_increases(2048, twos(m@));
                }
                assert(false);
            }
        }
        d = bigint_shr(d, 1);
        s += 1;
    }
    (s, d)
}

/// One Miller-Rabin round: whether the witness `base` lets `n` pass.
pub fn miller_rabin_round(n: BigInt, s: usize, d: BigInt, base: BigInt) -> (r: bool)
    requires
        3 < n@ <= max_modulus(),
        s == twos((n@ - 1) as nat),
        d@ == odd_part((n@ - 1) as nat),
    ensures
        r == mr_round_passes(n@, base@),
        is_prime(n@) && base@ % n@ != 0 ==> r,
{
    proof {
        if is_prime(n@) && base@ % n@ != 0 {
            lemma_prime_passes_round(n@, base@);
        }
    }
    let one = BigInt::from(1u128);
    let n_minus_1 = n.decrease();
    let mut x = mod_exp(base, d, n);
    proof {
        lemma2_to64();
        assert(d@ * 1 == d@);
        vstd::arithmetic::div_mod::lemma_mod_bound(
            pow(base@ as int, d@),
            n@ as int,
        );
    }
    if x == one {
        return true;
    }
    if s == 0 {
        return false;
    }
    if x == n_minus_1 {
        assert(spec_mod_exp(base@, d@ * pow2(0), n@) == n@ - 1);
        return true;
    }
    let mut r: usize = 1;
    while r < s
        invariant
            1 <= r <= s,
            3 < n@ <= max_modulus(),
            n_minus_1@ == n@ - 1,
            s == twos((n@ - 1) as nat),
            d@ == odd_part((n@ - 1) as nat),
            x@ < n@,
            x@ == spec_mod_exp(base@, d@ * pow2((r - 1) as nat), n@),
            spec_mod_exp(base@, d@, n@) != 1,
            forall|q: nat| q < r ==> #[trigger] spec_mod_exp(base@, d@ * pow2(q), n@) != n@ - 1,
        decreases s - r,
    {
        proof {
            lemma_square_doubles(base@, d@ * pow2((r - 1) as nat), n@);
            lemma_pow2_unfold(r as nat);
            assert(2 * (d@ * pow2((r - 1) as nat)) == d@ * pow2(r as nat)) by (nonlinear_arith)
                requires
                    pow2(r as nat) == 2 * pow2((r - 1) as nat),
            ;
        }
        x = mul_mod(x, x, n);
        if x == n_minus_1 {
            assert(spec_mod_exp(base@, d@ * pow2(r as nat), n@) == n@ - 1);
            return true;
        }
        r += 1;
    }
    false
}

/// The witness of round `i`: the number that the round's `BYTES` bytes
/// of entropy denote, reduced modulo `n - 3`, plus two.
pub open spec fn mr_witness(n: nat, entropy: Seq<u8>, i: int) -> nat {
    2 + bytes_value(entropy.subrange(BYTES * i, BYTES * i + BYTES)) % ((n - 3) as nat)
}

/// Whether the witnesses of the first `k` rounds all let `n` pass.
pub open spec fn mr_passes_all(n: nat, k: nat, entropy: Seq<u8>) -> bool {
    forall|i: int| 0 <= i < k ==> mr_round_passes(n, #[trigger] mr_witness(n, entropy, i))
}

/// A prime above three passes every round, whatever the entropy: a
/// verdict of `Composite` is never wrong.
pub proof fn lemma_prime_passes_all(n: nat, k: nat, entropy: Seq<u8>)
    requires
        is_prime(n),
        n > 3,
    ensures
        mr_passes_all(n, k, entropy),
{
    assert forall|i: int| 0 <= i < k implies mr_round_passes(
        n,
        #[trigger] mr_witness(n, entropy, i),
    ) by {
        let raw = bytes_value(entropy.subrange(BYTES * i, BYTES * i + BYTES));
        let w = mr_witness(n, entropy, i);
        vstd::arithmetic::div_mod::lemma_mod_bound(raw as int, n - 3);
        vstd::arithmetic::div_mod::lemma_small_mod(w, n);
        lemma_prime_passes_round(n, w);
    }
}

/// The Miller-Rabin test of an odd number above three with `k` rounds,
/// each on a witness between 2 and `n - 2` chosen by `BYTES` bytes of the
/// entropy that the caller drew.
///
/// The verdict is `ProbablePrime` exactly when every round passes. A
/// prime passes every round, so `Composite` is always right.
pub fn miller_rabin_test(n: BigInt, k: usize, entropy: &[u8]) -> (r: PrimeResult)
    requires
        3 < n@ <= max_modulus(),
        n@ % 2 == 1,
        entropy.len() >= k * BYTES,
    ensures
        r == (if mr_passes_all(n@, k as nat, entropy@) {
            PrimeResult::ProbablePrime
        } else {
            PrimeResult::Composite
        }),
        is_prime(n@) ==> r == PrimeResult::ProbablePrime,
{
    proof {
        if is_prime(n@) {
            lemma_prime_passes_all(n@, k as nat, entropy@);
        }
    }
    let n_minus_1 = n.decrease();
    let (s, d) = split_twos(n_minus_1);
    let two = BigInt::from(2u128);
    let top = n.sub_u64(2);
    let mut i: usize = 0;
    proof {
        n.lemma_in_range();
    }
    while i < k
        invariant
            i <= k,
            entropy.len() >= k * BYTES,
            3 < n@ <= max_modulus(),
            n@ < crate::bigint::modulus(),
            two@ == 2,
            top@ == n@ - 2,
            s == twos((n@ - 1) as nat),
            d@ == odd_part((n@ - 1) as nat),
            mr_passes_all(n@, i as nat, entropy@),
            is_prime(n@) ==> mr_passes_all(n@, k as nat, entropy@),
        decreases k - i,
    {
        let chunk = vstd::slice::slice_subrange(entropy, i * BYTES, i * BYTES + BYTES);
        let base = BigInt::random_range(two, top, chunk);
        proof {
            assert(chunk@ == entropy@.subrange(BYTES * i, BYTES * i + BYTES));
            assert(base@ == mr_witness(n@, entropy@, i as int));
        }
        if !miller_rabin_round(n, s, d, base) {
            return PrimeResult::Composite;
        }
        i += 1;
    }
    PrimeResult::ProbablePrime
}

} // verus!
