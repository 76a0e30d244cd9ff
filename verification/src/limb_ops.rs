//! Arithmetic on limb sequences: the loops under the operations of the
//! fixed-width integer, each stated over the numbers the limbs denote.

use vstd::prelude::*;
use vstd::arithmetic::mul::*;
use crate::limbs::{
    lemma_radix_pow_adds, lemma_value_all_zero, lemma_value_fits, lemma_value_high_zero,
    lemma_value_injective, lemma_value_low_limb, lemma_value_split, lemma_value_take_step,
    lemma_value_top_decides, lemma_value_update, limbs_top, limbs_value, radix, radix_pow,
};

verus! {

/// Adds two limb sequences of equal length and reports the carry out of
/// the top limb.
pub fn add_limbs(a: &[u64], b: &[u64]) -> (r: (Vec<u64>, bool))
    requires
        a.len() == b.len(),
    ensures
        r.0.len() == a.len(),
        limbs_value(r.0@) + (if r.1 { radix_pow(a.len() as nat) } else { 0 }) == limbs_value(a@)
            + limbs_value(b@),
{
    let n = a.len();
    let mut out: Vec<u64> = Vec::new();
    let mut carry: u64 = 0;
    let mut i: usize = 0;
    while i < n
        invariant
            i <= n,
            n == a.len(),
            n == b.len(),
            out.len() == i,
            carry <= 1,
            limbs_value(out@) + carry * radix_pow(i as nat) == limbs_value(a@.take(i as int))
                + limbs_value(b@.take(i as int)),
        decreases n - i,
    {
        let sum: u128 = a[i] as u128 + b[i] as u128 + carry as u128;
        let low: u64 = (sum & 0xffff_ffff_ffff_ffff) as u64;
        let high: u64 = (sum >> 64) as u64;
        proof {
            assert(sum == low + 0x1_0000_0000_0000_0000 * high && high <= 1) by (bit_vector)
                requires
                    sum < 0x2_0000_0000_0000_0000u128,
                    low == (sum & 0xffff_ffff_ffff_ffff) as u64,
                    high == (sum >> 64) as u64,
            ;
            let ghost_out = out@.push(low);
            assert(ghost_out.drop_last() =~= out@);
            lemma_value_take_step(a@, i as int);
            lemma_value_take_step(b@, i as int);
            let w = radix_pow(i as nat) as int;
            assert(radix_pow((i + 1) as nat) == radix() * radix_pow(i as nat));
            assert((a[i as int] + b[i as int] + carry) * w == (low + radix() * high) * w);
            lemma_mul_is_distributive_add_other_way(
                w,
                a[i as int] as int + b[i as int] as int,
                carry as int,
            );
            lemma_mul_is_distributive_add_other_way(w, a[i as int] as int, b[i as int] as int);
            lemma_mul_is_distributive_add_other_way(w, low as int, radix() as int * high as int);
            lemma_mul_is_associative(radix() as int, high as int, w);
            lemma_mul_is_associative(high as int, radix() as int, w);
            lemma_mul_is_commutative(radix() as int, high as int);
        }
        out.push(low);
        carry = high;
        i += 1;
    }
    proof {
        assert(a@.take(n as int) =~= a@);
        assert(b@.take(n as int) =~= b@);
        if carry == 1 {
            assert(1 * radix_pow(n as nat) == radix_pow(n as nat));
        } else {
            assert(0 * radix_pow(n as nat) == 0);
        }
    }
    (out, carry == 1)
}

/// Subtracts `b` from `a`, limb by limb, and reports the borrow out of the
/// top limb.
pub fn sub_limbs(a: &[u64], b: &[u64]) -> (r: (Vec<u64>, bool))
    requires
        a.len() == b.len(),
    ensures
        r.0.len() == a.len(),
        limbs_value(r.0@) + limbs_value(b@) == limbs_value(a@) + (if r.1 {
            radix_pow(a.len() as nat)
        } else {
            0
        }),
{
    let n = a.len();
    let mut out: Vec<u64> = Vec::new();
    let mut borrow: u64 = 0;
    let mut i: usize = 0;
    while i < n
        invariant
            i <= n,
            n == a.len(),
            n == b.len(),
            out.len() == i,
            borrow <= 1,
            limbs_value(out@) + limbs_value(b@.take(i as int)) == limbs_value(a@.take(i as int))
                + borrow * radix_pow(i as nat),
        decreases n - i,
    {
        let taken: u128 = b[i] as u128 + borrow as u128;
        let have: u128 = a[i] as u128;
        let (low, next): (u64, u64) = if have >= taken {
            ((have - taken) as u64, 0)
        } else {
            ((have + 0x1_0000_0000_0000_0000 - taken) as u64, 1)
        };
        proof {
            assert(low + b[i as int] + borrow == a[i as int] + radix() * next);
            assert(out@.push(low).drop_last() =~= out@);
            lemma_value_take_step(a@, i as int);
            lemma_value_take_step(b@, i as int);
            let w = radix_pow(i as nat) as int;
            assert(radix_pow((i + 1) as nat) == radix() * radix_pow(i as nat));
            assert((low + b[i as int] + borrow) * w == (a[i as int] + radix() * next) * w);
            lemma_mul_is_distributive_add_other_way(
                w,
                low as int + b[i as int] as int,
                borrow as int,
            );
            lemma_mul_is_distributive_add_other_way(w, low as int, b[i as int] as int);
            lemma_mul_is_distributive_add_other_way(
                w,
                a[i as int] as int,
                radix() as int * next as int,
            );
            lemma_mul_is_associative(radix() as int, next as int, w);
            lemma_mul_is_associative(next as int, radix() as int, w);
            lemma_mul_is_commutative(radix() as int, next as int);
        }
        out.push(low);
        borrow = next;
        i += 1;
    }
    proof {
        assert(a@.take(n as int) =~= a@);
        assert(b@.take(n as int) =~= b@);
        if borrow == 1 {
            assert(1 * radix_pow(n as nat) == radix_pow(n as nat));
        } else {
            assert(0 * radix_pow(n as nat) == 0);
        }
    }
    (out, borrow == 1)
}

/// Decides whether `a` denotes a smaller number than `b`, scanning from
/// the most significant limb.
pub fn lt_limbs(a: &[u64], b: &[u64]) -> (r: bool)
    requires
        a.len() == b.len(),
    ensures
        r == (limbs_value(a@) < limbs_value(b@)),
{
    let n = a.len();
    let mut i: usize = n;
    while i > 0
        invariant
            i <= n,
            n == a.len(),
            n == b.len(),
            a@.skip(i as int) == b@.skip(i as int),
        decreases i,
    {
        i -= 1;
        if a[i] != b[i] {
            proof {
                let k = i as int + 1;
                lemma_value_split(a@, k);
                lemma_value_split(b@, k);
                assert(a@.skip(k) == b@.skip(k));
                assert(a@.take(k).last() == a[i as int]);
                assert(b@.take(k).last() == b[i as int]);
                if a[i as int] < b[i as int] {
                    lemma_value_top_decides(a@.take(k), b@.take(k));
                } else {
                    lemma_value_top_decides(b@.take(k), a@.take(k));
                }
            }
            return a[i] < b[i];
        }
        proof {
            assert(a@.skip(i as int) =~= seq![a[i as int]] + a@.skip(i as int + 1));
            assert(b@.skip(i as int) =~= seq![b[i as int]] + b@.skip(i as int + 1));
        }
    }
    proof {
        assert(a@.skip(0) =~= a@);
        assert(b@.skip(0) =~= b@);
    }
    false
}

/// A vector of `n` zero limbs.
pub fn zero_limbs(n: usize) -> (r: Vec<u64>)
    ensures
        r.len() == n,
        forall|i: int| 0 <= i < n ==> r[i] == 0,
        limbs_value(r@) == 0,
{
    let mut r: Vec<u64> = Vec::new();
    let mut i: usize = 0;
    while i < n
        invariant
            i <= n,
            r.len() == i,
            forall|k: int| 0 <= k < i ==> r[k] == 0,
        decreases n - i,
    {
        r.push(0);
        i += 1;
    }
    proof {
        lemma_value_all_zero(r@);
    }
    r
}

/// One column of a row: the partial product with the carry and the old
/// limb leaves its low half in place and carries its high half on.
proof fn lemma_row_step(
    v0: int,
    v: int,
    v2: int,
    a_low: int,
    a_low2: int,
    a: int,
    q: int,
    c: int,
    old_limb: int,
    low: int,
    high: int,
    bk: int,
    bk1: int,
    bi: int,
    bj: int,
    r: int,
)
    requires
        v + c * bk == v0 + a_low * q * bj,
        v2 + old_limb * bk == v + low * bk,
        a * q + c + old_limb == low + r * high,
        bk1 == r * bk,
        a_low2 == a_low + a * bi,
        bk == bi * bj,
    ensures
        v2 + high * bk1 == v0 + a_low2 * q * bj,
{
    let t = a * q + c + old_limb;
    assert(t * bk == low * bk + high * bk1) by (nonlinear_arith)
        requires
            t == low + r * high,
            bk1 == r * bk,
    ;
    assert(t * bk == a * q * bk + c * bk + old_limb * bk) by (nonlinear_arith)
        requires
            t == a * q + c + old_limb,
    ;
    assert(a_low2 * q * bj == a_low * q * bj + a * q * bk) by (nonlinear_arith)
        requires
            a_low2 == a_low + a * bi,
            bk == bi * bj,
    ;
}

/// Adds `a * q * radix()^j` into `acc` in place, limb by limb, and returns
/// the carry out of the top limb of `acc`.
pub fn mul_add_into(acc: &mut Vec<u64>, a: &[u64], q: u64, j: usize) -> (carry: u64)
    requires
        a.len() + j <= old(acc).len(),
    ensures
        final(acc).len() == old(acc).len(),
        limbs_value(final(acc)@) + carry * radix_pow(old(acc).len() as nat) == limbs_value(
            old(acc)@,
        ) + limbs_value(a@) * q * radix_pow(j as nat),
{
    let n = acc.len();
    let m = a.len();
    let ghost acc0 = acc@;
    let mut carry: u64 = 0;
    let mut k: usize = j;
    proof {
        assert(a@.take(0).len() == 0);
        assert(limbs_value(a@.take(0)) == 0);
        assert(0 * radix_pow(j as nat) == 0);
        assert(limbs_value(a@.take(0)) * q == 0);
        assert(limbs_value(a@.take(0)) * q * radix_pow(j as nat) == 0);
    }
    while k < n
        invariant
            j <= k <= n,
            n == acc.len(),
            n == acc0.len(),
            m == a.len(),
            m + j <= n,
            limbs_value(acc@) + carry * radix_pow(k as nat) == limbs_value(acc0) + limbs_value(
                a@.take(if k - j < m { k - j } else { m as int }),
            ) * q * radix_pow(j as nat),
        decreases n - k,
    {
        let i = k - j;
        let limb: u64 = if i < m { a[i] } else { 0 };
        let old_limb: u64 = acc[k];
        assert(limb as u128 * q as u128 <= 0xffff_ffff_ffff_ffff * 0xffff_ffff_ffff_ffff)
            by (nonlinear_arith)
            requires
                limb <= 0xffff_ffff_ffff_ffff,
                q <= 0xffff_ffff_ffff_ffff,
        ;
        let partial: u128 = limb as u128 * q as u128 + carry as u128 + old_limb as u128;
        let low: u64 = #[verifier::truncate] ((partial & 0xffff_ffff_ffff_ffff) as u64);
        let high: u64 = #[verifier::truncate] ((partial >> 64) as u64);
        proof {
            assert(partial == low + 0x1_0000_0000_0000_0000 * high) by (bit_vector)
                requires
                    low == (partial & 0xffff_ffff_ffff_ffff) as u64,
                    high == (partial >> 64) as u64,
            ;
            let lo_len = if i < m { i as int } else { m as int };
            let lo_len2 = if i + 1 < m { i as int + 1 } else { m as int };
            if i < m {
                lemma_value_take_step(a@, i as int);
            } else {
                lemma_mul_basics(radix_pow(i as nat) as int);
            }
            lemma_value_update(acc@, k as int, low);
            lemma_radix_pow_adds(i as nat, j as nat);
            assert(radix_pow((k + 1) as nat) == radix() * radix_pow(k as nat));
            lemma_row_step(
                limbs_value(acc0) as int,
                limbs_value(acc@) as int,
                limbs_value(acc@.update(k as int, low)) as int,
                limbs_value(a@.take(lo_len)) as int,
                limbs_value(a@.take(lo_len2)) as int,
                limb as int,
                q as int,
                carry as int,
                old_limb as int,
                low as int,
                high as int,
                radix_pow(k as nat) as int,
                radix_pow((k + 1) as nat) as int,
                radix_pow(i as nat) as int,
                radix_pow(j as nat) as int,
                radix() as int,
            );
        }
        acc.set(k, low);
        carry = high;
        k += 1;
    }
    proof {
        assert(a@.take(m as int) =~= a@);
    }
    carry
}

/// One digit of short division.
proof fn lemma_short_division_step(
    hi: int,
    q_hi: int,
    rem: int,
    limb: int,
    digit: int,
    rem2: int,
    d: int,
    r: int,
)
    requires
        hi == q_hi * d + rem,
        0 <= rem < d,
        0 <= limb < r,
        rem * r + limb == digit * d + rem2,
        0 <= rem2 < d,
    ensures
        limb + r * hi == (digit + r * q_hi) * d + rem2,
        0 <= digit < r,
{
    assert(r * hi == r * q_hi * d + rem * r) by (nonlinear_arith)
        requires
            hi == q_hi * d + rem,
    ;
    assert((digit + r * q_hi) * d == digit * d + r * q_hi * d) by (nonlinear_arith);
    assert(0 <= digit < r) by (nonlinear_arith)
        requires
            rem * r + limb == digit * d + rem2,
            0 <= rem2 < d,
            0 <= rem < d,
            0 <= limb < r,
    ;
}

/// Divides a limb sequence by a single non-zero limb, most significant
/// limb first, and returns the quotient with the remainder.
pub fn div_limb(v: &[u64], d: u64) -> (r: (Vec<u64>, u64))
    requires
        d != 0,
    ensures
        r.0.len() == v.len(),
        limbs_value(v@) == limbs_value(r.0@) * d + r.1,
        r.1 < d,
{
    let n = v.len();
    let mut q = zero_limbs(n);
    let mut rem: u64 = 0;
    let mut i: usize = n;
    proof {
        assert(limbs_value(v@.skip(n as int)) == 0);
        assert(limbs_value(q@.skip(n as int)) == 0);
        lemma_mul_basics(d as int);
    }
    while i > 0
        invariant
            i <= n,
            n == v.len(),
            n == q.len(),
            d != 0,
            rem < d,
            limbs_value(v@.skip(i as int)) == limbs_value(q@.skip(i as int)) * d + rem,
        decreases i,
    {
        i -= 1;
        let cur: u128 = (rem as u128) * 0x1_0000_0000_0000_0000 + (v[i] as u128);
        let digit_wide: u128 = cur / (d as u128);
        let rem_wide: u128 = cur % (d as u128);
        let ghost q_old = q@;
        proof {
            assert(cur == digit_wide * d + rem_wide) by (nonlinear_arith)
                requires
                    d > 0,
                    digit_wide == cur / (d as u128),
                    rem_wide == cur % (d as u128),
            ;
            lemma_short_division_step(
                limbs_value(v@.skip(i as int + 1)) as int,
                limbs_value(q_old.skip(i as int + 1)) as int,
                rem as int,
                v[i as int] as int,
                digit_wide as int,
                rem_wide as int,
                d as int,
                radix() as int,
            );
        }
        let digit: u64 = digit_wide as u64;
        q.set(i, digit);
        rem = rem_wide as u64;
        proof {
            lemma_value_low_limb(v@.skip(i as int));
            lemma_value_low_limb(q@.skip(i as int));
            assert(v@.skip(i as int).skip(1) =~= v@.skip(i as int + 1));
            assert(q@.skip(i as int).skip(1) =~= q_old.skip(i as int + 1));
        }
    }
    proof {
        assert(v@.skip(0) =~= v@);
        assert(q@.skip(0) =~= q@);
    }
    (q, rem)
}

/// Computes the index of the most significant non-zero limb.
pub fn top_index(v: &[u64]) -> (t: usize)
    requires
        v.len() > 0,
    ensures
        t == limbs_top(v@),
        t < v.len(),
{
    let mut t: usize = v.len() - 1;
    assert(v@.take(t as int + 1) =~= v@);
    while t > 0 && v[t] == 0
        invariant
            t < v.len(),
            limbs_top(v@) == limbs_top(v@.take(t as int + 1)),
        decreases t,
    {
        proof {
            assert(v@.take(t as int + 1).drop_last() =~= v@.take(t as int));
        }
        t -= 1;
    }
    proof {
        assert(v@.take(v.len() as int) =~= v@);
        let s = v@.take(t as int + 1);
        assert(s.last() == v[t as int]);
    }
    t
}

/// Copies `v` into exactly `n` limbs, dropping or adding zero limbs at the top.
pub fn fit_limbs(v: &[u64], n: usize) -> (r: Vec<u64>)
    requires
        limbs_value(v@) < radix_pow(n as nat),
    ensures
        r.len() == n,
        limbs_value(r@) == limbs_value(v@),
{
    let mut r: Vec<u64> = Vec::new();
    let mut i: usize = 0;
    while i < n
        invariant
            i <= n,
            r.len() == i,
            forall|k: int| 0 <= k < i ==> r[k] == (if k < v.len() { v[k] } else { 0 }),
        decreases n - i,
    {
        let limb: u64 = if i < v.len() { v[i] } else { 0 };
        r.push(limb);
        i += 1;
    }
    proof {
        if n <= v.len() {
            lemma_value_fits(v@, n as int);
            assert(r@ =~= v@.take(n as int));
        } else {
            lemma_value_high_zero(r@, v.len() as int);
            assert(r@.take(v.len() as int) =~= v@);
        }
    }
    r
}

/// Decides whether two limb sequences of one length denote the same number,
/// limb by limb.
pub fn eq_limbs(a: &[u64], b: &[u64]) -> (r: bool)
    requires
        a.len() == b.len(),
    ensures
        r == (limbs_value(a@) == limbs_value(b@)),
{
    let n = a.len();
    let mut i: usize = 0;
    while i < n
        invariant
            i <= n,
            n == a.len(),
            n == b.len(),
            forall|k: int| 0 <= k < i ==> a[k] == b[k],
        decreases n - i,
    {
        if a[i] != b[i] {
            proof {
                if limbs_value(a@) == limbs_value(b@) {
                    lemma_value_injective(a@, b@);
                }
            }
            return false;
        }
        i += 1;
    }
    assert(a@ =~= b@);
    true
}

} // verus!
