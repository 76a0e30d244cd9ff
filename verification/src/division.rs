//! Long division of limb sequences: a short pass for single-limb divisors
//! and Knuth's Algorithm D for the rest.

use vstd::prelude::*;
use vstd::arithmetic::mul::*;
use vstd::arithmetic::power2::*;
use crate::limbs::{
    lemma_radix_pow_adds, lemma_radix_pow_pos, lemma_top_bounds, lemma_value_bound,
    lemma_value_fits, lemma_value_high_zero, lemma_value_of_one, lemma_value_of_three,
    lemma_value_of_two, lemma_value_parts, lemma_value_update, limbs_value, radix, radix_pow,
};
use crate::limb_ops::{
    add_limbs, div_limb, fit_limbs, lt_limbs, mul_add_into, sub_limbs, top_index, zero_limbs,
};

verus! {

/// A guess that fails the two-limb test exceeds the true digit.
proof fn lemma_correction_step(r: int, d: int, t3: int, d2: int, w1: int, qhat: int)
    requires
        0 <= r,
        0 <= w1,
        0 <= qhat,
        d2 * w1 <= d,
        r < (t3 + 1) * w1,
        qhat * d2 > t3,
    ensures
        r < qhat * d,
{
    assert((t3 + 1) * w1 <= qhat * d2 * w1) by (nonlinear_arith)
        requires
            t3 + 1 <= qhat * d2,
            0 <= w1,
    ;
    assert(qhat * d2 * w1 <= qhat * d) by (nonlinear_arith)
        requires
            d2 * w1 <= d,
            0 <= qhat,
    ;
}

/// A guess that passes the two-limb test exceeds the true digit by at most one.
proof fn lemma_correction_done(r: int, d: int, t3: int, d2: int, w1: int, qhat: int, b: int)
    requires
        0 <= r,
        0 <= w1,
        0 <= qhat < b,
        0 <= d2,
        d < (d2 + 1) * w1,
        t3 * w1 <= r,
        qhat * d2 <= t3,
        b * w1 <= d,
    ensures
        qhat * d < r + d,
{
    if qhat == 0 {
        assert(qhat * d == 0) by (nonlinear_arith)
            requires
                qhat == 0,
        ;
        assert(d > 0) by (nonlinear_arith)
            requires
                b * w1 <= d,
                0 <= w1,
                0 < b,
                d < (d2 + 1) * w1,
                0 <= d2,
        ;
    } else {
        assert(qhat * d <= qhat * ((d2 + 1) * w1 - 1)) by (nonlinear_arith)
            requires
                d <= (d2 + 1) * w1 - 1,
                0 < qhat,
        ;
        assert(qhat * ((d2 + 1) * w1 - 1) == qhat * d2 * w1 + qhat * w1 - qhat)
            by (nonlinear_arith);
        assert(qhat * d2 * w1 <= t3 * w1) by (nonlinear_arith)
            requires
                qhat * d2 <= t3,
                0 <= w1,
        ;
        assert(qhat * w1 <= b * w1) by (nonlinear_arith)
            requires
                qhat < b,
                0 <= w1,
        ;
    }
}

/// A low part below the weight keeps the value within one step of the
/// high part times the weight.
proof fn lemma_between(lo: int, hi: int, w: int)
    by (nonlinear_arith)
    requires
        0 <= lo < w,
        0 <= hi,
    ensures
        hi * w <= lo + w * hi < (hi + 1) * w,
{
}

/// The top two limbs of a sequence bound its value from both sides.
proof fn lemma_top_two(v: Seq<u64>)
    requires
        v.len() >= 2,
    ensures
        ({
            let t = v.len() - 1;
            let d2 = v[t - 1] + radix() * v[t];
            let w = radix_pow((t - 1) as nat);
            d2 * w <= limbs_value(v) < (d2 + 1) * w
        }),
{
    let t = v.len() - 1;
    lemma_value_parts(v, t - 1);
    lemma_value_of_two(v.skip(t - 1));
    lemma_between(
        limbs_value(v.take(t - 1)) as int,
        limbs_value(v.skip(t - 1)) as int,
        radix_pow((t - 1) as nat) as int,
    );
}

/// Three adjacent limbs, with only zero limbs above them, bound the value
/// from both sides.
proof fn lemma_top_three(r: Seq<u64>, s: int)
    requires
        0 <= s,
        s + 3 <= r.len(),
        forall|i: int| s + 3 <= i < r.len() ==> r[i] == 0,
    ensures
        ({
            let t3 = r[s] + radix() * (r[s + 1] + radix() * r[s + 2]);
            let w = radix_pow(s as nat);
            t3 * w <= limbs_value(r) < (t3 + 1) * w
        }),
{
    let low = r.take(s + 3);
    lemma_value_high_zero(r, s + 3);
    lemma_value_parts(low, s);
    lemma_value_of_three(low.skip(s));
    lemma_between(
        limbs_value(low.take(s)) as int,
        limbs_value(low.skip(s)) as int,
        radix_pow(s as nat) as int,
    );
}

/// The two-limb test of Algorithm D: whether `qhat` times the divisor's top
/// two limbs exceeds the remainder's top three, given
/// `rhat = (r_hi, r_mid) - qhat * vt`.
fn guess_too_large(qhat: u64, rhat: u128, vt1: u64, r_lo: u64) -> (b: bool)
    ensures
        b == (qhat * vt1 > rhat * radix() + r_lo),
{
    if rhat >= 0x1_0000_0000_0000_0000 {
        assert(qhat * vt1 <= 0xffff_ffff_ffff_ffff * 0xffff_ffff_ffff_ffff) by (nonlinear_arith)
            requires
                qhat <= 0xffff_ffff_ffff_ffff,
                vt1 <= 0xffff_ffff_ffff_ffff,
        ;
        false
    } else {
        assert(qhat as u128 * vt1 as u128 <= 0xffff_ffff_ffff_ffff * 0xffff_ffff_ffff_ffff)
            by (nonlinear_arith)
            requires
                qhat <= 0xffff_ffff_ffff_ffff,
                vt1 <= 0xffff_ffff_ffff_ffff,
        ;
        (qhat as u128) * (vt1 as u128) > rhat * 0x1_0000_0000_0000_0000 + (r_lo as u128)
    }
}

/// One quotient digit of Algorithm D: the largest digit whose product with
/// the divisor's top two limbs `(vt, vt1)` does not exceed the remainder's
/// top three limbs `(r_hi, r_mid, r_lo)`, capped at `radix() - 1`.
pub fn quotient_digit(r_hi: u64, r_mid: u64, r_lo: u64, vt: u64, vt1: u64) -> (qhat: u64)
    requires
        vt != 0,
    ensures
        ({
            let t3 = r_lo + radix() * (r_mid + radix() * r_hi);
            let d2 = vt1 + radix() * vt;
            &&& qhat * d2 <= t3
            &&& (qhat == u64::MAX || (qhat + 1) * d2 > t3)
        }),
{
    let ghost t3 = r_lo + radix() * (r_mid + radix() * r_hi);
    let ghost d2 = vt1 + radix() * vt;
    let x: u128 = (r_hi as u128) * 0x1_0000_0000_0000_0000 + (r_mid as u128);
    let mut qhat: u64;
    let mut rhat: u128;
    if r_hi >= vt {
        qhat = u64::MAX;
        assert(0xffff_ffff_ffff_ffff * vt <= x) by (nonlinear_arith)
            requires
                x == r_hi * 0x1_0000_0000_0000_0000 + r_mid,
                r_hi >= vt,
        ;
        rhat = x - 0xffff_ffff_ffff_ffff * (vt as u128);
    } else {
        let wide: u128 = x / (vt as u128);
        rhat = x % (vt as u128);
        assert(x == wide * vt + rhat && wide < 0x1_0000_0000_0000_0000) by (nonlinear_arith)
            requires
                vt > 0,
                wide == x / (vt as u128),
                rhat == x % (vt as u128),
                x == r_hi * 0x1_0000_0000_0000_0000 + r_mid,
                r_hi < vt,
                r_mid < 0x1_0000_0000_0000_0000,
        ;
        qhat = wide as u64;
        assert((qhat + 1) * d2 > t3) by (nonlinear_arith)
            requires
                x == qhat * vt + rhat,
                rhat < vt,
                t3 == r_lo + radix() * x,
                d2 == vt1 + radix() * vt,
                r_lo < radix(),
                0 <= vt1,
                radix() > 0,
        ;
    }
    while guess_too_large(qhat, rhat, vt1, r_lo)
        invariant
            x == qhat * vt + rhat,
            x == r_hi * radix() + r_mid,
            t3 == r_lo + radix() * (r_mid + radix() * r_hi),
            d2 == vt1 + radix() * vt,
            qhat == u64::MAX || (qhat + 1) * d2 > t3,
            vt != 0,
        decreases qhat,
    {
        assert(qhat > 0 && rhat < radix()) by (nonlinear_arith)
            requires
                qhat * vt1 > rhat * radix() + r_lo,
                qhat >= 0,
                vt1 < radix(),
                qhat < radix(),
                rhat >= 0,
                radix() > 0,
        ;
        assert(qhat * d2 > t3) by (nonlinear_arith)
            requires
                qhat * vt1 > rhat * radix() + r_lo,
                x == qhat * vt + rhat,
                t3 == r_lo + radix() * x,
                d2 == vt1 + radix() * vt,
        ;
        assert((qhat - 1) * vt + (rhat + vt) == x) by (nonlinear_arith)
            requires
                x == qhat * vt + rhat,
        ;
        qhat = qhat - 1;
        rhat = rhat + (vt as u128);
    }
    assert(qhat * d2 <= t3) by (nonlinear_arith)
        requires
            qhat * vt1 <= rhat * radix() + r_lo,
            x == qhat * vt + rhat,
            t3 == r_lo + radix() * x,
            d2 == vt1 + radix() * vt,
    ;
    qhat
}

/// A total below the weight of the carry leaves no carry.
proof fn lemma_no_carry(value: int, carry: int, total: int, w: int)
    by (nonlinear_arith)
    requires
        0 <= value,
        0 <= carry,
        0 < w,
        value + carry * w == total,
        total < w,
    ensures
        carry == 0,
        value == total,
{
}

/// Bounds on a value carry over to its multiple.
proof fn lemma_scale_bounds(v: int, lo: int, hi: int, w: int, bj: int)
    by (nonlinear_arith)
    requires
        lo * w <= v < hi * w,
        0 < bj,
    ensures
        lo * (w * bj) <= v * bj < hi * (w * bj),
{
}

/// One step of Algorithm D: finds the quotient digit of weight
/// `radix()^j` and subtracts its multiple of the divisor from the remainder.
pub fn reduce_step(rem: Vec<u64>, v: &[u64], j: usize) -> (r: (u64, Vec<u64>))
    requires
        v.len() >= 2,
        v[v.len() - 1] != 0,
        j + v.len() < rem.len(),
        limbs_value(rem@) < limbs_value(v@) * radix_pow((j + 1) as nat),
    ensures
        r.1.len() == rem.len(),
        limbs_value(rem@) == r.0 * (limbs_value(v@) * radix_pow(j as nat)) + limbs_value(r.1@),
        limbs_value(r.1@) < limbs_value(v@) * radix_pow(j as nat),
{
    let n = rem.len();
    let t = v.len() - 1;
    let vt = v[t];
    let vt1 = v[t - 1];
    let r_hi = rem[j + t + 1];
    let r_mid = rem[j + t];
    let r_lo = rem[j + t - 1];
    let ghost big_r = limbs_value(rem@) as int;
    let ghost big_v = limbs_value(v@) as int;
    let ghost bj = radix_pow(j as nat) as int;
    let ghost d = big_v * bj;
    let ghost w1 = radix_pow((j + t - 1) as nat) as int;
    let ghost bn = radix_pow(n as nat) as int;
    let ghost d2 = vt1 + radix() * vt;
    let ghost t3 = r_lo + radix() * (r_mid + radix() * r_hi);
    let ghost b = radix() as int;
    proof {
        lemma_radix_pow_pos(j as nat);
        lemma_radix_pow_pos(n as nat);
        lemma_radix_pow_pos((j + t - 1) as nat);
        lemma_top_two(v@);
        lemma_radix_pow_adds((t - 1) as nat, j as nat);
        lemma_scale_bounds(big_v, d2, d2 + 1, radix_pow((t - 1) as nat) as int, bj);
        assert(d2 * w1 <= d < (d2 + 1) * w1);
        // the remainder lies below radix()^(j + t + 2)
        lemma_value_bound(v@);
        assert(radix_pow((j + 1) as nat) == radix() * radix_pow(j as nat));
        assert(big_v * radix_pow((j + 1) as nat) == d * b) by (nonlinear_arith)
            requires
                radix_pow((j + 1) as nat) == b * bj,
                d == big_v * bj,
        ;
        lemma_radix_pow_adds((t + 1) as nat, (j + 1) as nat);
        lemma_radix_pow_pos((j + 1) as nat);
        lemma_mul_strict_inequality(
            big_v,
            radix_pow((t + 1) as nat) as int,
            radix_pow((j + 1) as nat) as int,
        );
        assert(d * b < radix_pow((j + t + 2) as nat));
        lemma_value_fits(rem@, j + t + 2);
        lemma_top_three(rem@, j + t - 1);
        assert(t3 * w1 <= big_r < (t3 + 1) * w1);
        crate::limbs::lemma_radix_pow_monotonic((j + t + 2) as nat, n as nat);
        assert(d * b < bn);
        assert(b * w1 <= d) by (nonlinear_arith)
            requires
                d2 * w1 <= d,
                d2 >= b,
                0 <= w1,
        ;
    }
    let mut qhat = quotient_digit(r_hi, r_mid, r_lo, vt, vt1);
    proof {
        if qhat != u64::MAX {
            lemma_correction_step(big_r, d, t3, d2, w1, qhat + 1);
        }
        assert(big_r < (qhat + 1) * d) by {
            if qhat == u64::MAX {
                lemma_mul_is_commutative(d, b);
            }
        }
        lemma_correction_done(big_r, d, t3, d2, w1, qhat as int, b);
        assert(0 <= d) by (nonlinear_arith)
            requires
                b * w1 <= d,
                0 <= w1,
                0 < b,
        ;
        assert(qhat * d < bn) by (nonlinear_arith)
            requires
                d * b < bn,
                qhat < b,
                0 <= d,
        ;
    }
    let mut p = zero_limbs(n);
    let carry = mul_add_into(&mut p, v, qhat, j);
    proof {
        assert(big_v * qhat * bj == qhat * d) by (nonlinear_arith)
            requires
                d == big_v * bj,
        ;
        lemma_no_carry(limbs_value(p@) as int, carry as int, qhat * d, bn);
    }
    if lt_limbs(rem.as_slice(), p.as_slice()) {
        let mut shifted = zero_limbs(n);
        let carry_one = mul_add_into(&mut shifted, v, 1, j);
        proof {
            assert(big_v * 1 * bj == d) by (nonlinear_arith)
                requires
                    d == big_v * bj,
            ;
            assert(d < bn) by (nonlinear_arith)
                requires
                    d * b < bn,
                    0 <= d,
                    b > 1,
            ;
            lemma_no_carry(limbs_value(shifted@) as int, carry_one as int, d, bn);
            assert(qhat >= 1) by (nonlinear_arith)
                requires
                    big_r < qhat * d,
                    0 <= big_r,
                    0 <= qhat,
            ;
            assert(big_r + d < bn) by (nonlinear_arith)
                requires
                    big_r < qhat * d,
                    qhat < b,
                    d * b < bn,
                    0 <= d,
            ;
        }
        let (sum, over) = add_limbs(rem.as_slice(), shifted.as_slice());
        proof {
            lemma_value_bound(sum@);
            lemma_no_carry(
                limbs_value(sum@) as int,
                if over { 1 } else { 0 },
                big_r + d,
                bn,
            );
        }
        let (diff, under) = sub_limbs(sum.as_slice(), p.as_slice());
        proof {
            lemma_value_bound(diff@);
            assert(!under);
            assert(big_r == (qhat - 1) * d + limbs_value(diff@)) by (nonlinear_arith)
                requires
                    limbs_value(diff@) + qhat * d == big_r + d,
            ;
        }
        qhat = qhat - 1;
        (qhat, diff)
    } else {
        let (diff, under) = sub_limbs(rem.as_slice(), p.as_slice());
        proof {
            lemma_value_bound(diff@);
            assert(!under);
            assert(limbs_value(diff@) < d) by (nonlinear_arith)
                requires
                    limbs_value(diff@) + qhat * d == big_r,
                    big_r < (qhat + 1) * d,
            ;
        }
        (qhat, diff)
    }
}

/// Placing a quotient digit accounts for what the step subtracted.
proof fn lemma_digit_placed(u: int, qv: int, qv2: int, digit: int, v: int, bj: int, r: int, r2: int)
    requires
        u == qv * v + r,
        r == digit * (v * bj) + r2,
        qv2 == qv + digit * bj,
    ensures
        u == qv2 * v + r2,
{
    assert(qv2 * v == qv * v + digit * (v * bj)) by (nonlinear_arith)
        requires
            qv2 == qv + digit * bj,
    ;
}

/// The main loop of Algorithm D for a divisor of two limbs or more.
///
/// The dividend `u` must lie below the divisor shifted to the top of it,
/// which normalisation guarantees; the quotient then has
/// `u.len() - v.len()` limbs.
pub fn divide_long(u: Vec<u64>, v: &[u64]) -> (r: (Vec<u64>, Vec<u64>))
    requires
        v.len() >= 2,
        v[v.len() - 1] != 0,
        u.len() > v.len(),
        limbs_value(u@) < limbs_value(v@) * radix_pow((u.len() - v.len()) as nat),
    ensures
        r.0.len() == u.len() - v.len(),
        r.1.len() == u.len(),
        limbs_value(u@) == limbs_value(r.0@) * limbs_value(v@) + limbs_value(r.1@),
        limbs_value(r.1@) < limbs_value(v@),
{
    let n = u.len();
    let m = n - v.len();
    let ghost total = limbs_value(u@);
    let mut q = zero_limbs(m);
    let mut rem = u;
    let mut k: usize = m;
    proof {
        lemma_mul_basics(limbs_value(v@) as int);
    }
    while k > 0
        invariant
            k <= m,
            m == n - v.len(),
            n > v.len(),
            v.len() >= 2,
            v[v.len() - 1] != 0,
            rem.len() == n,
            q.len() == m,
            forall|i: int| 0 <= i < k ==> q[i] == 0,
            total == limbs_value(q@) * limbs_value(v@) + limbs_value(rem@),
            limbs_value(rem@) < limbs_value(v@) * radix_pow(k as nat),
        decreases k,
    {
        k -= 1;
        let ghost rem_before = limbs_value(rem@);
        let ghost q_before = q@;
        let (digit, next) = reduce_step(rem, v, k);
        q.set(k, digit);
        rem = next;
        proof {
            lemma_value_update(q_before, k as int, digit);
            lemma_mul_basics(radix_pow(k as nat) as int);
            lemma_digit_placed(
                total as int,
                limbs_value(q_before) as int,
                limbs_value(q@) as int,
                digit as int,
                limbs_value(v@) as int,
                radix_pow(k as nat) as int,
                rem_before as int,
                limbs_value(rem@) as int,
            );
        }
    }
    proof {
        assert(radix_pow(0) == 1);
        lemma_mul_basics(limbs_value(v@) as int);
    }
    (q, rem)
}

/// The shift that brings the top bit of a non-zero limb into place, with
/// the power of two that performs it.
pub fn normalizing_scale(top: u64) -> (r: (u32, u64))
    requires
        top != 0,
    ensures
        r.0 < 64,
        r.1 == pow2(r.0 as nat),
        1 <= r.1 <= 0x8000_0000_0000_0000,
        0x8000_0000_0000_0000 <= top * r.1,
        (top + 1) * r.1 <= 0x1_0000_0000_0000_0000,
{
    let mut lambda: u32 = 0;
    let mut scale: u64 = 1;
    let mut shifted: u64 = top;
    proof {
        lemma2_to64();
    }
    while shifted < 0x8000_0000_0000_0000
        invariant
            shifted == top * scale,
            top != 0,
            scale >= 1,
            scale == pow2(lambda as nat),
            lambda <= 63,
        decreases 0x1_0000_0000_0000_0000 - shifted,
    {
        proof {
            assert(scale <= shifted) by (nonlinear_arith)
                requires
                    shifted == top * scale,
                    top >= 1,
            ;
            assert(top * (scale * 2) == 2 * (top * scale)) by (nonlinear_arith);
            lemma2_to64();
            lemma2_to64_rest();
            if lambda >= 63 {
                if lambda > 63 {
                    lemma_pow2_strictly_increases(63, lambda as nat);
                }
                assert(false);
            }
            lemma_pow2_unfold((lambda + 1) as nat);
        }
        shifted = shifted * 2;
        scale = scale * 2;
        lambda = lambda + 1;
    }
    proof {
        lemma2_to64();
        lemma2_to64_rest();
        if lambda < 63 {
            lemma_pow2_strictly_increases(lambda as nat, 63);
        }
        let room = pow2((64 - lambda) as nat) as int;
        lemma_pow2_adds(lambda as nat, (64 - lambda) as nat);
        assert((top + 1) * scale <= 0x1_0000_0000_0000_0000) by (nonlinear_arith)
            requires
                scale * room == 0x1_0000_0000_0000_0000,
                top * scale < 0x1_0000_0000_0000_0000,
                1 <= scale,
                0 <= top,
        ;
    }
    (lambda, scale)
}

/// The scaled divisor has the top bit of its top limb set and stays
/// within its limbs.
proof fn lemma_scaled_top(value: int, top: int, scale: int, w: int)
    requires
        top * w <= value < (top + 1) * w,
        0 < w,
        1 <= scale,
        0x8000_0000_0000_0000 <= top * scale,
        (top + 1) * scale <= 0x1_0000_0000_0000_0000,
    ensures
        0x8000_0000_0000_0000 * w <= value * scale < 0x1_0000_0000_0000_0000 * w,
{
    assert(top * scale * w <= value * scale) by (nonlinear_arith)
        requires
            top * w <= value,
            1 <= scale,
    ;
    assert(0x8000_0000_0000_0000 * w <= top * scale * w) by (nonlinear_arith)
        requires
            0x8000_0000_0000_0000 <= top * scale,
            0 < w,
    ;
    assert(value * scale < (top + 1) * scale * w) by (nonlinear_arith)
        requires
            value < (top + 1) * w,
            1 <= scale,
    ;
    assert((top + 1) * scale * w <= 0x1_0000_0000_0000_0000 * w) by (nonlinear_arith)
        requires
            (top + 1) * scale <= 0x1_0000_0000_0000_0000,
            0 < w,
    ;
}

/// Scaling the remainder back is exact and leaves the true remainder.
proof fn lemma_exact_quotient(a: int, q: int, b: int, scale: int, r: int, r_low: int, rest: int)
    requires
        1 <= scale,
        0 <= r,
        a * scale == q * (b * scale) + r,
        r == r_low * scale + rest,
        0 <= rest < scale,
        r < b * scale,
    ensures
        a == q * b + r_low,
        r_low < b,
{
    assert(r == (a - q * b) * scale) by (nonlinear_arith)
        requires
            a * scale == q * (b * scale) + r,
    ;
    assert(r_low == a - q * b && rest == 0) by (nonlinear_arith)
        requires
            r == (a - q * b) * scale,
            r == r_low * scale + rest,
            0 <= rest < scale,
    ;
    assert(r_low < b) by (nonlinear_arith)
        requires
            r_low * scale + rest < b * scale,
            0 <= rest,
            1 <= scale,
    ;
}

/// Divides `a` by `b`, both of the same length, and returns the quotient
/// and the remainder in that length.
///
/// A dividend below the divisor is returned as the remainder at once; a
/// single-limb divisor takes one pass of short division; otherwise both
/// operands are scaled until the divisor's top bit is set, divided by
/// Algorithm D, and the remainder is scaled back.
pub fn div_rem_limbs(a: &[u64], b: &[u64]) -> (r: (Vec<u64>, Vec<u64>))
    requires
        a.len() == b.len(),
        a.len() < usize::MAX,
        limbs_value(b@) != 0,
    ensures
        r.0.len() == a.len(),
        r.1.len() == a.len(),
        limbs_value(a@) == limbs_value(r.0@) * limbs_value(b@) + limbs_value(r.1@),
        limbs_value(r.1@) < limbs_value(b@),
{
    let n = a.len();
    proof {
        if n == 0 {
            assert(limbs_value(b@) == 0);
        }
        lemma_value_bound(a@);
        lemma_value_bound(b@);
        lemma_radix_pow_pos(n as nat);
    }
    if lt_limbs(a, b) {
        let q = zero_limbs(n);
        let rem = fit_limbs(a, n);
        proof {
            lemma_mul_basics(limbs_value(b@) as int);
        }
        return (q, rem);
    }
    let t = top_index(b);
    proof {
        lemma_top_bounds(b@);
    }
    if t == 0 {
        let (q, rem_limb) = div_limb(a, b[0]);
        let mut rem = zero_limbs(n);
        let ghost zeros = rem@;
        rem.set(0, rem_limb);
        proof {
            lemma_value_high_zero(b@, 1);
            lemma_value_of_one(b@.take(1));
            lemma_value_update(zeros, 0, rem_limb);
            assert(radix_pow(0) == 1);
            lemma_mul_basics(rem_limb as int);
            lemma_mul_basics(0);
        }
        return (q, rem);
    }
    let (_, scale) = normalizing_scale(b[t]);
    let ghost big_a = limbs_value(a@) as int;
    let ghost big_b = limbs_value(b@) as int;
    let ghost bt = radix_pow(t as nat) as int;
    let divisor_low = vstd::slice::slice_subrange(b, 0, t + 1);
    let mut v = zero_limbs(t + 1);
    let carry_v = mul_add_into(&mut v, divisor_low, scale, 0);
    let mut u = zero_limbs(n + 1);
    let carry_u = mul_add_into(&mut u, a, scale, 0);
    proof {
        lemma_radix_pow_pos(t as nat);
        lemma_radix_pow_pos((t + 1) as nat);
        lemma_radix_pow_pos((n + 1) as nat);
        assert(radix_pow(0) == 1);
        assert(radix_pow((t + 1) as nat) == radix() * radix_pow(t as nat));
        assert(radix_pow((n + 1) as nat) == radix() * radix_pow(n as nat));
        // the divisor's value sits between its top limb and the next one up
        assert(divisor_low@ =~= b@.take(t as int + 1));
        lemma_value_high_zero(b@, t as int + 1);
        lemma_value_parts(b@.take(t as int + 1), t as int);
        lemma_value_of_one(b@.take(t as int + 1).skip(t as int));
        lemma_between(
            limbs_value(b@.take(t as int + 1).take(t as int)) as int,
            b[t as int] as int,
            bt,
        );
        lemma_scaled_top(big_b, b[t as int] as int, scale as int, bt);
        lemma_mul_basics(big_b * scale);
        lemma_mul_basics(big_a * scale);
        lemma_no_carry(
            limbs_value(v@) as int,
            carry_v as int,
            big_b * scale,
            radix_pow((t + 1) as nat) as int,
        );
        assert(big_a * scale < radix_pow((n + 1) as nat)) by (nonlinear_arith)
            requires
                0 <= big_a < radix_pow(n as nat),
                1 <= scale < radix(),
                radix_pow((n + 1) as nat) == radix() * radix_pow(n as nat),
        ;
        lemma_no_carry(
            limbs_value(u@) as int,
            carry_u as int,
            big_a * scale,
            radix_pow((n + 1) as nat) as int,
        );
        // the scaled divisor keeps a non-zero top limb
        if v[t as int] == 0 {
            lemma_value_high_zero(v@, t as int);
            lemma_value_bound(v@.take(t as int));
            assert(false);
        }
        // the scaled dividend lies below the scaled divisor moved to the top
        lemma_radix_pow_adds(t as nat, (n - t) as nat);
        assert(limbs_value(u@) < limbs_value(v@) * radix_pow((n - t) as nat))
            by (nonlinear_arith)
            requires
                limbs_value(u@) == big_a * scale,
                limbs_value(v@) == big_b * scale,
                0x8000_0000_0000_0000 * bt <= big_b * scale,
                0 <= big_a < radix_pow(n as nat),
                radix_pow(n as nat) == bt * radix_pow((n - t) as nat),
                1 <= scale <= 0x8000_0000_0000_0000,
                0 < radix_pow((n - t) as nat),
                0 < bt,
        ;
    }
    let (q_short, rem_scaled) = divide_long(u, v.as_slice());
    let (rem_long, rest) = div_limb(rem_scaled.as_slice(), scale);
    proof {
        lemma_exact_quotient(
            big_a,
            limbs_value(q_short@) as int,
            big_b,
            scale as int,
            limbs_value(rem_scaled@) as int,
            limbs_value(rem_long@) as int,
            rest as int,
        );
        lemma_value_bound(q_short@);
        crate::limbs::lemma_radix_pow_monotonic((n - t) as nat, n as nat);
    }
    let q = fit_limbs(q_short.as_slice(), n);
    let rem = fit_limbs(rem_long.as_slice(), n);
    (q, rem)
}

} // verus!
