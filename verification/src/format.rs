//! Text forms of a [`BigInt`]: binary and decimal digits, most significant first.

use vstd::prelude::*;
use vstd::arithmetic::div_mod::{lemma_basic_div, lemma_div_denominator};
use vstd::arithmetic::power2::{lemma2_to64, lemma_pow2_pos, lemma_pow2_unfold, pow2};
use crate::bigint::{BigInt, LIMBS};
use crate::limbs::lemma_radix_pow_is_pow2;

verus! {

/// `String::push` appends the character to the end of the string.
pub assume_specification[ String::push ](s: &mut String, c: char)
    ensures
        final(s)@ == old(s)@.push(c),
;

/// The character of a binary digit.
pub open spec fn bit_char(bit: nat) -> char {
    if bit == 0 {
        '0'
    } else {
        '1'
    }
}

/// The binary digits of `v`, most significant first, without leading zeros.
pub open spec fn binary_digits(v: nat) -> Seq<char>
    decreases v,
{
    if v < 2 {
        seq![bit_char(v)]
    } else {
        binary_digits(v / 2).push(bit_char(v % 2))
    }
}

/// One bit further down, the bits above are the half of those above.
proof fn lemma_next_bit(v: nat, p: nat)
    requires
        p > 0,
    ensures
        v / pow2(p) == (v / pow2((p - 1) as nat)) / 2,
{
    lemma_pow2_pos((p - 1) as nat);
    lemma_pow2_unfold(p);
    lemma_div_denominator(v as int, pow2((p - 1) as nat) as int, 2);
    vstd::arithmetic::mul::lemma_mul_is_commutative(2, pow2((p - 1) as nat) as int);
}

/// A number is twice its half plus its lowest bit.
proof fn lemma_halves(v: nat)
    ensures
        v == 2 * (v / 2) + v % 2,
        v % 2 == 0 || v % 2 == 1,
        v / 2 == 0 ==> v == v % 2,
{
}

impl BigInt {
    /// The value in binary digits, most significant first; `"0"` for zero.
    pub fn to_binary_string(&self) -> (r: String)
        ensures
            r@ == binary_digits(self@),
    {
        let mut out = String::new();
        let mut started = false;
        let mut p: usize = 64 * LIMBS;
        proof {
            lemma_radix_pow_is_pow2(LIMBS as nat);
            self.lemma_in_range();
            lemma_basic_div(self@ as int, pow2(2048) as int);
        }
        while p > 0
            invariant
                p <= 64 * LIMBS,
                started == (self@ / pow2(p as nat) != 0),
                started ==> out@ == binary_digits(self@ / pow2(p as nat)),
                !started ==> out@.len() == 0,
            decreases p,
        {
            let ghost high = self@ / pow2(p as nat);
            let ghost before = out@;
            p -= 1;
            let bit = self.bit_at(p);
            let ghost low = self@ / pow2(p as nat);
            proof {
                lemma_next_bit(self@, (p + 1) as nat);
                assert(high == low / 2);
                lemma_halves(low);
            }
            if bit {
                out.push('1');
                proof {
                    if !started {
                        assert(low == 1);
                        assert(out@ =~= seq!['1']);
                        assert(binary_digits(1) =~= seq![bit_char(1)]);
                    } else {
                        assert(binary_digits(low) == binary_digits(low / 2).push(
                            bit_char(low % 2),
                        ));
                    }
                }
                started = true;
            } else if started {
                out.push('0');
                proof {
                    assert(binary_digits(low) == binary_digits(low / 2).push(bit_char(low % 2)));
                }
            } else {
                assert(low == 0);
            }
        }
        proof {
            lemma2_to64();
            assert(self@ / pow2(0) == self@);
        }
        if !started {
            out.push('0');
            assert(out@ =~= seq!['0']);
            assert(binary_digits(0) =~= seq![bit_char(0)]);
        }
        out
    }
}

/// The character of a decimal digit.
pub open spec fn digit_char(digit: nat) -> char {
    if digit == 0 {
        '0'
    } else if digit == 1 {
        '1'
    } else if digit == 2 {
        '2'
    } else if digit == 3 {
        '3'
    } else if digit == 4 {
        '4'
    } else if digit == 5 {
        '5'
    } else if digit == 6 {
        '6'
    } else if digit == 7 {
        '7'
    } else if digit == 8 {
        '8'
    } else {
        '9'
    }
}

/// The decimal digits of `v`, most significant first, without leading zeros.
pub open spec fn decimal_digits(v: nat) -> Seq<char>
    decreases v,
{
    if v < 10 {
        seq![digit_char(v)]
    } else {
        decimal_digits(v / 10).push(digit_char(v % 10))
    }
}

/// The number denoted by decimal digits held one to a byte, least
/// significant first.
pub open spec fn bcd_value(s: Seq<u8>) -> nat
    decreases s.len(),
{
    if s.len() == 0 {
        0
    } else {
        s[0] as nat + 10 * bcd_value(s.skip(1))
    }
}

/// Decimal digits with no zero at the most significant end; the empty
/// sequence stands for zero.
pub open spec fn bcd_canonical(s: Seq<u8>) -> bool {
    &&& forall|i: int| 0 <= i < s.len() ==> s[i] <= 9
    &&& s.len() > 0 ==> s.last() != 0
}

/// The carry that doubling sends into digit `j`: the incoming bit at the
/// bottom, and elsewhere whether the digit below is five or more.
pub open spec fn carry_into(s: Seq<u8>, j: int, bit: bool) -> nat {
    if j == 0 {
        if bit {
            1
        } else {
            0
        }
    } else if s[j - 1] >= 5 {
        1
    } else {
        0
    }
}

/// A zero digit at the top changes nothing.
proof fn lemma_bcd_push_zero(s: Seq<u8>)
    ensures
        bcd_value(s.push(0)) == bcd_value(s),
    decreases s.len(),
{
    if s.len() == 0 {
        assert(s.push(0).skip(1).len() == 0);
        assert(bcd_value(s.push(0).skip(1)) == 0);
    } else {
        lemma_bcd_push_zero(s.skip(1));
        assert(s.push(0).skip(1) =~= s.skip(1).push(0));
    }
}

/// Digits with a non-zero top digit denote a positive number.
proof fn lemma_bcd_positive(s: Seq<u8>)
    requires
        s.len() > 0,
        s.last() != 0,
    ensures
        bcd_value(s) > 0,
    decreases s.len(),
{
    if s.len() > 1 {
        lemma_bcd_positive(s.skip(1));
    }
}

/// The character of a decimal digit.
fn digit_to_char(digit: u8) -> (c: char)
    requires
        digit <= 9,
    ensures
        c == digit_char(digit as nat),
{
    match digit {
        0 => '0',
        1 => '1',
        2 => '2',
        3 => '3',
        4 => '4',
        5 => '5',
        6 => '6',
        7 => '7',
        8 => '8',
        _ => '9',
    }
}

/// One step of the double-dabble conversion: every digit of five or more
/// is raised by three, then the whole scratch moves left by one bit and
/// takes in `bit` at the bottom. The scratch then holds twice its number
/// plus the bit.
pub fn double_and_add(scratch: &mut Vec<u8>, bit: bool)
    requires
        bcd_canonical(old(scratch)@),
        old(scratch).len() < usize::MAX,
    ensures
        bcd_canonical(final(scratch)@),
        bcd_value(final(scratch)@) == 2 * bcd_value(old(scratch)@) + (if bit {
            1nat
        } else {
            0nat
        }),
        final(scratch).len() <= old(scratch).len() + 1,
{
    let n = scratch.len();
    let grows = if n == 0 {
        bit
    } else {
        scratch[n - 1] >= 5
    };
    if grows {
        proof {
            lemma_bcd_push_zero(scratch@);
        }
        scratch.push(0);
    }
    let m = scratch.len();
    let ghost start = scratch@;
    let mut j: usize = m;
    proof {
        assert(bcd_value(start.skip(m as int)) == 0);
    }
    while j > 0
        invariant
            j <= m,
            m == scratch.len(),
            m == start.len(),
            forall|i: int| 0 <= i < m ==> start[i] <= 9,
            forall|i: int| 0 <= i < m ==> scratch[i] <= 9,
            scratch@.take(j as int) == start.take(j as int),
            bcd_value(scratch@.skip(j as int)) == 2 * bcd_value(start.skip(j as int)) + carry_into(
                start,
                j as int,
                bit,
            ),
            j < m ==> scratch[m - 1] != 0,
            m > 0 ==> start[m - 1] < 5,
            m > 0 && start[m - 1] == 0 ==> carry_into(start, m - 1, bit) == 1,
        decreases j,
    {
        j -= 1;
        let digit = scratch[j];
        let carry: u8 = if j == 0 {
            if bit {
                1
            } else {
                0
            }
        } else if scratch[j - 1] >= 5 {
            1
        } else {
            0
        };
        let adjusted: u8 = if digit >= 5 {
            digit + 3
        } else {
            digit
        };
        let doubled: u8 = ((adjusted << 1) & 0x0f) | carry;
        proof {
            assert(scratch@.take(j as int + 1)[j as int] == start.take(j as int + 1)[j as int]);
            if j > 0 {
                assert(scratch@.take(j as int + 1)[j as int - 1] == start.take(j as int + 1)[j
                    as int - 1]);
            }
            assert(doubled + (if digit >= 5 { 10u8 } else { 0u8 }) == 2 * digit + carry && doubled
                <= 9) by (bit_vector)
                requires
                    digit <= 9,
                    carry <= 1,
                    adjusted == (if digit >= 5 { (digit + 3) as u8 } else { digit }),
                    doubled == ((adjusted << 1) & 0x0f) | carry,
            ;
        }
        let ghost before = scratch@;
        scratch.set(j, doubled);
        proof {
            assert(scratch@.skip(j as int).skip(1) =~= before.skip(j as int + 1));
            assert(start.skip(j as int).skip(1) =~= start.skip(j as int + 1));
            assert(scratch@.take(j as int) =~= start.take(j as int));
        }
    }
    proof {
        assert(scratch@.skip(0) =~= scratch@);
        assert(start.skip(0) =~= start);
    }
}

/// The text of canonical digits: that of the digits above the lowest,
/// followed by the lowest.
proof fn lemma_decimal_step(s: Seq<u8>)
    requires
        s.len() > 0,
        bcd_canonical(s),
    ensures
        s.len() == 1 ==> decimal_digits(bcd_value(s)) =~= seq![digit_char(s[0] as nat)],
        s.len() > 1 ==> decimal_digits(bcd_value(s)) == decimal_digits(
            bcd_value(s.skip(1)),
        ).push(digit_char(s[0] as nat)),
{
    let rest = bcd_value(s.skip(1));
    if s.len() == 1 {
        assert(bcd_value(s.skip(1)) == 0);
    } else {
        lemma_bcd_positive(s.skip(1));
        let v = bcd_value(s);
        assert(v == s[0] as nat + 10 * rest);
        assert(v / 10 == rest && v % 10 == s[0] as nat);
    }
}

impl BigInt {
    /// The value in decimal digits, most significant first; `"0"` for zero.
    ///
    /// Converts by double dabble: the bits enter a scratch of decimal
    /// digits from the most significant down.
    pub fn to_decimal_string(&self) -> (r: String)
        ensures
            r@ == decimal_digits(self@),
    {
        let mut scratch: Vec<u8> = Vec::new();
        let mut p: usize = 64 * LIMBS;
        proof {
            lemma_radix_pow_is_pow2(LIMBS as nat);
            self.lemma_in_range();
            lemma_basic_div(self@ as int, pow2(2048) as int);
        }
        while p > 0
            invariant
                p <= 64 * LIMBS,
                bcd_canonical(scratch@),
                scratch.len() <= 64 * LIMBS - p,
                bcd_value(scratch@) == self@ / pow2(p as nat),
            decreases p,
        {
            p -= 1;
            let bit = self.bit_at(p);
            proof {
                lemma_next_bit(self@, (p + 1) as nat);
                lemma_halves(self@ / pow2(p as nat));
            }
            double_and_add(&mut scratch, bit);
        }
        proof {
            lemma2_to64();
            assert(self@ / pow2(0) == self@);
        }
        let mut out = String::new();
        let n = scratch.len();
        if n == 0 {
            out.push('0');
            proof {
                assert(out@ =~= seq!['0']);
                assert(decimal_digits(0) =~= seq![digit_char(0)]);
            }
            return out;
        }
        let mut i: usize = n;
        while i > 0
            invariant
                i <= n,
                n == scratch.len(),
                n > 0,
                bcd_canonical(scratch@),
                i == n ==> out@.len() == 0,
                i < n ==> out@ == decimal_digits(bcd_value(scratch@.skip(i as int))),
            decreases i,
        {
            i -= 1;
            let c = digit_to_char(scratch[i]);
            proof {
                let suffix = scratch@.skip(i as int);
                assert(suffix.skip(1) =~= scratch@.skip(i as int + 1));
                assert(suffix.last() == scratch@.last());
                assert forall|k: int| 0 <= k < suffix.len() implies suffix[k] <= 9 by {
                    assert(suffix[k] == scratch@[i + k]);
                }
                lemma_decimal_step(suffix);
            }
            let ghost before = out@;
            out.push(c);
            proof {
                if i + 1 == n {
                    assert(out@ =~= seq![c]);
                }
            }
        }
        proof {
            assert(scratch@.skip(0) =~= scratch@);
        }
        out
    }
}

} // verus!
