//! Arbitrary-precision unsigned accumulator.
//!
//! The accumulator holds one unbounded non-negative integer as a sequence of
//! 64-bit words, least significant first, and mutates it in place: add,
//! multiply, divide with remainder, and shifts. Any number of operations can
//! be applied without overflow; the word sequence grows as needed. Every
//! operation keeps the sequence trimmed: no most-significant zero word is
//! retained.

use vstd::prelude::*;
use vstd::arithmetic::div_mod::{lemma_fundamental_div_mod_converse, lemma_multiply_divide_lt};
use vstd::arithmetic::mul::lemma_mul_is_commutative;
use vstd::arithmetic::power2::{
    pow2, lemma_pow2_unfold, lemma_pow2_strictly_increases, lemma2_to64, lemma2_to64_rest,
};
use vstd::bits::{
    lemma_u64_shr_is_div, lemma_u64_low_bits_mask_is_mod, lemma_low_bits_mask_values,
};
use crate::digits::{
    digit_base, digits_value, place_value, trimmed, lemma_place_value_pos,
    lemma_place_value_step, lemma_value_snoc, lemma_value_drop_last_zero, lemma_value_upper,
    lemma_value_lower, lemma_value_update,
};

verus! {

/// One word of the accumulator.
pub type Digit = u64;

/// Accumulator struct, accumulates the results of chained math operations.
pub struct Accumulator {
    data: Vec<Digit>,
}

impl Accumulator {
    /// The word sequence, least-significant word first.
    pub closed spec fn digits(&self) -> Seq<u64> {
        self.data@
    }

    /// The number the accumulator holds.
    pub open spec fn value(&self) -> nat {
        crate::digits::digits_value(self.digits())
    }

    /// No most-significant zero word is retained.
    pub open spec fn wf(&self) -> bool {
        crate::digits::trimmed(self.digits())
    }

    /// Create a new Accumulator holding zero.
    pub fn new() -> (r: Self)
        ensures
            r.wf(),
            r.value() == 0,
            r.digits().len() == 0,
    {
        Self { data: Vec::new() }
    }

    /// The number of words currently used to store the accumulated value.
    pub fn len(&self) -> (r: usize)
        ensures
            r == self.digits().len(),
    {
        self.data.len()
    }

    /// Add a value with a certain digit offset in the accumulator.
    ///
    /// Example using the base 10 equivalent:
    /// +200 (add 2 to third digit) vs. +2 (add 2 to first digit)
    pub fn add_at_place(&mut self, value: Digit, place: usize)
        requires
            old(self).wf(),
        ensures
            final(self).wf(),
            final(self).value() == old(self).value() + value * place_value(place as nat),
            final(self).digits().len() >= old(self).digits().len(),
            value != 0 ==> final(self).digits().len() > place,
            forall|j: int|
                0 <= j < place && j < old(self).digits().len() ==> final(self).digits()[j] == old(
                    self,
                ).digits()[j],
    {
        let ghost orig: Seq<u64> = self.data@;
        // do nothing if the value is 0
        if value == 0 {
            proof {
                lemma_place_value_pos(place as nat);
            }
            return;
        }
        let mut vec_index: usize = place;
        // add digits until the accumulator is big enough
        while vec_index > self.data.len()
            invariant
                vec_index == place,
                orig.len() <= self.data@.len(),
                digits_value(self.data@) == digits_value(orig),
                forall|j: int| 0 <= j < orig.len() ==> self.data@[j] == orig[j],
                self.data@.len() > orig.len() ==> self.data@.len() <= place,
            decreases place - self.data@.len(),
        {
            let ghost before: Seq<u64> = self.data@;
            self.data.push(0);
            proof {
                lemma_value_snoc(before, 0);
            }
        }
        // Keep adding and carrying until the carry value is 0
        let mut carry: u128 = value as u128;
        while carry != 0
            invariant
                place <= vec_index <= self.data@.len(),
                orig.len() <= self.data@.len(),
                carry < digit_base(),
                digits_value(self.data@) + carry * place_value(vec_index as nat) == digits_value(
                    orig,
                ) + value * place_value(place as nat),
                carry != 0 || self.data@.len() > place,
                carry == 0 ==> trimmed(self.data@),
                vec_index < self.data@.len() ==> (self.data@.len() > 0 && self.data@.last() != 0)
                    || self.data@.len() <= place,
                trimmed(orig),
                forall|j: int| 0 <= j < orig.len() && j < place ==> self.data@[j] == orig[j],
            decreases carry, self.data@.len() - vec_index,
        {
            if vec_index == self.data.len() {
                let w: u64 = carry as u64;
                let ghost before: Seq<u64> = self.data@;
                self.data.push(w);
                proof {
                    lemma_value_snoc(before, w);
                }
                carry = 0;
            } else {
                let w: u64 = self.data[vec_index];
                let sum: u128 = carry + (w as u128);
                let (lo, hi) = chop_digits(sum);
                let ghost before: Seq<u64> = self.data@;
                self.data[vec_index] = lo;
                proof {
                    lemma_value_update(before, vec_index as int, lo);
                    lemma_place_value_step(vec_index as nat);
                    let p: int = place_value(vec_index as nat);
                    lemma_place_value_pos(vec_index as nat);
                    assert(digits_value(self.data@) + hi * place_value((vec_index + 1) as nat)
                        == digits_value(before) + carry * p) by (nonlinear_arith)
                        requires
                            digits_value(self.data@) == digits_value(before) + (lo - w) * p,
                            place_value((vec_index + 1) as nat) == digit_base() * p,
                            carry + w == lo + digit_base() * hi,
                    ;
                }
                carry = hi as u128;
                vec_index = vec_index + 1;
            }
        }
    }

    /// Multiply the accumulator by a value.
    ///
    /// Words are processed most-significant first: the overflow of each
    /// double-width product is folded into the next place before the word
    /// itself is overwritten, so no word is clobbered before it is used.
    pub fn mul(&mut self, value: Digit)
        requires
            old(self).wf(),
        ensures
            final(self).wf(),
            final(self).value() == old(self).value() * value,
    {
        if value == 0 {
            self.data.clear();
            return;
        }
        let ghost orig: Seq<u64> = self.data@;
        proof {
            assert(orig.take(orig.len() as int) =~= orig);
        }
        // Multiply digit by digit starting with the most significant
        let mut ii: usize = self.data.len();
        while ii > 0
            invariant
                value >= 1,
                ii <= orig.len() <= self.data@.len(),
                trimmed(orig),
                self.wf(),
                forall|j: int| 0 <= j < ii ==> self.data@[j] == orig[j],
                digits_value(self.data@) == digits_value(orig.take(ii as int)) + value * (
                digits_value(orig) - digits_value(orig.take(ii as int))),
            decreases ii,
        {
            ii = ii - 1;
            let w: u64 = self.data[ii];
            proof {
                assert(w * value < digit_base() * digit_base()) by (nonlinear_arith)
                    requires
                        w < digit_base(),
                        value < digit_base(),
                ;
            }
            let prod: u128 = (w as u128) * (value as u128);
            let (lo, hi) = chop_digits(prod);
            let ghost mid: Seq<u64> = self.data@;
            self.add_at_place(hi, ii + 1);
            let ghost grown: Seq<u64> = self.data@;
            self.data[ii] = lo;
            proof {
                let p0: int = place_value(ii as nat);
                let p1: int = place_value((ii + 1) as nat);
                let t0: int = digits_value(orig.take(ii as int)) as int;
                let t1: int = digits_value(orig.take(ii + 1)) as int;
                let total: int = digits_value(orig) as int;
                lemma_place_value_pos(ii as nat);
                lemma_place_value_step(ii as nat);
                lemma_value_update(grown, ii as int, lo);
                assert(orig.take(ii + 1) =~= orig.take(ii as int).push(orig[ii as int]));
                lemma_value_snoc(orig.take(ii as int), orig[ii as int]);
                assert(digits_value(self.data@) == t0 + value * (total - t0)) by (nonlinear_arith)
                    requires
                        digits_value(self.data@) == digits_value(mid) + hi * p1 + (lo - w) * p0,
                        digits_value(mid) == t1 + value * (total - t1),
                        t1 == t0 + w * p0,
                        p1 == digit_base() * p0,
                        w * value == lo + digit_base() * hi,
                ;
                // The word just written can break the trimmed invariant only
                // when it is the most significant one; then it is the product
                // of two nonzero words with no overflow, hence nonzero.
                if ii + 1 == self.data@.len() {
                    assert(hi == 0);
                    assert(w == orig[ii as int]);
                    assert(w != 0);
                    assert(prod >= 1) by (nonlinear_arith)
                        requires
                            prod == w * value,
                            w >= 1,
                            value >= 1,
                    ;
                }
            }
        }
        proof {
            assert(orig.take(0) =~= Seq::<u64>::empty());
            vstd::arithmetic::mul::lemma_mul_is_commutative(
                digits_value(orig) as int,
                value as int,
            );
        }
    }

    /// Long division by one divisor of at most the word base, from the
    /// most-significant word down. The returned remainder is what the division
    /// leaves over; the quotient replaces the accumulator's contents.
    fn div_rem_wide(&mut self, den: u128) -> (r: u64)
        requires
            old(self).wf(),
            1 <= den <= digit_base(),
        ensures
            final(self).wf(),
            old(self).value() == final(self).value() * den + r,
            r < den,
            final(self).value() == old(self).value() / (den as nat),
            r == old(self).value() % (den as nat),
    {
        let ghost orig: Seq<u64> = self.data@;
        let mut rem: u64 = 0;
        let mut ii: usize = self.data.len();
        proof {
            assert(orig.skip(orig.len() as int) =~= Seq::<u64>::empty());
            assert(0 == 0 * den) by (nonlinear_arith);
        }
        while ii > 0
            invariant
                ii <= self.data@.len(),
                self.data@.len() == orig.len(),
                1 <= den <= digit_base(),
                rem < den,
                forall|j: int| 0 <= j < ii ==> self.data@[j] == orig[j],
                digits_value(orig.skip(ii as int)) == digits_value(self.data@.skip(ii as int))
                    * den + rem,
            decreases ii,
        {
            ii = ii - 1;
            let w: u64 = self.data[ii];
            let num: u128 = fuse_digits(w, rem);
            proof {
                assert(num < den * digit_base()) by (nonlinear_arith)
                    requires
                        num == w + digit_base() * rem,
                        w < digit_base(),
                        rem < den,
                ;
                lemma_multiply_divide_lt(num as int, den as int, digit_base() as int);
                vstd::arithmetic::div_mod::lemma_fundamental_div_mod(num as int, den as int);
            }
            let q128: u128 = num / den;
            let r128: u128 = num % den;
            let q: u64 = q128 as u64;
            let ghost before: Seq<u64> = self.data@;
            self.data[ii] = q;
            proof {
                let s_o_ii: int = digits_value(orig.skip(ii as int)) as int;
                let s_o_ii1: int = digits_value(orig.skip(ii + 1)) as int;
                let s_n_ii: int = digits_value(self.data@.skip(ii as int)) as int;
                let s_n_ii1: int = digits_value(before.skip(ii + 1)) as int;
                assert(self.data@.skip(ii + 1) =~= before.skip(ii + 1));
                assert((orig.skip(ii as int)).skip(1) =~= orig.skip(ii + 1));
                assert((self.data@.skip(ii as int)).skip(1) =~= self.data@.skip(ii + 1));
                assert(s_o_ii == w + digit_base() * s_o_ii1);
                assert(s_n_ii == q + digit_base() * s_n_ii1);
                assert(s_o_ii == s_n_ii * den + r128) by (nonlinear_arith)
                    requires
                        s_o_ii == w + digit_base() * s_o_ii1,
                        s_o_ii1 == s_n_ii1 * den + rem,
                        num == w + digit_base() * rem,
                        num == den * q + r128,
                        s_n_ii == q + digit_base() * s_n_ii1,
                ;
            }
            rem = r128 as u64;
        }
        proof {
            assert(orig.skip(0) =~= orig);
            assert(self.data@.skip(0) =~= self.data@);
        }
        // Remove a most significant digit that the division zeroed
        let n: usize = self.data.len();
        if n > 0 && self.data[n - 1] == 0 {
            let ghost before: Seq<u64> = self.data@;
            self.data.pop();
            proof {
                lemma_value_drop_last_zero(before);
                let t: Seq<u64> = self.data@;
                assert(t =~= before.drop_last());
                if t.len() > 0 && t.last() == 0 {
                    // A second zero word on top would put the dividend
                    // below the reach of its own top word: impossible.
                    lemma_value_drop_last_zero(t);
                    lemma_value_upper(t.drop_last());
                    lemma_value_lower(orig);
                    lemma_place_value_step((orig.len() - 2) as nat);
                    lemma_place_value_pos((orig.len() - 2) as nat);
                    assert(t.drop_last().len() == orig.len() - 2);
                    assert(false) by (nonlinear_arith)
                        requires
                            digits_value(orig) == digits_value(t) * den + rem,
                            digits_value(t) < place_value((orig.len() - 2) as nat),
                            digits_value(orig) >= place_value((orig.len() - 1) as nat),
                            place_value((orig.len() - 1) as nat) == digit_base() * place_value(
                                (orig.len() - 2) as nat,
                            ),
                            place_value((orig.len() - 2) as nat) >= 1,
                            rem < den,
                            1 <= den <= digit_base(),
                    ;
                }
            }
        }
        proof {
            lemma_fundamental_div_mod_converse(
                digits_value(orig) as int,
                den as int,
                digits_value(self.data@) as int,
                rem as int,
            );
        }
        rem
    }

    /// Divide the accumulator by a value and return the remainder.
    ///
    /// The quotient stays in the accumulator; the remainder is returned.
    pub fn div(&mut self, value: Digit) -> (r: Digit)
        requires
            old(self).wf(),
            value != 0,
        ensures
            final(self).wf(),
            old(self).value() == final(self).value() * value + r,
            r < value,
            final(self).value() == old(self).value() / (value as nat),
            r == old(self).value() % (value as nat),
    {
        self.div_rem_wide(value as u128)
    }

    /// Shift the accumulator to the left (multiply by a power of 2).
    pub fn shl(&mut self, shift: usize)
        requires
            old(self).wf(),
            shift <= 64,
        ensures
            final(self).wf(),
            final(self).value() == old(self).value() * pow2(shift as nat),
    {
        let factor: u128 = pow2_u128(shift);
        let ghost orig: Seq<u64> = self.data@;
        proof {
            assert(orig.take(0) =~= Seq::<u64>::empty());
            lemma_place_value_pos(0);
            assert(0 + 0 * place_value(0) == 0 * factor) by (nonlinear_arith);
        }
        let mut carry: u64 = 0;
        let mut ii: usize = 0;
        // loop through digits and apply the shift
        while ii < self.data.len()
            invariant
                ii <= self.data@.len(),
                self.data@.len() == orig.len(),
                1 <= factor <= digit_base(),
                factor == pow2(shift as nat),
                carry < factor,
                trimmed(orig),
                forall|j: int| ii <= j < orig.len() ==> self.data@[j] == orig[j],
                digits_value(self.data@.take(ii as int)) + carry * place_value(ii as nat)
                    == digits_value(orig.take(ii as int)) * factor,
                ii == orig.len() && carry == 0 && orig.len() > 0 ==> self.data@.last() != 0,
            decreases orig.len() - ii,
        {
            let w: u64 = self.data[ii];
            proof {
                assert(w * factor + carry < digit_base() * factor) by (nonlinear_arith)
                    requires
                        w < digit_base(),
                        carry < factor,
                        factor >= 1,
                ;
                assert(digit_base() * factor <= digit_base() * digit_base()) by (nonlinear_arith)
                    requires
                        factor <= digit_base(),
                ;
            }
            let result: u128 = (w as u128) * factor + (carry as u128);
            let (lo, hi) = chop_digits(result);
            let ghost before: Seq<u64> = self.data@;
            self.data[ii] = lo;
            proof {
                let p0: int = place_value(ii as nat);
                let p1: int = place_value((ii + 1) as nat);
                lemma_place_value_pos(ii as nat);
                lemma_place_value_step(ii as nat);
                assert(self.data@.take(ii + 1) =~= before.take(ii as int).push(lo));
                assert(orig.take(ii + 1) =~= orig.take(ii as int).push(orig[ii as int]));
                lemma_value_snoc(before.take(ii as int), lo);
                lemma_value_snoc(orig.take(ii as int), orig[ii as int]);
                assert(before.take(ii as int).len() == ii);
                assert(self.data@.take(ii as int) =~= before.take(ii as int));
                assert(digits_value(self.data@.take(ii + 1)) + hi * p1 == digits_value(
                    orig.take(ii + 1),
                ) * factor) by (nonlinear_arith)
                    requires
                        digits_value(self.data@.take(ii + 1)) == digits_value(
                            before.take(ii as int),
                        ) + lo * p0,
                        digits_value(orig.take(ii + 1)) == digits_value(orig.take(ii as int)) + w
                            * p0,
                        digits_value(before.take(ii as int)) + carry * p0 == digits_value(
                            orig.take(ii as int),
                        ) * factor,
                        result == w * factor + carry,
                        result == lo + digit_base() * hi,
                        p1 == digit_base() * p0,
                ;
                assert(hi < factor) by (nonlinear_arith)
                    requires
                        result < digit_base() * factor,
                        result == lo + digit_base() * hi,
                        lo >= 0,
                ;
                if ii + 1 == orig.len() && hi == 0 {
                    assert(w != 0);
                    assert(result >= factor) by (nonlinear_arith)
                        requires
                            result == w * factor + carry,
                            w >= 1,
                            carry >= 0,
                            factor >= 1,
                    ;
                }
            }
            carry = hi;
            ii = ii + 1;
        }
        proof {
            assert(self.data@.take(orig.len() as int) =~= self.data@);
            assert(orig.take(orig.len() as int) =~= orig);
        }
        if carry > 0 {
            let ghost before: Seq<u64> = self.data@;
            self.data.push(carry);
            proof {
                lemma_value_snoc(before, carry);
            }
        }
        proof {
            lemma_mul_is_commutative(digits_value(orig) as int, factor as int);
        }
    }

    /// Shift the accumulator to the right (divide by a power of 2) and
    /// return the bits shifted out.
    pub fn shr(&mut self, shift: usize) -> (r: Digit)
        requires
            old(self).wf(),
            shift <= 64,
        ensures
            final(self).wf(),
            old(self).value() == final(self).value() * pow2(shift as nat) + r,
            r < pow2(shift as nat),
            final(self).value() == old(self).value() / pow2(shift as nat),
            r == old(self).value() % pow2(shift as nat),
    {
        let den: u128 = pow2_u128(shift);
        self.div_rem_wide(den)
    }

    /// Retrieve the contents of the accumulator as a hex string: words most
    /// significant first, sixteen fixed-width hex digits each, separated by
    /// single spaces.
    pub fn to_hex_str(&self) -> (r: String)
        ensures
            r@ == hex_str_of(self.digits()),
    {
        let mut chars: Vec<char> = Vec::new();
        let mut ii: usize = self.data.len();
        while ii > 0
            invariant
                ii <= self.data@.len(),
                ii == self.data@.len() ==> chars@ == Seq::<char>::empty(),
                0 < ii < self.data@.len() ==> chars@ == hex_str_of(self.data@.skip(ii as int))
                    + seq![' '],
                ii == 0 ==> chars@ == hex_str_of(self.data@),
            decreases ii,
        {
            ii = ii - 1;
            let w: u64 = self.data[ii];
            let ghost emitted: Seq<char> = chars@;
            let mut k: usize = 0;
            while k < 16
                invariant
                    k <= 16,
                    chars@ == emitted + hex_word(w).take(k as int),
                decreases 16 - k,
            {
                let sh: u64 = 60 - 4 * (k as u64);
                let shifted: u64 = w >> sh;
                let nib: u64 = shifted & 0xf;
                proof {
                    lemma_u64_shr_is_div(w, sh);
                    lemma_u64_low_bits_mask_is_mod(shifted, 4);
                    lemma_low_bits_mask_values();
                    lemma2_to64();
                    assert(nib == ((w as int) / (pow2((60 - 4 * (k as int)) as nat) as int)) % 16);
                }
                let c: char = hex_digit(nib);
                chars.push(c);
                k = k + 1;
                proof {
                    assert(chars@ =~= emitted + hex_word(w).take(k as int));
                }
            }
            proof {
                assert(hex_word(w).take(16) =~= hex_word(w));
            }
            if ii > 0 {
                chars.push(' ');
            }
            proof {
                let s: Seq<u64> = self.data@;
                let t: Seq<u64> = s.skip(ii as int);
                assert(t[0] == s[ii as int]);
                if ii + 1 == s.len() {
                    assert(t.len() == 1);
                    assert(hex_str_of(t) == hex_word(s[ii as int]));
                } else {
                    assert(t.len() >= 2);
                    assert(t.skip(1) =~= s.skip(ii + 1));
                    assert(hex_str_of(t) == hex_str_of(s.skip(ii + 1)) + seq![' '] + hex_word(
                        s[ii as int],
                    ));
                }
                if ii > 0 {
                    assert(chars@ =~= hex_str_of(t) + seq![' ']);
                } else {
                    assert(chars@ =~= hex_str_of(t));
                    assert(t =~= s);
                }
            }
        }
        chars_to_string(chars)
    }

    /// Add a value to the accumulator.
    pub fn add(&mut self, value: Digit)
        requires
            old(self).wf(),
        ensures
            final(self).wf(),
            final(self).value() == old(self).value() + value,
    {
        proof {
            vstd::arithmetic::power::lemma_pow0(digit_base() as int);
        }
        self.add_at_place(value, 0);
    }
}

/// After `div`, the quotient and the returned remainder rebuild the prior
/// value exactly: for every value and nonzero divisor,
/// `a == (a / b) * b + a % b`, with the remainder below the divisor.
pub proof fn lemma_div_round_trip(a: nat, b: nat)
    requires
        b >= 1,
    ensures
        a == (a / b) * b + (a % b),
        a % b < b,
{
    vstd::arithmetic::div_mod::lemma_fundamental_div_mod(a as int, b as int);
    lemma_mul_is_commutative(b as int, (a / b) as int);
}

/// `shl` followed by `shr` with the same shift restores the value:
/// multiplying by a power of two and dividing by it again is the identity,
/// and the bits that the `shr` then returns — what the division leaves
/// over — are exactly zero.
pub proof fn lemma_shift_round_trip(a: nat, shift: nat)
    ensures
        (a * pow2(shift)) / pow2(shift) == a,
        (a * pow2(shift)) % pow2(shift) == 0,
{
    vstd::arithmetic::power2::lemma_pow2_pos(shift);
    vstd::arithmetic::div_mod::lemma_div_by_multiple(a as int, pow2(shift) as int);
    vstd::arithmetic::div_mod::lemma_mod_multiples_basic(a as int, pow2(shift) as int);
}

/// The character for one hexadecimal digit.
pub open spec fn hex_digit_char(n: int) -> char {
    if n == 0 {
        '0'
    } else if n == 1 {
        '1'
    } else if n == 2 {
        '2'
    } else if n == 3 {
        '3'
    } else if n == 4 {
        '4'
    } else if n == 5 {
        '5'
    } else if n == 6 {
        '6'
    } else if n == 7 {
        '7'
    } else if n == 8 {
        '8'
    } else if n == 9 {
        '9'
    } else if n == 10 {
        'a'
    } else if n == 11 {
        'b'
    } else if n == 12 {
        'c'
    } else if n == 13 {
        'd'
    } else if n == 14 {
        'e'
    } else {
        'f'
    }
}

/// The sixteen hex characters of one word, most significant nibble first.
pub open spec fn hex_word(w: u64) -> Seq<char> {
    Seq::new(16, |k: int| hex_digit_char(((w as int) / (pow2((60 - 4 * k) as nat) as int)) % 16))
}

/// The debug form of a word sequence: words most significant first, sixteen
/// fixed-width hex digits each, single-space separated, with no trailing
/// separator.
pub open spec fn hex_str_of(s: Seq<u64>) -> Seq<char>
    decreases s.len(),
{
    if s.len() == 0 {
        Seq::empty()
    } else if s.len() == 1 {
        hex_word(s[0])
    } else {
        hex_str_of(s.skip(1)) + seq![' '] + hex_word(s[0])
    }
}

/// The character for one hexadecimal digit.
fn hex_digit(nib: u64) -> (c: char)
    requires
        nib < 16,
    ensures
        c == hex_digit_char(nib as int),
{
    match nib {
        0 => '0',
        1 => '1',
        2 => '2',
        3 => '3',
        4 => '4',
        5 => '5',
        6 => '6',
        7 => '7',
        8 => '8',
        9 => '9',
        10 => 'a',
        11 => 'b',
        12 => 'c',
        13 => 'd',
        14 => 'e',
        _ => 'f',
    }
}

/// Relies on `String::from_iter` through `collect`: the collected string
/// holds exactly the given characters in order.
#[verifier::external_body]
fn chars_to_string(chars: Vec<char>) -> (r: String)
    ensures
        r@ == chars@,
{
    chars.into_iter().collect()
}

/// Separate a double word into its (least, most) significant words.
fn chop_digits(d: u128) -> (r: (u64, u64))
    ensures
        d == r.0 + digit_base() * r.1,
        r.1 < digit_base(),
{
    let lo: u64 = (d % 0x1_0000_0000_0000_0000u128) as u64;
    let hi: u64 = (d / 0x1_0000_0000_0000_0000u128) as u64;
    (lo, hi)
}

/// Combine (least, most) significant words into a double word.
fn fuse_digits(lo: u64, hi: u64) -> (r: u128)
    ensures
        r == lo + digit_base() * hi,
{
    (lo as u128) + 0x1_0000_0000_0000_0000u128 * (hi as u128)
}

/// `2^shift` as a double word, for shifts of at most the word width.
fn pow2_u128(shift: usize) -> (r: u128)
    requires
        shift <= 64,
    ensures
        r == pow2(shift as nat),
        1 <= r <= digit_base(),
{
    proof {
        vstd::arithmetic::power2::lemma2_to64();
        lemma2_to64_rest();
    }
    let mut r: u128 = 1;
    let mut k: usize = 0;
    while k < shift
        invariant
            k <= shift <= 64,
            r == pow2(k as nat),
            r <= pow2(64),
        decreases shift - k,
    {
        proof {
            if (k as nat) + 1 < 64 {
                lemma_pow2_strictly_increases((k + 1) as nat, 64);
            }
            lemma_pow2_unfold((k + 1) as nat);
            lemma2_to64_rest();
        }
        r = r * 2;
        k = k + 1;
    }
    proof {
        if (shift as nat) < 64 {
            lemma_pow2_strictly_increases(shift as nat, 64);
        }
        lemma2_to64_rest();
        vstd::arithmetic::power2::lemma_pow2_pos(shift as nat);
    }
    r
}

} // verus!
