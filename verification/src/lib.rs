//! An arbitrary-precision binary integer engine.
//!
//! A [`BigNumber`] holds a non-negative integer of unbounded magnitude as an
//! explicit sequence of binary digits, least-significant first. The crate
//! implements decimal-string conversion, addition, subtraction,
//! multiplication, bitwise logic and bit shifting from first principles; no
//! fixed-width machine integer ever holds the represented value itself.

pub mod binary;
pub mod decimal;
pub mod text;
pub mod laws;

use vstd::prelude::*;

verus! {

use vstd::string::StrSliceExecFns;
use vstd::string::StringExecFns;

use crate::binary::{
    is_bits, bits_value, pow2, add_bits, add_carry, sub_bits, sub_borrow, and_bits, or_bits,
    xor_bits, not_bits, shl_bits, shr_bits, zero_bits, max_len, first_bit, bit_at, tail_from,
    lemma_tail_from_step, lemma_add_carry_value, lemma_add_carry_props, lemma_sub_borrow_value,
    lemma_sub_borrow_props, lemma_shl_value, lemma_shr_value, lemma_bits_value_push,
    lemma_bits_value_zero,
};
use crate::decimal::{
    is_dec_digits, dec_value, is_canonical_dec, dec_digits_of, dec_add, dec_add_carry, last_digit,
    head_to, lemma_head_to_step, lemma_dec_add_carry_value, lemma_dec_add_canonical,
    lemma_dec_value_zero, lemma_dec_strip_zero, lemma_canonical_dec_unique,
};
use crate::text::{
    is_dec_char, char_digit, digit_char, bit_char, digits_of_chars, chars_of_digits, is_ws_char,
    trim_chars, lemma_trim_all_ws, lemma_trim_subrange,
};

/// A non-negative integer as a buffer of binary digits, index 0 holding the
/// least-significant bit. The buffer is never empty; it may carry extra
/// high-order zero digits, so its length is not a magnitude indicator.
pub struct BigNumber {
    pub bits: Vec<u8>,
}

impl View for BigNumber {
    type V = Seq<u8>;

    open spec fn view(&self) -> Seq<u8> {
        self.bits@
    }
}

impl BigNumber {
    /// A well-formed number: at least one digit, every digit 0 or 1.
    pub open spec fn wf(&self) -> bool {
        is_bits(self@) && self@.len() >= 1
    }

    /// The value this number denotes.
    pub open spec fn value(&self) -> nat {
        bits_value(self@)
    }

    /// Parse a decimal string into a number by repeated halving of the
    /// decimal digit sequence, emitting one binary digit per halving,
    /// least-significant first. The input may carry surrounding whitespace;
    /// what remains after trimming must be one or more decimal digits.
    /// The result carries no leading zero digits: its last digit is 1 unless
    /// the value is zero, which is the single digit 0.
    pub fn from_dec(dec_str: &str) -> (r: Self)
        requires
            trim_chars(dec_str@).len() >= 1,
            forall|i: int|
                0 <= i < trim_chars(dec_str@).len() ==> is_dec_char(#[trigger] trim_chars(
                    dec_str@,
                )[i]),
        ensures
            r.wf(),
            r.value() == dec_value(digits_of_chars(trim_chars(dec_str@))),
            r.value() > 0 ==> r@.last() == 1,
            r.value() == 0 ==> r@ == seq![0u8],
    {
        let slen = dec_str.unicode_len();
        let mut start: usize = 0;
        loop
            invariant_except_break
                start <= slen,
                slen == dec_str@.len(),
                forall|j: int| 0 <= j < start ==> is_ws_char(dec_str@[j]),
            invariant
                trim_chars(dec_str@).len() >= 1,
                forall|i: int|
                    0 <= i < trim_chars(dec_str@).len() ==> is_dec_char(#[trigger] trim_chars(
                        dec_str@,
                    )[i]),
            ensures
                start < slen,
                slen == dec_str@.len(),
                !is_ws_char(dec_str@[start as int]),
                forall|j: int| 0 <= j < start ==> is_ws_char(dec_str@[j]),
            decreases slen - start,
        {
            if start == slen {
                proof {
                    lemma_trim_all_ws(dec_str@);
                }
                break ;
            }
            let c = dec_str.get_char(start);
            if !ws_char(c) {
                break ;
            }
            start += 1;
        }
        let mut end: usize = slen;
        loop
            invariant_except_break
                start < end <= slen,
                slen == dec_str@.len(),
                !is_ws_char(dec_str@[start as int]),
                forall|j: int| 0 <= j < start ==> is_ws_char(dec_str@[j]),
                forall|j: int| end <= j < slen ==> is_ws_char(dec_str@[j]),
            ensures
                start < end <= slen,
                slen == dec_str@.len(),
                !is_ws_char(dec_str@[start as int]),
                !is_ws_char(dec_str@[end - 1]),
                forall|j: int| 0 <= j < start ==> is_ws_char(dec_str@[j]),
                forall|j: int| end <= j < slen ==> is_ws_char(dec_str@[j]),
            decreases end,
        {
            let c = dec_str.get_char(end - 1);
            if !ws_char(c) {
                break ;
            }
            if end == start + 1 {
                proof {
                    assert(false);
                }
                break ;
            }
            end -= 1;
        }
        proof {
            lemma_trim_subrange(dec_str@, start as int, end as int);
        }
        let mut digits: Vec<u8> = Vec::new();
        let mut i: usize = start;
        while i < end
            invariant
                start <= i <= end <= slen,
                slen == dec_str@.len(),
                trim_chars(dec_str@) == dec_str@.subrange(start as int, end as int),
                forall|k: int|
                    0 <= k < trim_chars(dec_str@).len() ==> is_dec_char(#[trigger] trim_chars(
                        dec_str@,
                    )[k]),
                digits@.len() == i - start,
                forall|k: int|
                    0 <= k < digits@.len() ==> digits@[k] == char_digit(
                        #[trigger] dec_str@[start + k],
                    ),
            decreases end - i,
        {
            let c = dec_str.get_char(i);
            proof {
                assert(trim_chars(dec_str@)[i - start] == c);
            }
            let d = digit_of_char(c);
            digits.push(d);
            i += 1;
        }
        proof {
            assert(digits@ =~= digits_of_chars(trim_chars(dec_str@))) by {
                assert(forall|k: int|
                    0 <= k < trim_chars(dec_str@).len() ==> #[trigger] trim_chars(dec_str@)[k]
                        == dec_str@[start + k]);
            }
            assert(is_dec_digits(digits@)) by {
                assert(forall|k: int|
                    0 <= k < trim_chars(dec_str@).len() ==> is_dec_char(#[trigger] trim_chars(
                        dec_str@,
                    )[k]));
            }
        }
        let ghost v0 = dec_value(digits@);
        let mut dec = digits;
        let mut bits: Vec<u8> = Vec::new();
        proof {
            assert(bits@ =~= Seq::<u8>::empty());
            assert(bits_value(bits@) == 0);
            assert(pow2(0) == 1);
            assert(dec_value(dec@) * pow2(bits@.len()) == v0) by (nonlinear_arith)
                requires
                    pow2(bits@.len()) == 1,
                    dec_value(dec@) == v0,
            ;
        }
        loop
            invariant_except_break
                is_dec_digits(dec@),
                is_bits(bits@),
                bits_value(bits@) + dec_value(dec@) * pow2(bits@.len()) == v0,
                bits@.len() >= 1 ==> dec_value(dec@) >= 1,
            ensures
                is_bits(bits@),
                bits@.len() >= 1,
                bits_value(bits@) == v0,
                v0 > 0 ==> bits@.last() == 1,
                v0 == 0 ==> bits@ == seq![0u8],
            decreases dec_value(dec@),
        {
            let ghost dv_old = dec_value(dec@);
            let ghost bits_old = bits@;
            let rem = divide_by_two(&mut dec);
            proof {
                lemma_bits_value_push(bits@, rem);
                assert(pow2(bits@.len() + 1) == 2 * pow2(bits@.len()));
                assert(dec_value(dec@) * pow2(bits@.len() + 1) == 2 * dec_value(dec@) * pow2(
                    bits@.len(),
                )) by (nonlinear_arith)
                    requires
                        pow2(bits@.len() + 1) == 2 * pow2(bits@.len()),
                ;
                assert((2 * dec_value(dec@) + rem) * pow2(bits@.len()) == 2 * dec_value(dec@)
                    * pow2(bits@.len()) + (rem as nat) * pow2(bits@.len())) by (nonlinear_arith);
            }
            bits.push(rem);
            proof {
                assert(bits@ == bits_old.push(rem));
                assert(bits@.last() == rem);
                lemma_dec_value_zero(dec@);
                if dv_old == 0 {
                    assert(rem == 0);
                    assert(dec_value(dec@) == 0);
                }
                if bits_old.len() == 0 {
                    assert(bits_value(bits_old) == 0);
                    assert(v0 == dv_old);
                }
            }
            if all_zero(&dec) {
                proof {
                    assert(dec_value(dec@) == 0);
                    assert(dv_old == 2 * dec_value(dec@) + rem);
                    if v0 > 0 {
                        if bits_old.len() == 0 {
                            assert(dv_old == v0 >= 1);
                            assert(rem == 1);
                        } else {
                            assert(dv_old >= 1);
                            assert(rem == 1);
                        }
                    } else {
                        assert(bits_value(bits@) == 0);
                        if bits_old.len() == 0 {
                            assert(rem == 0);
                            assert(bits@ =~= seq![0u8]);
                        } else {
                            assert(dv_old >= 1);
                            crate::binary::lemma_pow2_pos(bits_old.len());
                            assert(v0 >= dv_old * pow2(bits_old.len())) by (nonlinear_arith)
                                requires
                                    dv_old >= 1,
                                    pow2(bits_old.len()) >= 1,
                                    v0 == bits_value(bits_old) + dv_old * pow2(bits_old.len()),
                            ;
                            assert(dv_old * pow2(bits_old.len()) >= 1) by (nonlinear_arith)
                                requires
                                    dv_old >= 1,
                                    pow2(bits_old.len()) >= 1,
                            ;
                            assert(false);
                        }
                    }
                }
                break ;
            }
            proof {
                assert(dec_value(dec@) >= 1);
                assert(dv_old == 2 * dec_value(dec@) + rem);
                assert(dec_value(dec@) < dv_old);
                assert(rem == 1 ==> bits@.last() == 1);
                if rem == 0 {
                    assert(dv_old == 2 * dec_value(dec@));
                    if bits_old.len() >= 1 {
                    } else {
                        assert(v0 == dv_old >= 2);
                    }
                }
            }
        }
        proof {
            crate::binary::lemma_pow2_pos(0);
        }
        Self { bits }
    }

    /// Render the value as its canonical decimal string, accumulating
    /// decimal representations of the powers of two for each set digit with
    /// the internal decimal adder.
    pub fn to_dec(&self) -> (r: String)
        requires
            self.wf(),
        ensures
            r@ == chars_of_digits(dec_digits_of(self.value())),
            r@.len() >= 1,
            dec_value(digits_of_chars(r@)) == self.value(),
    {
        let mut dec: Vec<u8> = Vec::new();
        dec.push(0);
        let mut pow: Vec<u8> = Vec::new();
        pow.push(1);
        proof {
            assert(dec@ =~= seq![0u8]);
            assert(pow@ =~= seq![1u8]);
            assert(seq![0u8].drop_last() =~= Seq::<u8>::empty());
            assert(seq![1u8].drop_last() =~= Seq::<u8>::empty());
            assert(dec_value(Seq::<u8>::empty()) == 0);
            assert(dec_value(dec@) == 0);
            assert(dec_value(pow@) == 1);
            assert(self@.take(0) =~= Seq::<u8>::empty());
            assert(bits_value(Seq::<u8>::empty()) == 0);
        }
        let len = self.bits.len();
        let mut i: usize = 0;
        while i < len
            invariant
                i <= len,
                len == self@.len(),
                is_bits(self@),
                is_canonical_dec(dec@),
                is_canonical_dec(pow@),
                dec_value(dec@) == bits_value(self@.take(i as int)),
                dec_value(pow@) == pow2(i as nat),
            decreases len - i,
        {
            proof {
                assert(self@.take(i + 1) =~= self@.take(i as int).push(self@[i as int]));
                lemma_bits_value_push(self@.take(i as int), self@[i as int]);
            }
            if self.bits[i] == 1 {
                let next = add_dec_vecs(&dec, &pow);
                proof {
                    lemma_dec_add_carry_value(dec@, pow@, 0);
                    lemma_dec_add_canonical(dec@, pow@);
                }
                dec = next;
            }
            let doubled = add_dec_vecs(&pow, &pow);
            proof {
                lemma_dec_add_carry_value(pow@, pow@, 0);
                lemma_dec_add_canonical(pow@, pow@);
            }
            pow = doubled;
            i += 1;
        }
        proof {
            assert(self@.take(len as int) =~= self@);
            lemma_canonical_dec_unique(dec@);
        }
        let mut r = String::new();
        let mut j: usize = 0;
        while j < dec.len()
            invariant
                j <= dec@.len(),
                is_dec_digits(dec@),
                r@.len() == j,
                forall|k: int| 0 <= k < j ==> r@[k] == digit_char(dec@[k]),
            decreases dec@.len() - j,
        {
            push_digit_char(&mut r, dec[j]);
            j += 1;
        }
        proof {
            assert(r@ =~= chars_of_digits(dec@));
            crate::decimal::lemma_dec_digits_of_value(self.value());
            assert(digits_of_chars(r@) =~= dec@) by {
                assert forall|k: int| 0 <= k < dec@.len() implies digits_of_chars(r@)[k]
                    == dec@[k] by {
                    crate::text::lemma_digit_char_inverse(dec@[k]);
                }
            }
        }
        r
    }

    /// Render the digit sequence as a string of '0' and '1' characters,
    /// most-significant digit first; purely representational.
    pub fn to_bits(&self) -> (r: String)
        requires
            self.wf(),
        ensures
            r@.len() == self@.len(),
            forall|i: int|
                0 <= i < self@.len() ==> r@[i] == bit_char(self@[self@.len() - 1 - i]),
    {
        let mut r = String::new();
        let mut i: usize = self.bits.len();
        while i > 0
            invariant
                i <= self@.len(),
                is_bits(self@),
                r@.len() == self@.len() - i,
                forall|k: int|
                    0 <= k < r@.len() ==> r@[k] == bit_char(self@[self@.len() - 1 - k]),
            decreases i,
        {
            i -= 1;
            push_bit_char(&mut r, self.bits[i]);
        }
        r
    }

    /// The sum of two numbers, by binary ripple-carry addition; the result is
    /// one digit longer than the longer operand when a final carry remains.
    pub fn add(&self, num: BigNumber) -> (r: Self)
        requires
            self.wf(),
            num.wf(),
        ensures
            r@ == add_bits(self@, num@),
            r.value() == self.value() + num.value(),
            max_len(self@, num@) <= r@.len() <= max_len(self@, num@) + 1,
            r.wf(),
    {
        let bits = add_vecs(&self.bits, &num.bits);
        proof {
            lemma_add_carry_value(self@, num@, 0);
            lemma_add_carry_props(self@, num@, 0);
        }
        Self { bits }
    }

    /// The difference of two numbers, by borrow-propagating subtraction; the
    /// result keeps the longer operand's length, so it may carry leading zero
    /// digits. The subtrahend must not exceed this number.
    pub fn sub(&self, num: BigNumber) -> (r: Self)
        requires
            self.wf(),
            num.wf(),
            num.value() <= self.value(),
        ensures
            r@ == sub_bits(self@, num@),
            r.value() == self.value() - num.value(),
            r@.len() == max_len(self@, num@),
            r.wf(),
    {
        let bits = sub_vecs(&self.bits, &num.bits);
        proof {
            lemma_sub_borrow_value(self@, num@, 0);
            lemma_sub_borrow_props(self@, num@, 0);
        }
        Self { bits }
    }

    /// The product of two numbers, by shift-and-add schoolbook
    /// multiplication over the shorter operand's digits.
    pub fn mul(&self, num: BigNumber) -> (r: Self)
        requires
            self.wf(),
            num.wf(),
            self@.len() + num@.len() <= usize::MAX,
        ensures
            r.value() == self.value() * num.value(),
            max_len(self@, num@) <= r@.len() <= self@.len() + num@.len(),
            r.wf(),
    {
        let main: &Vec<u8>;
        let mult: &Vec<u8>;
        if self.bits.len() >= num.bits.len() {
            main = &self.bits;
            mult = &num.bits;
        } else {
            main = &num.bits;
            mult = &self.bits;
        }
        proof {
            assert(bits_value(main@) * bits_value(mult@) == self.value() * num.value())
                by (nonlinear_arith)
                requires
                    (bits_value(main@) == self.value() && bits_value(mult@) == num.value()) || (
                    bits_value(main@) == num.value() && bits_value(mult@) == self.value()),
            ;
        }
        let mut acc: Vec<u8>;
        if mult[0] == 0 {
            acc = zero_vec(main.len());
            proof {
                assert(is_bits(acc@));
                lemma_bits_value_zero(acc@);
            }
        } else {
            acc = copy_vec(main);
        }
        proof {
            assert(mult@.take(1).drop_first() =~= Seq::<u8>::empty());
            assert(bits_value(Seq::<u8>::empty()) == 0);
            assert(mult@.take(1)[0] == mult@[0]);
            assert(bits_value(mult@.take(1)) == mult@[0] as nat);
            if mult@[0] == 0 {
                assert(bits_value(acc@) == 0);
                assert(bits_value(main@) * bits_value(mult@.take(1)) == 0) by (nonlinear_arith)
                    requires
                        bits_value(mult@.take(1)) == 0,
                ;
            } else {
                assert(bits_value(main@) * bits_value(mult@.take(1)) == bits_value(main@))
                    by (nonlinear_arith)
                    requires
                        bits_value(mult@.take(1)) == 1,
                ;
            }
        }
        let mut n: usize = 1;
        while n < mult.len()
            invariant
                1 <= n <= mult@.len(),
                is_bits(main@),
                is_bits(mult@),
                is_bits(acc@),
                main@.len() >= mult@.len(),
                mult@.len() >= 1,
                main@.len() >= 1,
                main@.len() + mult@.len() <= usize::MAX,
                main@.len() <= acc@.len() <= main@.len() + n,
                bits_value(acc@) == bits_value(main@) * bits_value(mult@.take(n as int)),
            decreases mult@.len() - n,
        {
            let mut partial: Vec<u8> = zero_vec(n);
            if mult[n] == 1 {
                let mut m = copy_vec(main);
                partial.append(&mut m);
                proof {
                    assert(partial@ == shl_bits(main@, n as nat));
                    lemma_shl_value(main@, n as nat);
                    assert(forall|k: int|
                        0 <= k < partial@.len() ==> partial@[k] == #[trigger] bit_at(
                            shl_bits(main@, n as nat),
                            k,
                        ));
                    assert(is_bits(partial@));
                }
            } else {
                let mut z = zero_vec(main.len());
                partial.append(&mut z);
                proof {
                    assert(partial@ =~= zero_bits((n + main@.len()) as nat));
                    assert(is_bits(partial@));
                    lemma_bits_value_zero(partial@);
                }
            }
            let ghost prev = acc@;
            let next = add_vecs(&acc, &partial);
            acc = next;
            proof {
                lemma_add_carry_value(prev, partial@, 0);
                lemma_add_carry_props(prev, partial@, 0);
                assert(mult@.take(n + 1) =~= mult@.take(n as int).push(mult@[n as int]));
                lemma_bits_value_push(mult@.take(n as int), mult@[n as int]);
                let mv = bits_value(main@);
                let vt = bits_value(mult@.take(n as int));
                let p = pow2(n as nat);
                if mult@[n as int] == 1 {
                    assert(bits_value(partial@) == p * mv);
                    assert(bits_value(mult@.take(n + 1)) == vt + p);
                    assert(mv * (vt + p) == mv * vt + p * mv) by (nonlinear_arith);
                } else {
                    assert(bits_value(partial@) == 0);
                    assert(bits_value(mult@.take(n + 1)) == vt);
                }
                assert(partial@.len() == main@.len() + n);
                assert(max_len(prev, partial@) == main@.len() + n);
            }
            n += 1;
        }
        proof {
            assert(mult@.take(mult@.len() as int) =~= mult@);
        }
        Self { bits: acc }
    }

    /// The position-wise conjunction over the longer operand's length,
    /// zero-extending the shorter operand.
    pub fn and(&self, num: BigNumber) -> (r: Self)
        requires
            self.wf(),
            num.wf(),
        ensures
            r@ == and_bits(self@, num@),
            r.wf(),
    {
        let alen = self.bits.len();
        let blen = num.bits.len();
        let iter_len = if alen > blen {
            alen
        } else {
            blen
        };
        let mut bits: Vec<u8> = Vec::new();
        let mut n: usize = 0;
        while n < iter_len
            invariant
                n <= iter_len,
                alen == self@.len(),
                blen == num@.len(),
                iter_len == max_len(self@, num@),
                bits@.len() == n,
                forall|k: int| 0 <= k < n ==> bits@[k] == and_bits(self@, num@)[k],
            decreases iter_len - n,
        {
            let bit1: u8 = if n < alen {
                self.bits[n]
            } else {
                0
            };
            let bit2: u8 = if n < blen {
                num.bits[n]
            } else {
                0
            };
            if bit1 == 1 && bit2 == 1 {
                bits.push(1);
            } else {
                bits.push(0);
            }
            n += 1;
        }
        proof {
            assert(bits@ =~= and_bits(self@, num@));
            assert(is_bits(bits@));
        }
        Self { bits }
    }

    /// The position-wise disjunction over the longer operand's length,
    /// zero-extending the shorter operand.
    pub fn or(&self, num: BigNumber) -> (r: Self)
        requires
            self.wf(),
            num.wf(),
        ensures
            r@ == or_bits(self@, num@),
            r.wf(),
    {
        let alen = self.bits.len();
        let blen = num.bits.len();
        let iter_len = if alen > blen {
            alen
        } else {
            blen
        };
        let mut bits: Vec<u8> = Vec::new();
        let mut n: usize = 0;
        while n < iter_len
            invariant
                n <= iter_len,
                alen == self@.len(),
                blen == num@.len(),
                iter_len == max_len(self@, num@),
                bits@.len() == n,
                forall|k: int| 0 <= k < n ==> bits@[k] == or_bits(self@, num@)[k],
            decreases iter_len - n,
        {
            let bit1: u8 = if n < alen {
                self.bits[n]
            } else {
                0
            };
            let bit2: u8 = if n < blen {
                num.bits[n]
            } else {
                0
            };
            if bit1 == 1 || bit2 == 1 {
                bits.push(1);
            } else {
                bits.push(0);
            }
            n += 1;
        }
        proof {
            assert(bits@ =~= or_bits(self@, num@));
            assert(is_bits(bits@));
        }
        Self { bits }
    }

    /// The position-wise exclusive disjunction over the longer operand's
    /// length, zero-extending the shorter operand.
    pub fn xor(&self, num: BigNumber) -> (r: Self)
        requires
            self.wf(),
            num.wf(),
        ensures
            r@ == xor_bits(self@, num@),
            r.wf(),
    {
        let alen = self.bits.len();
        let blen = num.bits.len();
        let iter_len = if alen > blen {
            alen
        } else {
            blen
        };
        let mut bits: Vec<u8> = Vec::new();
        let mut n: usize = 0;
        while n < iter_len
            invariant
                n <= iter_len,
                alen == self@.len(),
                blen == num@.len(),
                iter_len == max_len(self@, num@),
                is_bits(self@),
                is_bits(num@),
                bits@.len() == n,
                forall|k: int| 0 <= k < n ==> bits@[k] == xor_bits(self@, num@)[k],
            decreases iter_len - n,
        {
            let bit1: u8 = if n < alen {
                self.bits[n]
            } else {
                0
            };
            let bit2: u8 = if n < blen {
                num.bits[n]
            } else {
                0
            };
            if bit1 != bit2 {
                bits.push(1);
            } else {
                bits.push(0);
            }
            n += 1;
        }
        proof {
            assert(bits@ =~= xor_bits(self@, num@));
            assert(is_bits(bits@));
        }
        Self { bits }
    }

    /// The per-digit complement over this number's own length; this is not
    /// arithmetic negation.
    pub fn not(&self) -> (r: Self)
        requires
            self.wf(),
        ensures
            r@ == not_bits(self@),
            r.wf(),
    {
        let len = self.bits.len();
        let mut bits: Vec<u8> = Vec::new();
        let mut n: usize = 0;
        while n < len
            invariant
                n <= len,
                len == self@.len(),
                bits@.len() == n,
                forall|k: int| 0 <= k < n ==> bits@[k] == not_bits(self@)[k],
            decreases len - n,
        {
            if self.bits[n] == 0 {
                bits.push(1);
            } else {
                bits.push(0);
            }
            n += 1;
        }
        proof {
            assert(bits@ =~= not_bits(self@));
            assert(is_bits(bits@));
        }
        Self { bits }
    }

    /// Shift left: prepend `num` zero digits at the least-significant end,
    /// multiplying the value by 2^num.
    pub fn shift_l(&self, num: u64) -> (r: Self)
        requires
            self.wf(),
            self@.len() + num <= usize::MAX,
        ensures
            r@ == shl_bits(self@, num as nat),
            r.value() == pow2(num as nat) * self.value(),
            r@.len() == self@.len() + num,
            r.wf(),
    {
        let mut bits = zero_vec(num as usize);
        let mut m = copy_vec(&self.bits);
        bits.append(&mut m);
        proof {
            lemma_shl_value(self@, num as nat);
            assert(forall|k: int|
                0 <= k < bits@.len() ==> bits@[k] == #[trigger] bit_at(
                    shl_bits(self@, num as nat),
                    k,
                ));
            assert(is_bits(bits@));
        }
        Self { bits }
    }

    /// Shift right: drop the `num` least-significant digits, dividing the
    /// value by 2^num and rounding down; shifting every digit out leaves the
    /// single-digit zero value.
    pub fn shift_r(&self, num: u64) -> (r: Self)
        requires
            self.wf(),
        ensures
            r@ == shr_bits(self@, num as nat),
            r.value() == (self.value() as int) / (pow2(num as nat) as int),
            r.wf(),
    {
        proof {
            lemma_shr_value(self@, num as nat);
        }
        let len = self.bits.len();
        if num >= len as u64 {
            let mut bits: Vec<u8> = Vec::new();
            bits.push(0);
            proof {
                assert(bits@ =~= seq![0u8]);
            }
            return Self { bits };
        }
        let k = num as usize;
        let mut bits: Vec<u8> = Vec::new();
        let mut i: usize = k;
        while i < len
            invariant
                k <= i <= len,
                len == self@.len(),
                k < len,
                bits@.len() == i - k,
                forall|j: int| 0 <= j < bits@.len() ==> bits@[j] == self@[k + j],
            decreases len - i,
        {
            bits.push(self.bits[i]);
            i += 1;
        }
        proof {
            assert(bits@ =~= self@.skip(k as int));
            assert(is_bits(bits@)) by {
                assert(forall|j: int|
                    0 <= j < bits@.len() ==> bits@[j] == #[trigger] self@[k + j]);
            }
        }
        Self { bits }
    }
}

/// True exactly when every digit of the working decimal sequence is zero.
fn all_zero(dec: &Vec<u8>) -> (b: bool)
    ensures
        b == (forall|i: int| 0 <= i < dec@.len() ==> dec@[i] == 0),
{
    let mut i: usize = 0;
    while i < dec.len()
        invariant
            i <= dec@.len(),
            forall|j: int| 0 <= j < i ==> dec@[j] == 0,
        decreases dec@.len() - i,
    {
        if dec[i] != 0 {
            return false;
        }
        i += 1;
    }
    true
}

/// Divide the working decimal digit sequence by two in place, sweeping from
/// the most-significant digit with a running remainder, then strip leading
/// zero digits; returns the remainder of the division.
fn divide_by_two(dec: &mut Vec<u8>) -> (rem: u8)
    requires
        is_dec_digits(old(dec)@),
    ensures
        is_dec_digits(final(dec)@),
        rem <= 1,
        2 * dec_value(final(dec)@) + rem == dec_value(old(dec)@),
{
    let mut rem: u8 = 0;
    let len = dec.len();
    let mut i: usize = 0;
    while i < len
        invariant
            i <= len,
            len == dec@.len(),
            len == old(dec)@.len(),
            is_dec_digits(old(dec)@),
            is_dec_digits(dec@),
            rem <= 1,
            dec_value(old(dec)@.take(i as int)) == 2 * dec_value(dec@.take(i as int)) + rem,
            dec@.skip(i as int) =~= old(dec)@.skip(i as int),
        decreases len - i,
    {
        let d = dec[i];
        proof {
            assert(dec@[i as int] == dec@.skip(i as int)[0]);
            assert(old(dec)@[i as int] == old(dec)@.skip(i as int)[0]);
            assert(d == old(dec)@[i as int]);
            assert(d <= 9);
        }
        let val = rem * 10 + d;
        let ghost prev = dec@;
        dec.set(i, val / 2);
        proof {
            assert(dec@.take(i as int) =~= prev.take(i as int));
            assert(dec@.take(i + 1).drop_last() =~= dec@.take(i as int));
            assert(dec@.take(i + 1).last() == val / 2);
            assert(dec_value(dec@.take(i + 1)) == 10 * dec_value(dec@.take(i as int)) + (val
                / 2) as nat);
            assert(old(dec)@.take(i + 1).drop_last() =~= old(dec)@.take(i as int));
            assert(old(dec)@.take(i + 1).last() == d);
            assert(dec_value(old(dec)@.take(i + 1)) == 10 * dec_value(old(dec)@.take(i as int))
                + (d as nat));
            assert(dec@.skip(i + 1) =~= prev.skip(i + 1));
            assert(old(dec)@.skip(i + 1) =~= old(dec)@.skip(i as int).drop_first());
            assert(prev.skip(i + 1) =~= prev.skip(i as int).drop_first());
        }
        rem = val % 2;
        i += 1;
    }
    proof {
        assert(dec@.take(len as int) =~= dec@);
        assert(old(dec)@.take(len as int) =~= old(dec)@);
    }
    while dec.len() > 0 && dec[0] == 0
        invariant
            is_dec_digits(dec@),
            rem <= 1,
            2 * dec_value(dec@) + rem == dec_value(old(dec)@),
        decreases dec@.len(),
    {
        proof {
            lemma_dec_strip_zero(dec@);
            assert(dec@.remove(0) =~= dec@.drop_first());
        }
        dec.remove(0);
    }
    rem
}

/// Binary ripple-carry addition of two digit buffers, least-significant
/// first, zero-extending the shorter; a final carry appends one digit.
fn add_vecs(a: &Vec<u8>, b: &Vec<u8>) -> (r: Vec<u8>)
    requires
        is_bits(a@),
        is_bits(b@),
    ensures
        r@ == add_bits(a@, b@),
{
    let alen = a.len();
    let blen = b.len();
    let iter_len = if alen > blen {
        alen
    } else {
        blen
    };
    let mut r: Vec<u8> = Vec::new();
    let mut carry: u8 = 0;
    let mut n: usize = 0;
    proof {
        assert(tail_from(a@, 0) =~= a@);
        assert(tail_from(b@, 0) =~= b@);
        assert(Seq::<u8>::empty() + add_carry(a@, b@, 0) =~= add_carry(a@, b@, 0));
    }
    while n < iter_len
        invariant
            n <= iter_len,
            iter_len == max_len(a@, b@),
            alen == a@.len(),
            blen == b@.len(),
            is_bits(a@),
            is_bits(b@),
            carry <= 1,
            r@.len() == n,
            add_bits(a@, b@) == r@ + add_carry(
                tail_from(a@, n as int),
                tail_from(b@, n as int),
                carry,
            ),
        decreases iter_len - n,
    {
        let bit1: u8 = if n < alen {
            a[n]
        } else {
            0
        };
        let bit2: u8 = if n < blen {
            b[n]
        } else {
            0
        };
        let sum = bit1 + bit2 + carry;
        proof {
            lemma_tail_from_step(a@, n as int);
            lemma_tail_from_step(b@, n as int);
            let ta = tail_from(a@, n as int);
            let tb = tail_from(b@, n as int);
            assert(first_bit(ta) == bit1);
            assert(first_bit(tb) == bit2);
            assert(ta.len() > 0 || tb.len() > 0);
            assert(add_carry(ta, tb, carry) == seq![sum % 2] + add_carry(
                tail_from(a@, n + 1),
                tail_from(b@, n + 1),
                sum / 2,
            ));
            assert(r@.push(sum % 2) =~= r@ + seq![sum % 2]);
            assert((r@ + seq![sum % 2]) + add_carry(
                tail_from(a@, n + 1),
                tail_from(b@, n + 1),
                sum / 2,
            ) =~= r@ + (seq![sum % 2] + add_carry(
                tail_from(a@, n + 1),
                tail_from(b@, n + 1),
                sum / 2,
            )));
        }
        r.push(sum % 2);
        carry = sum / 2;
        n += 1;
    }
    proof {
        assert(tail_from(a@, iter_len as int) =~= Seq::<u8>::empty());
        assert(tail_from(b@, iter_len as int) =~= Seq::<u8>::empty());
        if carry == 0 {
            assert(r@ + Seq::<u8>::empty() =~= r@);
        } else {
            assert(r@ + seq![1u8] =~= r@.push(1u8));
        }
    }
    if carry == 1 {
        r.push(1);
    }
    r
}

/// Binary borrow-propagating subtraction of two digit buffers,
/// least-significant first, zero-extending the shorter; the result keeps the
/// longer buffer's length.
fn sub_vecs(a: &Vec<u8>, b: &Vec<u8>) -> (r: Vec<u8>)
    requires
        is_bits(a@),
        is_bits(b@),
    ensures
        r@ == sub_bits(a@, b@),
{
    let alen = a.len();
    let blen = b.len();
    let iter_len = if alen > blen {
        alen
    } else {
        blen
    };
    let mut r: Vec<u8> = Vec::new();
    let mut borrow: u8 = 0;
    let mut n: usize = 0;
    proof {
        assert(tail_from(a@, 0) =~= a@);
        assert(tail_from(b@, 0) =~= b@);
        assert(Seq::<u8>::empty() + sub_borrow(a@, b@, 0) =~= sub_borrow(a@, b@, 0));
    }
    while n < iter_len
        invariant
            n <= iter_len,
            iter_len == max_len(a@, b@),
            alen == a@.len(),
            blen == b@.len(),
            is_bits(a@),
            is_bits(b@),
            borrow <= 1,
            r@.len() == n,
            sub_bits(a@, b@) == r@ + sub_borrow(
                tail_from(a@, n as int),
                tail_from(b@, n as int),
                borrow,
            ),
        decreases iter_len - n,
    {
        let bit1: u8 = if n < alen {
            a[n]
        } else {
            0
        };
        let bit2: u8 = if n < blen {
            b[n]
        } else {
            0
        };
        let out: u8;
        let next_borrow: u8;
        if bit1 >= bit2 + borrow {
            out = bit1 - bit2 - borrow;
            next_borrow = 0;
        } else {
            out = bit1 + 2 - bit2 - borrow;
            next_borrow = 1;
        }
        proof {
            lemma_tail_from_step(a@, n as int);
            lemma_tail_from_step(b@, n as int);
            let ta = tail_from(a@, n as int);
            let tb = tail_from(b@, n as int);
            assert(first_bit(ta) == bit1);
            assert(first_bit(tb) == bit2);
            assert(ta.len() > 0 || tb.len() > 0);
            assert(sub_borrow(ta, tb, borrow) == seq![out] + sub_borrow(
                tail_from(a@, n + 1),
                tail_from(b@, n + 1),
                next_borrow,
            ));
            assert(r@.push(out) =~= r@ + seq![out]);
            assert((r@ + seq![out]) + sub_borrow(
                tail_from(a@, n + 1),
                tail_from(b@, n + 1),
                next_borrow,
            ) =~= r@ + (seq![out] + sub_borrow(
                tail_from(a@, n + 1),
                tail_from(b@, n + 1),
                next_borrow,
            )));
        }
        r.push(out);
        borrow = next_borrow;
        n += 1;
    }
    proof {
        assert(tail_from(a@, iter_len as int) =~= Seq::<u8>::empty());
        assert(tail_from(b@, iter_len as int) =~= Seq::<u8>::empty());
        assert(sub_borrow(Seq::<u8>::empty(), Seq::<u8>::empty(), borrow)
            =~= Seq::<u8>::empty());
        assert(r@ + Seq::<u8>::empty() =~= r@);
    }
    r
}

/// A fresh copy of a digit buffer.
fn copy_vec(v: &Vec<u8>) -> (r: Vec<u8>)
    ensures
        r@ == v@,
{
    let mut r: Vec<u8> = Vec::new();
    let mut i: usize = 0;
    while i < v.len()
        invariant
            i <= v@.len(),
            r@ =~= v@.take(i as int),
        decreases v@.len() - i,
    {
        proof {
            assert(v@.take(i + 1) =~= v@.take(i as int).push(v@[i as int]));
        }
        r.push(v[i]);
        i += 1;
    }
    proof {
        assert(v@.take(v@.len() as int) =~= v@);
    }
    r
}

/// A buffer of `n` zero digits.
fn zero_vec(n: usize) -> (r: Vec<u8>)
    ensures
        r@ == zero_bits(n as nat),
{
    let mut r: Vec<u8> = Vec::new();
    let mut i: usize = 0;
    while i < n
        invariant
            i <= n,
            r@.len() == i,
            forall|k: int| 0 <= k < i ==> r@[k] == 0,
        decreases n - i,
    {
        r.push(0);
        i += 1;
    }
    proof {
        assert(r@ =~= zero_bits(n as nat));
    }
    r
}

/// A reversed copy of a digit buffer.
fn reversed_vec(v: &Vec<u8>) -> (r: Vec<u8>)
    ensures
        r@ == v@.reverse(),
{
    let mut r: Vec<u8> = Vec::new();
    let mut i: usize = v.len();
    while i > 0
        invariant
            i <= v@.len(),
            r@.len() == v@.len() - i,
            forall|k: int| 0 <= k < r@.len() ==> r@[k] == v@[v@.len() - 1 - k],
        decreases i,
    {
        i -= 1;
        r.push(v[i]);
    }
    proof {
        assert(r@ =~= v@.reverse());
    }
    r
}

/// Schoolbook decimal addition of two most-significant-first digit buffers:
/// sweep from the least-significant end with a carry, append a final carry
/// digit if one remains, then restore most-significant-first order.
#[verifier::rlimit(50)]
fn add_dec_vecs(a: &Vec<u8>, b: &Vec<u8>) -> (r: Vec<u8>)
    requires
        is_dec_digits(a@),
        is_dec_digits(b@),
    ensures
        r@ == dec_add(a@, b@),
{
    let alen = a.len();
    let blen = b.len();
    let iter_len = if alen > blen {
        alen
    } else {
        blen
    };
    let mut low_first: Vec<u8> = Vec::new();
    let mut carry: u8 = 0;
    let mut j: usize = 0;
    proof {
        assert(head_to(a@, alen as int) =~= a@);
        assert(head_to(b@, blen as int) =~= b@);
        assert(dec_add_carry(a@, b@, 0) + Seq::<u8>::empty().reverse() =~= dec_add(a@, b@));
    }
    while j < iter_len
        invariant
            j <= iter_len,
            alen == a@.len(),
            blen == b@.len(),
            iter_len == (if alen > blen {
                alen
            } else {
                blen
            }),
            is_dec_digits(a@),
            is_dec_digits(b@),
            carry <= 1,
            low_first@.len() == j,
            dec_add(a@, b@) == dec_add_carry(
                head_to(a@, alen - j),
                head_to(b@, blen - j),
                carry,
            ) + low_first@.reverse(),
        decreases iter_len - j,
    {
        let x: u8 = if j < alen {
            a[alen - 1 - j]
        } else {
            0
        };
        let y: u8 = if j < blen {
            b[blen - 1 - j]
        } else {
            0
        };
        let sum = x + y + carry;
        proof {
            lemma_head_to_step(a@, alen - j);
            lemma_head_to_step(b@, blen - j);
            let ha = head_to(a@, alen - j);
            let hb = head_to(b@, blen - j);
            assert(last_digit(ha) == x);
            assert(last_digit(hb) == y);
            assert(ha.len() > 0 || hb.len() > 0);
            crate::decimal::lemma_dec_add_step(ha, hb, carry, low_first@);
        }
        low_first.push(sum % 10);
        carry = sum / 10;
        j += 1;
    }
    proof {
        assert(head_to(a@, alen - iter_len) =~= Seq::<u8>::empty());
        assert(head_to(b@, blen - iter_len) =~= Seq::<u8>::empty());
        if carry == 0 {
            assert(dec_add_carry(Seq::<u8>::empty(), Seq::<u8>::empty(), carry)
                + low_first@.reverse() =~= low_first@.reverse());
        } else {
            assert(dec_add_carry(Seq::<u8>::empty(), Seq::<u8>::empty(), carry) =~= seq![carry]);
            assert(low_first@.push(carry).reverse() =~= seq![carry] + low_first@.reverse());
        }
    }
    if carry > 0 {
        low_first.push(carry);
    }
    reversed_vec(&low_first)
}

/// True exactly when `c` is an ASCII whitespace character.
fn ws_char(c: char) -> (b: bool)
    ensures
        b == is_ws_char(c),
{
    c == ' ' || c == '\t' || c == '\n' || c == '\r' || c == '\u{000b}' || c == '\u{000c}'
}

/// The digit value of a decimal digit character.
fn digit_of_char(c: char) -> (d: u8)
    requires
        is_dec_char(c),
    ensures
        d == char_digit(c),
{
    if c == '1' {
        1
    } else if c == '2' {
        2
    } else if c == '3' {
        3
    } else if c == '4' {
        4
    } else if c == '5' {
        5
    } else if c == '6' {
        6
    } else if c == '7' {
        7
    } else if c == '8' {
        8
    } else if c == '9' {
        9
    } else {
        0
    }
}

/// Append the character of a decimal digit value to a string.
fn push_digit_char(s: &mut String, d: u8)
    requires
        d <= 9,
    ensures
        final(s)@ == old(s)@.push(digit_char(d)),
{
    if d == 1 {
        s.append("1");
        proof {
            reveal_strlit("1");
            assert(final(s)@ =~= old(s)@.push('1'));
        }
    } else if d == 2 {
        s.append("2");
        proof {
            reveal_strlit("2");
            assert(final(s)@ =~= old(s)@.push('2'));
        }
    } else if d == 3 {
        s.append("3");
        proof {
            reveal_strlit("3");
            assert(final(s)@ =~= old(s)@.push('3'));
        }
    } else if d == 4 {
        s.append("4");
        proof {
            reveal_strlit("4");
            assert(final(s)@ =~= old(s)@.push('4'));
        }
    } else if d == 5 {
        s.append("5");
        proof {
            reveal_strlit("5");
            assert(final(s)@ =~= old(s)@.push('5'));
        }
    } else if d == 6 {
        s.append("6");
        proof {
            reveal_strlit("6");
            assert(final(s)@ =~= old(s)@.push('6'));
        }
    } else if d == 7 {
        s.append("7");
        proof {
            reveal_strlit("7");
            assert(final(s)@ =~= old(s)@.push('7'));
        }
    } else if d == 8 {
        s.append("8");
        proof {
            reveal_strlit("8");
            assert(final(s)@ =~= old(s)@.push('8'));
        }
    } else if d == 9 {
        s.append("9");
        proof {
            reveal_strlit("9");
            assert(final(s)@ =~= old(s)@.push('9'));
        }
    } else {
        s.append("0");
        proof {
            reveal_strlit("0");
            assert(final(s)@ =~= old(s)@.push('0'));
        }
    }
}

/// Append the character of a binary digit value to a string.
fn push_bit_char(s: &mut String, b: u8)
    requires
        b <= 1,
    ensures
        final(s)@ == old(s)@.push(bit_char(b)),
{
    if b == 0 {
        s.append("0");
        proof {
            reveal_strlit("0");
            assert(final(s)@ =~= old(s)@.push('0'));
        }
    } else {
        s.append("1");
        proof {
            reveal_strlit("1");
            assert(final(s)@ =~= old(s)@.push('1'));
        }
    }
}

} // verus!
