//! General laws of the engine, stated over the models that the public
//! contracts use and proved once for every input.

use vstd::prelude::*;

verus! {

use crate::binary::{
    is_bits, bits_value, add_bits, sub_bits, and_bits, or_bits, xor_bits, not_bits, shl_bits,
    shr_bits, lemma_add_carry_value, lemma_add_carry_props, lemma_add_carry_comm,
    lemma_sub_borrow_value, lemma_bits_value_zero,
};
use crate::decimal::{dec_value, dec_digits_of, is_dec_digits, lemma_canonical_dec_unique};
use crate::text::{
    is_dec_char, char_digit, digit_char, digits_of_chars, chars_of_digits, trim_chars,
    lemma_dec_char_props,
};

/// Round trip: a decimal string without surrounding whitespace and without a
/// leading zero (other than "0" itself) parses to a value whose canonical
/// rendering is the same string again, so converting a number obtained from
/// such a string back to decimal reproduces it exactly.
pub proof fn lemma_decimal_round_trip(s: Seq<char>)
    requires
        s.len() >= 1,
        forall|i: int| 0 <= i < s.len() ==> is_dec_char(#[trigger] s[i]),
        s.len() == 1 || s[0] != '0',
    ensures
        trim_chars(s) == s,
        chars_of_digits(dec_digits_of(dec_value(digits_of_chars(trim_chars(s))))) == s,
{
    assert(!crate::text::is_ws_char(s[0])) by {
        lemma_dec_char_props(s[0]);
    }
    assert(!crate::text::is_ws_char(s.last())) by {
        lemma_dec_char_props(s.last());
    }
    assert(trim_chars(s) == s);
    let d = digits_of_chars(s);
    assert(d.len() == s.len());
    assert(is_dec_digits(d)) by {
        assert forall|i: int| 0 <= i < d.len() implies #[trigger] d[i] <= 9 by {
            lemma_dec_char_props(s[i]);
        }
    }
    if s.len() > 1 {
        assert(d[0] == char_digit(s[0]));
        assert(d[0] != 0);
    }
    lemma_canonical_dec_unique(d);
    assert(chars_of_digits(d) =~= s) by {
        assert forall|i: int| 0 <= i < s.len() implies chars_of_digits(d)[i] == s[i] by {
            lemma_dec_char_props(s[i]);
        }
    }
}

/// Addition is commutative: the two orders give the very same digits.
pub proof fn lemma_add_commutes(a: Seq<u8>, b: Seq<u8>)
    ensures
        add_bits(a, b) == add_bits(b, a),
{
    lemma_add_carry_comm(a, b, 0);
}

/// A zero-valued number is an additive identity: adding it changes nothing
/// of the value, hence nothing of the decimal rendering.
pub proof fn lemma_add_zero(a: Seq<u8>, z: Seq<u8>)
    requires
        is_bits(a),
        is_bits(z),
        bits_value(z) == 0,
    ensures
        bits_value(add_bits(a, z)) == bits_value(a),
{
    lemma_add_carry_value(a, z, 0);
}

/// Subtraction inverts addition: taking one addend away from a sum leaves
/// the other addend's value.
pub proof fn lemma_sub_of_add(a: Seq<u8>, b: Seq<u8>)
    requires
        is_bits(a),
        is_bits(b),
    ensures
        bits_value(sub_bits(add_bits(a, b), b)) == bits_value(a),
{
    lemma_add_carry_value(a, b, 0);
    lemma_add_carry_props(a, b, 0);
    lemma_sub_borrow_value(add_bits(a, b), b, 0);
}

/// Multiplying by a zero-valued number renders as "0", and multiplying by a
/// one-valued number leaves the decimal rendering unchanged.
pub proof fn lemma_mul_zero_one(a: Seq<u8>, z: Seq<u8>, o: Seq<u8>)
    requires
        bits_value(z) == 0,
        bits_value(o) == 1,
    ensures
        chars_of_digits(dec_digits_of(bits_value(a) * bits_value(z))) == seq!['0'],
        dec_digits_of(bits_value(a) * bits_value(o)) == dec_digits_of(bits_value(a)),
{
    assert(bits_value(a) * bits_value(z) == 0) by (nonlinear_arith)
        requires
            bits_value(z) == 0,
    ;
    assert(bits_value(a) * bits_value(o) == bits_value(a)) by (nonlinear_arith)
        requires
            bits_value(o) == 1,
    ;
    assert(dec_digits_of(0) == seq![0u8]);
    assert(chars_of_digits(seq![0u8]) =~= seq!['0']);
    assert(digit_char(0) == '0');
}

/// Complement is an involution: flipping every digit twice gives back the
/// very same digits.
pub proof fn lemma_not_involution(s: Seq<u8>)
    requires
        is_bits(s),
    ensures
        not_bits(not_bits(s)) == s,
{
    assert(not_bits(not_bits(s)) =~= s);
}

/// A number and-ed with itself keeps its digits.
pub proof fn lemma_and_self(s: Seq<u8>)
    requires
        is_bits(s),
    ensures
        and_bits(s, s) == s,
{
    assert(and_bits(s, s) =~= s);
}

/// A number or-ed with itself keeps its digits.
pub proof fn lemma_or_self(s: Seq<u8>)
    requires
        is_bits(s),
    ensures
        or_bits(s, s) == s,
{
    assert(or_bits(s, s) =~= s);
}

/// A number xor-ed with itself denotes zero.
pub proof fn lemma_xor_self(s: Seq<u8>)
    ensures
        bits_value(xor_bits(s, s)) == 0,
{
    assert(is_bits(xor_bits(s, s)));
    lemma_bits_value_zero(xor_bits(s, s));
}

/// Shifting left and then right by the same count gives back the very same
/// digits; the opposite order truncates and in general does not.
pub proof fn lemma_shr_of_shl(s: Seq<u8>, n: nat)
    requires
        s.len() >= 1,
    ensures
        shr_bits(shl_bits(s, n), n) == s,
{
    assert(shl_bits(s, n).len() == s.len() + n);
    assert(shl_bits(s, n).skip(n as int) =~= s);
}

} // verus!
