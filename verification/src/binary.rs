//! Mathematical model of binary digit sequences.
//!
//! A number is modelled as a `Seq<u8>` of digits, each 0 or 1, with index 0
//! holding the least-significant bit. Sequences are not normalized: trailing
//! high-order zero digits are allowed, so two sequences of different length
//! can denote the same value.

use vstd::prelude::*;

verus! {

/// Every element of the sequence is the bit 0 or 1.
pub open spec fn is_bits(s: Seq<u8>) -> bool {
    forall|i: int| 0 <= i < s.len() ==> s[i] == 0 || s[i] == 1
}

/// 2 to the power `n`.
pub open spec fn pow2(n: nat) -> nat
    decreases n,
{
    if n == 0 {
        1
    } else {
        2 * pow2((n - 1) as nat)
    }
}

/// The value denoted by a least-significant-first binary digit sequence.
pub open spec fn bits_value(s: Seq<u8>) -> nat
    decreases s.len(),
{
    if s.len() == 0 {
        0
    } else {
        (s[0] as nat) + 2 * bits_value(s.drop_first())
    }
}

pub proof fn lemma_pow2_pos(n: nat)
    ensures
        pow2(n) >= 1,
    decreases n,
{
    if n > 0 {
        lemma_pow2_pos((n - 1) as nat);
    }
}

pub proof fn lemma_pow2_adds(m: nat, n: nat)
    ensures
        pow2(m + n) == pow2(m) * pow2(n),
    decreases m,
{
    if m == 0 {
        assert(m + n == n);
        assert(pow2(m) == 1);
        assert(pow2(m) * pow2(n) == pow2(n));
    } else {
        lemma_pow2_adds((m - 1) as nat, n);
        assert((m + n - 1) as nat == (m - 1) as nat + n);
        assert(pow2(m + n) == 2 * pow2((m - 1) as nat + n));
        assert(pow2(m) == 2 * pow2((m - 1) as nat));
        assert(pow2(m + n) == 2 * (pow2((m - 1) as nat) * pow2(n)));
        assert(2 * (pow2((m - 1) as nat) * pow2(n)) == (2 * pow2((m - 1) as nat)) * pow2(n))
            by (nonlinear_arith);
        assert(pow2(m + n) == (2 * pow2((m - 1) as nat)) * pow2(n));
        assert(pow2(m + n) == pow2(m) * pow2(n));
    }
}

/// Appending a digit at the high end adds its weighted value.
pub proof fn lemma_bits_value_push(s: Seq<u8>, b: u8)
    ensures
        bits_value(s.push(b)) == bits_value(s) + (b as nat) * pow2(s.len()),
    decreases s.len(),
{
    if s.len() == 0 {
        assert(s.push(b).drop_first() =~= Seq::<u8>::empty());
        assert(s.push(b)[0] == b);
        assert(bits_value(Seq::<u8>::empty()) == 0);
        assert(bits_value(s.push(b)) == b as nat);
        assert(pow2(s.len()) == 1);
        assert((b as nat) * pow2(s.len()) == b as nat) by (nonlinear_arith)
            requires
                pow2(s.len()) == 1,
        ;
    } else {
        assert(s.push(b).drop_first() =~= s.drop_first().push(b));
        lemma_bits_value_push(s.drop_first(), b);
        assert(s.push(b)[0] == s[0]);
        assert(bits_value(s.push(b)) == (s[0] as nat) + 2 * bits_value(s.drop_first().push(b)));
        assert(pow2(s.len()) == 2 * pow2((s.len() - 1) as nat));
        assert((b as nat) * pow2(s.len()) == 2 * ((b as nat) * pow2((s.len() - 1) as nat)))
            by (nonlinear_arith)
            requires
                pow2(s.len()) == 2 * pow2((s.len() - 1) as nat),
        ;
        assert(bits_value(s.push(b)) == (s[0] as nat) + 2 * bits_value(s.drop_first()) + 2 * ((
        b as nat) * pow2((s.len() - 1) as nat)));
        assert(bits_value(s) == (s[0] as nat) + 2 * bits_value(s.drop_first()));
    }
}

/// A sequence of `len` bits denotes a value below 2^len.
pub proof fn lemma_bits_value_bound(s: Seq<u8>)
    requires
        is_bits(s),
    ensures
        bits_value(s) < pow2(s.len()),
    decreases s.len(),
{
    if s.len() == 0 {
    } else {
        assert(is_bits(s.drop_first()));
        lemma_bits_value_bound(s.drop_first());
    }
}

/// An all-zero sequence denotes zero, and conversely for bit sequences.
pub proof fn lemma_bits_value_zero(s: Seq<u8>)
    requires
        is_bits(s),
    ensures
        bits_value(s) == 0 <==> (forall|i: int| 0 <= i < s.len() ==> s[i] == 0),
    decreases s.len(),
{
    if s.len() == 0 {
    } else {
        assert(is_bits(s.drop_first()));
        lemma_bits_value_zero(s.drop_first());
        assert(bits_value(s) == (s[0] as nat) + 2 * bits_value(s.drop_first()));
        if bits_value(s) == 0 {
            assert(s[0] == 0);
            assert(bits_value(s.drop_first()) == 0);
            assert(forall|i: int| 1 <= i < s.len() ==> #[trigger] s[i] == s.drop_first()[i - 1]);
            assert(forall|i: int| 0 <= i < s.len() ==> s[i] == 0);
        } else {
            if forall|i: int| 0 <= i < s.len() ==> s[i] == 0 {
                assert(forall|i: int|
                    0 <= i < s.drop_first().len() ==> #[trigger] s.drop_first()[i] == s[i + 1]);
                assert(bits_value(s.drop_first()) == 0);
                assert(s[0] == 0);
                assert(false);
            }
        }
    }
}

/// The value of a sequence splits at any position `n`: the low `n` digits
/// plus 2^n times the rest.
pub proof fn lemma_bits_value_split(s: Seq<u8>, n: int)
    requires
        0 <= n <= s.len(),
    ensures
        bits_value(s) == bits_value(s.take(n)) + pow2(n as nat) * bits_value(s.skip(n)),
    decreases n,
{
    if n == 0 {
        assert(s.take(0) =~= Seq::<u8>::empty());
        assert(s.skip(0) =~= s);
        assert(bits_value(Seq::<u8>::empty()) == 0);
        assert(pow2(0) == 1);
        assert(pow2(0) * bits_value(s) == bits_value(s)) by (nonlinear_arith)
            requires
                pow2(0) == 1,
        ;
    } else {
        assert(s.len() > 0);
        lemma_bits_value_split(s.drop_first(), n - 1);
        assert(s.take(n).drop_first() =~= s.drop_first().take(n - 1));
        assert(s.take(n)[0] == s[0]);
        assert(s.skip(n) =~= s.drop_first().skip(n - 1));
        assert(bits_value(s.take(n)) == (s[0] as nat) + 2 * bits_value(s.drop_first().take(n - 1)));
        assert(bits_value(s) == (s[0] as nat) + 2 * bits_value(s.drop_first()));
        assert(pow2(n as nat) == 2 * pow2((n - 1) as nat));
        assert(pow2(n as nat) * bits_value(s.skip(n)) == 2 * (pow2((n - 1) as nat) * bits_value(
            s.drop_first().skip(n - 1),
        ))) by (nonlinear_arith)
            requires
                pow2(n as nat) == 2 * pow2((n - 1) as nat),
                s.skip(n) == s.drop_first().skip(n - 1),
        ;
        assert(bits_value(s.drop_first()) == bits_value(s.drop_first().take(n - 1)) + pow2(
            (n - 1) as nat,
        ) * bits_value(s.drop_first().skip(n - 1)));
    }
}

/// The first digit of a sequence, zero-extending past the end.
pub open spec fn first_bit(s: Seq<u8>) -> u8 {
    if s.len() == 0 {
        0
    } else {
        s[0]
    }
}

/// All digits but the first; the empty sequence stays empty.
pub open spec fn rest_bits(s: Seq<u8>) -> Seq<u8> {
    if s.len() == 0 {
        s
    } else {
        s.drop_first()
    }
}

pub proof fn lemma_bits_value_head(s: Seq<u8>)
    ensures
        bits_value(s) == (first_bit(s) as nat) + 2 * bits_value(rest_bits(s)),
{
    if s.len() == 0 {
        assert(bits_value(s) == 0);
    }
}

/// Ripple-carry addition of two least-significant-first digit sequences with
/// a carry in, zero-extending the shorter operand; a final carry appends one
/// more digit.
pub open spec fn add_carry(a: Seq<u8>, b: Seq<u8>, c: u8) -> Seq<u8>
    decreases a.len() + b.len(),
{
    if a.len() == 0 && b.len() == 0 {
        if c == 0 {
            Seq::empty()
        } else {
            seq![c]
        }
    } else {
        let t = first_bit(a) + first_bit(b) + c;
        seq![(t % 2) as u8] + add_carry(rest_bits(a), rest_bits(b), (t / 2) as u8)
    }
}

/// Binary ripple-carry addition.
pub open spec fn add_bits(a: Seq<u8>, b: Seq<u8>) -> Seq<u8> {
    add_carry(a, b, 0)
}

/// The longer of the two lengths.
pub open spec fn max_len(a: Seq<u8>, b: Seq<u8>) -> nat {
    if a.len() >= b.len() {
        a.len()
    } else {
        b.len()
    }
}

/// Addition is correct: the result denotes the sum of the operands and the
/// carry in.
pub proof fn lemma_add_carry_value(a: Seq<u8>, b: Seq<u8>, c: u8)
    requires
        is_bits(a),
        is_bits(b),
        c <= 1,
    ensures
        bits_value(add_carry(a, b, c)) == bits_value(a) + bits_value(b) + c,
    decreases a.len() + b.len(),
{
    if a.len() == 0 && b.len() == 0 {
        assert(bits_value(a) == 0);
        assert(bits_value(b) == 0);
        if c == 0 {
            assert(bits_value(Seq::<u8>::empty()) == 0);
        } else {
            assert(seq![c].drop_first() =~= Seq::<u8>::empty());
            assert(bits_value(Seq::<u8>::empty()) == 0);
            assert(bits_value(seq![c]) == c as nat);
        }
    } else {
        let t = first_bit(a) + first_bit(b) + c;
        let d = (t % 2) as u8;
        let c2 = (t / 2) as u8;
        assert(is_bits(rest_bits(a)));
        assert(is_bits(rest_bits(b)));
        lemma_add_carry_value(rest_bits(a), rest_bits(b), c2);
        let rest = add_carry(rest_bits(a), rest_bits(b), c2);
        assert(add_carry(a, b, c) == seq![d] + rest);
        assert((seq![d] + rest)[0] == d);
        assert((seq![d] + rest).drop_first() =~= rest);
        assert(bits_value(seq![d] + rest) == (d as nat) + 2 * bits_value(rest));
        lemma_bits_value_head(a);
        lemma_bits_value_head(b);
        assert((d as nat) + 2 * ((c2 as nat)) == t);
    }
}

/// Addition yields binary digits and at most one digit more than the longer
/// operand.
pub proof fn lemma_add_carry_props(a: Seq<u8>, b: Seq<u8>, c: u8)
    requires
        is_bits(a),
        is_bits(b),
        c <= 1,
    ensures
        is_bits(add_carry(a, b, c)),
        max_len(a, b) <= add_carry(a, b, c).len() <= max_len(a, b) + 1,
    decreases a.len() + b.len(),
{
    if a.len() == 0 && b.len() == 0 {
        if c == 0 {
        } else {
            assert(is_bits(seq![c]));
        }
    } else {
        let t = first_bit(a) + first_bit(b) + c;
        let d = (t % 2) as u8;
        let c2 = (t / 2) as u8;
        assert(is_bits(rest_bits(a)));
        assert(is_bits(rest_bits(b)));
        lemma_add_carry_props(rest_bits(a), rest_bits(b), c2);
        let rest = add_carry(rest_bits(a), rest_bits(b), c2);
        assert(add_carry(a, b, c) == seq![d] + rest);
        assert(is_bits(seq![d] + rest));
        assert(max_len(rest_bits(a), rest_bits(b)) == max_len(a, b) - 1);
    }
}

/// Borrow-propagating subtraction of two least-significant-first digit
/// sequences, zero-extending the shorter operand; the result keeps the
/// longer operand's length.
pub open spec fn sub_borrow(a: Seq<u8>, b: Seq<u8>, brw: u8) -> Seq<u8>
    decreases a.len() + b.len(),
{
    if a.len() == 0 && b.len() == 0 {
        Seq::empty()
    } else {
        let d = first_bit(a) - first_bit(b) - brw;
        let bit: u8 = if d < 0 {
            (d + 2) as u8
        } else {
            d as u8
        };
        let nb: u8 = if d < 0 {
            1
        } else {
            0
        };
        seq![bit] + sub_borrow(rest_bits(a), rest_bits(b), nb)
    }
}

/// Binary borrow-propagating subtraction.
pub open spec fn sub_bits(a: Seq<u8>, b: Seq<u8>) -> Seq<u8> {
    sub_borrow(a, b, 0)
}

/// Subtraction yields binary digits and exactly the longer operand's length.
pub proof fn lemma_sub_borrow_props(a: Seq<u8>, b: Seq<u8>, brw: u8)
    requires
        is_bits(a),
        is_bits(b),
        brw <= 1,
    ensures
        is_bits(sub_borrow(a, b, brw)),
        sub_borrow(a, b, brw).len() == max_len(a, b),
    decreases a.len() + b.len(),
{
    if a.len() == 0 && b.len() == 0 {
    } else {
        let d = first_bit(a) - first_bit(b) - brw;
        let bit: u8 = if d < 0 {
            (d + 2) as u8
        } else {
            d as u8
        };
        let nb: u8 = if d < 0 {
            1
        } else {
            0
        };
        assert(is_bits(rest_bits(a)));
        assert(is_bits(rest_bits(b)));
        lemma_sub_borrow_props(rest_bits(a), rest_bits(b), nb);
        let rest = sub_borrow(rest_bits(a), rest_bits(b), nb);
        assert(sub_borrow(a, b, brw) == seq![bit] + rest);
        assert(bit <= 1);
        assert(is_bits(seq![bit] + rest));
        assert(max_len(rest_bits(a), rest_bits(b)) == max_len(a, b) - 1);
    }
}

/// Subtraction is correct when no underflow occurs: the result denotes the
/// difference.
pub proof fn lemma_sub_borrow_value(a: Seq<u8>, b: Seq<u8>, brw: u8)
    requires
        is_bits(a),
        is_bits(b),
        brw <= 1,
        bits_value(a) >= bits_value(b) + brw,
    ensures
        bits_value(sub_borrow(a, b, brw)) == bits_value(a) - bits_value(b) - brw,
    decreases a.len() + b.len(),
{
    if a.len() == 0 && b.len() == 0 {
        assert(bits_value(a) == 0);
        assert(bits_value(b) == 0);
        assert(bits_value(Seq::<u8>::empty()) == 0);
    } else {
        let d = first_bit(a) - first_bit(b) - brw;
        let bit: u8 = if d < 0 {
            (d + 2) as u8
        } else {
            d as u8
        };
        let nb: u8 = if d < 0 {
            1
        } else {
            0
        };
        assert(is_bits(rest_bits(a)));
        assert(is_bits(rest_bits(b)));
        lemma_bits_value_head(a);
        lemma_bits_value_head(b);
        assert(bits_value(rest_bits(a)) >= bits_value(rest_bits(b)) + nb);
        lemma_sub_borrow_value(rest_bits(a), rest_bits(b), nb);
        let rest = sub_borrow(rest_bits(a), rest_bits(b), nb);
        assert(sub_borrow(a, b, brw) == seq![bit] + rest);
        assert((seq![bit] + rest)[0] == bit);
        assert((seq![bit] + rest).drop_first() =~= rest);
        assert(bits_value(seq![bit] + rest) == (bit as nat) + 2 * bits_value(rest));
    }
}

/// The order of the operands does not matter.
pub proof fn lemma_add_carry_comm(a: Seq<u8>, b: Seq<u8>, c: u8)
    ensures
        add_carry(a, b, c) == add_carry(b, a, c),
    decreases a.len() + b.len(),
{
    if a.len() == 0 && b.len() == 0 {
    } else {
        lemma_add_carry_comm(rest_bits(a), rest_bits(b), c);
        let t = first_bit(a) + first_bit(b) + c;
        lemma_add_carry_comm(rest_bits(a), rest_bits(b), (t / 2) as u8);
    }
}

/// The digits from position `n` on; empty once `n` passes the end.
pub open spec fn tail_from(s: Seq<u8>, n: int) -> Seq<u8> {
    if 0 <= n <= s.len() {
        s.skip(n)
    } else {
        Seq::empty()
    }
}

/// Peeling one position off a tail: the head digit is the digit at `n` and
/// the rest is the tail from `n + 1`.
pub proof fn lemma_tail_from_step(s: Seq<u8>, n: int)
    requires
        0 <= n,
    ensures
        first_bit(tail_from(s, n)) == bit_at(s, n),
        rest_bits(tail_from(s, n)) == tail_from(s, n + 1),
        tail_from(s, n).len() == (if n <= s.len() { s.len() - n } else { 0 }),
{
    if n < s.len() {
        assert(tail_from(s, n)[0] == s[n]);
        assert(s.skip(n).drop_first() =~= s.skip(n + 1));
    } else {
        assert(tail_from(s, n) =~= Seq::<u8>::empty());
        assert(tail_from(s, n + 1) =~= Seq::<u8>::empty());
    }
}

/// The digit at position `i`, zero-extending past either end.
pub open spec fn bit_at(s: Seq<u8>, i: int) -> u8 {
    if 0 <= i < s.len() {
        s[i]
    } else {
        0
    }
}

/// Position-wise conjunction over the longer operand's length.
pub open spec fn and_bits(a: Seq<u8>, b: Seq<u8>) -> Seq<u8> {
    Seq::new(
        max_len(a, b),
        |i: int|
            if bit_at(a, i) == 1 && bit_at(b, i) == 1 {
                1u8
            } else {
                0u8
            },
    )
}

/// Position-wise disjunction over the longer operand's length.
pub open spec fn or_bits(a: Seq<u8>, b: Seq<u8>) -> Seq<u8> {
    Seq::new(
        max_len(a, b),
        |i: int|
            if bit_at(a, i) == 1 || bit_at(b, i) == 1 {
                1u8
            } else {
                0u8
            },
    )
}

/// Position-wise exclusive disjunction over the longer operand's length.
pub open spec fn xor_bits(a: Seq<u8>, b: Seq<u8>) -> Seq<u8> {
    Seq::new(
        max_len(a, b),
        |i: int|
            if bit_at(a, i) != bit_at(b, i) {
                1u8
            } else {
                0u8
            },
    )
}

/// Per-digit complement over the operand's own length; no two's-complement
/// semantics.
pub open spec fn not_bits(s: Seq<u8>) -> Seq<u8> {
    Seq::new(
        s.len(),
        |i: int|
            if s[i] == 0 {
                1u8
            } else {
                0u8
            },
    )
}

/// `n` zero digits.
pub open spec fn zero_bits(n: nat) -> Seq<u8> {
    Seq::new(n, |i: int| 0u8)
}

/// Left shift: `n` zero digits prepended at the least-significant end.
pub open spec fn shl_bits(s: Seq<u8>, n: nat) -> Seq<u8> {
    zero_bits(n) + s
}

/// Right shift: the `n` least-significant digits dropped; shifting everything
/// out leaves the single-digit zero value.
pub open spec fn shr_bits(s: Seq<u8>, n: nat) -> Seq<u8> {
    if n >= s.len() {
        seq![0u8]
    } else {
        s.skip(n as int)
    }
}

/// A left shift multiplies the value by 2^n.
pub proof fn lemma_shl_value(s: Seq<u8>, n: nat)
    ensures
        bits_value(shl_bits(s, n)) == pow2(n) * bits_value(s),
{
    let w = zero_bits(n) + s;
    lemma_bits_value_split(w, n as int);
    assert(w.take(n as int) =~= zero_bits(n));
    assert(w.skip(n as int) =~= s);
    assert(is_bits(zero_bits(n)));
    lemma_bits_value_zero(zero_bits(n));
    assert(bits_value(zero_bits(n)) == 0);
}

pub proof fn lemma_pow2_increases(m: nat, n: nat)
    requires
        m <= n,
    ensures
        pow2(m) <= pow2(n),
{
    lemma_pow2_adds(m, (n - m) as nat);
    lemma_pow2_pos((n - m) as nat);
    lemma_pow2_pos(m);
    assert(pow2(m) * pow2((n - m) as nat) >= pow2(m) * 1) by (nonlinear_arith)
        requires
            pow2((n - m) as nat) >= 1,
            pow2(m) >= 1,
    ;
}

/// A right shift divides the value by 2^n, rounding down.
pub proof fn lemma_shr_value(s: Seq<u8>, n: nat)
    requires
        is_bits(s),
    ensures
        bits_value(shr_bits(s, n)) == (bits_value(s) as int) / (pow2(n) as int),
{
    lemma_pow2_pos(n);
    if n >= s.len() {
        lemma_bits_value_bound(s);
        lemma_pow2_increases(s.len(), n);
        assert(seq![0u8].drop_first() =~= Seq::<u8>::empty());
        assert(bits_value(Seq::<u8>::empty()) == 0);
        assert(bits_value(seq![0u8]) == 0);
        assert((bits_value(s) as int) / (pow2(n) as int) == 0) by (nonlinear_arith)
            requires
                0 <= bits_value(s) < pow2(n),
        ;
    } else {
        lemma_bits_value_split(s, n as int);
        assert(is_bits(s.take(n as int)));
        lemma_bits_value_bound(s.take(n as int));
        assert(s.take(n as int).len() == n);
        assert((bits_value(s.skip(n as int)) as int) * (pow2(n) as int) == (pow2(n) as int) * (
        bits_value(s.skip(n as int)) as int)) by (nonlinear_arith);
        vstd::arithmetic::div_mod::lemma_fundamental_div_mod_converse(
            bits_value(s) as int,
            pow2(n) as int,
            bits_value(s.skip(n as int)) as int,
            bits_value(s.take(n as int)) as int,
        );
    }
}

} // verus!
