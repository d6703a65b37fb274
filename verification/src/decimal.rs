//! Mathematical model of decimal digit sequences and decimal strings.
//!
//! A decimal number is modelled as a `Seq<u8>` of digit values 0 through 9,
//! most-significant digit first. A canonical sequence has no leading zero
//! digit unless it is the single digit zero, so each value has exactly one
//! canonical form.

use vstd::prelude::*;

verus! {

/// Every element of the sequence is a decimal digit value.
pub open spec fn is_dec_digits(s: Seq<u8>) -> bool {
    forall|i: int| 0 <= i < s.len() ==> s[i] <= 9
}

/// The value denoted by a most-significant-first decimal digit sequence.
pub open spec fn dec_value(s: Seq<u8>) -> nat
    decreases s.len(),
{
    if s.len() == 0 {
        0
    } else {
        10 * dec_value(s.drop_last()) + (s.last() as nat)
    }
}

/// A canonical decimal digit sequence: non-empty, digits only, and no leading
/// zero except for the single digit zero itself.
pub open spec fn is_canonical_dec(s: Seq<u8>) -> bool {
    is_dec_digits(s) && s.len() >= 1 && (s.len() == 1 || s[0] != 0)
}

/// The canonical decimal digit sequence of a value.
pub open spec fn dec_digits_of(n: nat) -> Seq<u8>
    decreases n,
{
    if n < 10 {
        seq![n as u8]
    } else {
        dec_digits_of(n / 10).push((n % 10) as u8)
    }
}

/// Appending a digit at the low end multiplies by ten and adds it.
pub proof fn lemma_dec_value_push(s: Seq<u8>, d: u8)
    ensures
        dec_value(s.push(d)) == 10 * dec_value(s) + d,
{
    assert(s.push(d).drop_last() =~= s);
    assert(s.push(d).last() == d);
}

/// The canonical digits of a value are canonical and denote that value.
pub proof fn lemma_dec_digits_of_value(n: nat)
    ensures
        is_canonical_dec(dec_digits_of(n)),
        dec_value(dec_digits_of(n)) == n,
    decreases n,
{
    if n < 10 {
        let s = seq![n as u8];
        assert(s.drop_last() =~= Seq::<u8>::empty());
        assert(dec_value(Seq::<u8>::empty()) == 0);
        assert(dec_value(s) == n);
        assert(is_dec_digits(s));
    } else {
        lemma_dec_digits_of_value(n / 10);
        lemma_dec_value_push(dec_digits_of(n / 10), (n % 10) as u8);
        assert(10 * (n / 10) + n % 10 == n) by (nonlinear_arith);
        let front = dec_digits_of(n / 10);
        let s = front.push((n % 10) as u8);
        assert(s[0] == front[0]);
        assert(n / 10 >= 1);
        assert(front[0] != 0) by {
            if front.len() == 1 {
                assert(front.drop_last() =~= Seq::<u8>::empty());
                assert(dec_value(Seq::<u8>::empty()) == 0);
                assert(dec_value(front) == front[0]);
            }
        }
        assert(forall|i: int| 0 <= i < s.len() ==> s[i] <= 9) by {
            assert(forall|i: int|
                0 <= i < front.len() ==> #[trigger] s[i] == front[i]);
        }
    }
}

/// A non-empty sequence with a non-zero leading digit denotes at least 1.
pub proof fn lemma_dec_value_pos(s: Seq<u8>)
    requires
        s.len() >= 1,
        s[0] != 0,
    ensures
        dec_value(s) >= 1,
    decreases s.len(),
{
    if s.len() == 1 {
        assert(s.drop_last() =~= Seq::<u8>::empty());
        assert(dec_value(Seq::<u8>::empty()) == 0);
        assert(dec_value(s) == s[0]);
    } else {
        assert(s.drop_last()[0] == s[0]);
        lemma_dec_value_pos(s.drop_last());
    }
}

/// Canonical decimal digit sequences are unique: a canonical sequence is the
/// canonical form of its own value.
pub proof fn lemma_canonical_dec_unique(s: Seq<u8>)
    requires
        is_canonical_dec(s),
    ensures
        dec_digits_of(dec_value(s)) == s,
    decreases s.len(),
{
    if s.len() == 1 {
        assert(s.drop_last() =~= Seq::<u8>::empty());
        assert(dec_value(Seq::<u8>::empty()) == 0);
        assert(dec_value(s) == s[0]);
        assert(dec_digits_of(dec_value(s)) =~= s);
    } else {
        let front = s.drop_last();
        assert(front[0] == s[0]);
        assert(is_dec_digits(front)) by {
            assert(forall|i: int|
                0 <= i < front.len() ==> #[trigger] front[i] == s[i]);
        }
        assert(is_canonical_dec(front));
        lemma_dec_value_pos(front);
        let v = dec_value(s);
        assert(v == 10 * dec_value(front) + s.last());
        assert(v >= 10);
        assert(v / 10 == dec_value(front) && v % 10 == s.last()) by {
            vstd::arithmetic::div_mod::lemma_fundamental_div_mod_converse(
                v as int,
                10,
                dec_value(front) as int,
                s.last() as int,
            );
            assert((dec_value(front) as int) * 10 == 10 * (dec_value(front) as int))
                by (nonlinear_arith);
        }
        lemma_canonical_dec_unique(front);
        assert(dec_digits_of(v) == dec_digits_of(v / 10).push((v % 10) as u8));
        assert(dec_digits_of(v) =~= s);
    }
}

/// A decimal digit sequence denotes zero exactly when all its digits are zero.
pub proof fn lemma_dec_value_zero(s: Seq<u8>)
    ensures
        dec_value(s) == 0 <==> (forall|i: int| 0 <= i < s.len() ==> s[i] == 0),
    decreases s.len(),
{
    if s.len() == 0 {
    } else {
        lemma_dec_value_zero(s.drop_last());
        assert(dec_value(s) == 10 * dec_value(s.drop_last()) + s.last());
        if dec_value(s) == 0 {
            assert(s.last() == 0);
            assert(dec_value(s.drop_last()) == 0);
            assert(forall|i: int|
                0 <= i < s.len() - 1 ==> #[trigger] s[i] == s.drop_last()[i]);
            assert(forall|i: int| 0 <= i < s.len() ==> s[i] == 0);
        } else {
            if forall|i: int| 0 <= i < s.len() ==> s[i] == 0 {
                assert(forall|i: int|
                    0 <= i < s.drop_last().len() ==> #[trigger] s.drop_last()[i] == s[i]);
                assert(dec_value(s.drop_last()) == 0);
                assert(s.last() == 0);
                assert(false);
            }
        }
    }
}

/// Stripping one leading zero digit does not change the value.
pub proof fn lemma_dec_strip_zero(s: Seq<u8>)
    requires
        s.len() >= 1,
        s[0] == 0,
    ensures
        dec_value(s) == dec_value(s.drop_first()),
    decreases s.len(),
{
    if s.len() == 1 {
        assert(s.drop_last() =~= Seq::<u8>::empty());
        assert(s.drop_first() =~= Seq::<u8>::empty());
        assert(dec_value(Seq::<u8>::empty()) == 0);
        assert(dec_value(s) == s[0]);
    } else {
        assert(s.drop_last()[0] == s[0]);
        lemma_dec_strip_zero(s.drop_last());
        assert(s.drop_first().drop_last() =~= s.drop_last().drop_first());
        assert(s.drop_first().last() == s.last());
        assert(dec_value(s.drop_first()) == 10 * dec_value(s.drop_first().drop_last())
            + s.last());
    }
}

/// The last (least-significant) digit, zero-extending past the end.
pub open spec fn last_digit(s: Seq<u8>) -> u8 {
    if s.len() == 0 {
        0
    } else {
        s.last()
    }
}

/// All digits but the last; the empty sequence stays empty.
pub open spec fn front_digits(s: Seq<u8>) -> Seq<u8> {
    if s.len() == 0 {
        s
    } else {
        s.drop_last()
    }
}

pub proof fn lemma_dec_value_last(s: Seq<u8>)
    ensures
        dec_value(s) == 10 * dec_value(front_digits(s)) + (last_digit(s) as nat),
{
    if s.len() == 0 {
        assert(dec_value(s) == 0);
    }
}

/// Schoolbook decimal addition from the least-significant end with a carry
/// in, zero-extending the shorter operand; a final carry appends one more
/// digit at the high end.
pub open spec fn dec_add_carry(a: Seq<u8>, b: Seq<u8>, c: u8) -> Seq<u8>
    decreases a.len() + b.len(),
{
    if a.len() == 0 && b.len() == 0 {
        if c == 0 {
            Seq::empty()
        } else {
            seq![c]
        }
    } else {
        let t = last_digit(a) + last_digit(b) + c;
        dec_add_carry(front_digits(a), front_digits(b), (t / 10) as u8).push((t % 10) as u8)
    }
}

/// Decimal addition of two most-significant-first digit sequences.
pub open spec fn dec_add(a: Seq<u8>, b: Seq<u8>) -> Seq<u8> {
    dec_add_carry(a, b, 0)
}

/// The first `n` digits; everything once `n` passes the end, nothing for
/// `n` at or below zero.
pub open spec fn head_to(s: Seq<u8>, n: int) -> Seq<u8> {
    if n <= 0 {
        Seq::empty()
    } else if n >= s.len() {
        s
    } else {
        s.take(n)
    }
}

/// Peeling one position off a head: the last digit is the digit at `n - 1`
/// and the front is the head up to `n - 1`.
pub proof fn lemma_head_to_step(s: Seq<u8>, n: int)
    requires
        n <= s.len(),
    ensures
        last_digit(head_to(s, n)) == (if n >= 1 {
            s[n - 1]
        } else {
            0
        }),
        front_digits(head_to(s, n)) == head_to(s, n - 1),
        head_to(s, n).len() == (if n >= 0 {
            n
        } else {
            0
        }),
{
    if n <= 0 {
        assert(head_to(s, n - 1) =~= Seq::<u8>::empty());
    } else {
        assert(head_to(s, n) =~= s.take(n));
        assert(s.take(n).last() == s[n - 1]);
        assert(s.take(n).drop_last() =~= s.take(n - 1));
        assert(head_to(s, n - 1) =~= s.take(n - 1));
    }
}

/// Decimal addition is correct and yields decimal digits.
pub proof fn lemma_dec_add_carry_value(a: Seq<u8>, b: Seq<u8>, c: u8)
    requires
        is_dec_digits(a),
        is_dec_digits(b),
        c <= 1,
    ensures
        is_dec_digits(dec_add_carry(a, b, c)),
        dec_value(dec_add_carry(a, b, c)) == dec_value(a) + dec_value(b) + c,
    decreases a.len() + b.len(),
{
    if a.len() == 0 && b.len() == 0 {
        assert(dec_value(a) == 0);
        assert(dec_value(b) == 0);
        if c == 0 {
            assert(dec_value(Seq::<u8>::empty()) == 0);
        } else {
            assert(seq![c].drop_last() =~= Seq::<u8>::empty());
            assert(dec_value(Seq::<u8>::empty()) == 0);
            assert(dec_value(seq![c]) == c as nat);
            assert(is_dec_digits(seq![c]));
        }
    } else {
        let t = last_digit(a) + last_digit(b) + c;
        assert(is_dec_digits(front_digits(a)));
        assert(is_dec_digits(front_digits(b)));
        assert(t <= 19);
        lemma_dec_add_carry_value(front_digits(a), front_digits(b), (t / 10) as u8);
        let rest = dec_add_carry(front_digits(a), front_digits(b), (t / 10) as u8);
        assert(dec_add_carry(a, b, c) == rest.push((t % 10) as u8));
        lemma_dec_value_push(rest, (t % 10) as u8);
        lemma_dec_value_last(a);
        lemma_dec_value_last(b);
        assert(10 * ((t / 10) as nat) + ((t % 10) as nat) == t);
        assert(is_dec_digits(rest.push((t % 10) as u8))) by {
            assert(forall|i: int|
                0 <= i < rest.len() ==> #[trigger] rest.push((t % 10) as u8)[i] == rest[i]);
        }
    }
}

/// One step of the decimal sweep, seen from the low end: the next output
/// digit moves from the pending sum onto the collected low-first tail.
pub proof fn lemma_dec_add_step(ha: Seq<u8>, hb: Seq<u8>, c: u8, low: Seq<u8>)
    requires
        ha.len() > 0 || hb.len() > 0,
    ensures
        dec_add_carry(ha, hb, c) + low.reverse() == dec_add_carry(
            front_digits(ha),
            front_digits(hb),
            ((last_digit(ha) + last_digit(hb) + c) / 10) as u8,
        ) + low.push(((last_digit(ha) + last_digit(hb) + c) % 10) as u8).reverse(),
{
    let t = last_digit(ha) + last_digit(hb) + c;
    let d = (t % 10) as u8;
    let rest = dec_add_carry(front_digits(ha), front_digits(hb), (t / 10) as u8);
    assert(dec_add_carry(ha, hb, c) == rest.push(d));
    assert(rest.push(d) + low.reverse() =~= rest + low.push(d).reverse());
}

/// The order of the operands does not matter.
pub proof fn lemma_dec_add_carry_comm(a: Seq<u8>, b: Seq<u8>, c: u8)
    ensures
        dec_add_carry(a, b, c) == dec_add_carry(b, a, c),
    decreases a.len() + b.len(),
{
    if a.len() == 0 && b.len() == 0 {
    } else {
        let t = last_digit(a) + last_digit(b) + c;
        lemma_dec_add_carry_comm(front_digits(a), front_digits(b), (t / 10) as u8);
    }
}

/// When the longer operand has a non-zero leading digit, so does the sum.
pub proof fn lemma_dec_add_carry_lead(a: Seq<u8>, b: Seq<u8>, c: u8)
    requires
        is_dec_digits(a),
        is_dec_digits(b),
        c <= 1,
        b.len() <= a.len(),
        a.len() >= 1,
        a[0] != 0,
    ensures
        dec_add_carry(a, b, c).len() >= 1,
        dec_add_carry(a, b, c)[0] != 0,
    decreases a.len() + b.len(),
{
    let t = last_digit(a) + last_digit(b) + c;
    let rest = dec_add_carry(front_digits(a), front_digits(b), (t / 10) as u8);
    assert(dec_add_carry(a, b, c) == rest.push((t % 10) as u8));
    if a.len() == 1 {
        assert(front_digits(a).len() == 0);
        assert(front_digits(b).len() == 0);
        assert(a.last() == a[0]);
        assert(t >= 1);
        if t <= 9 {
            assert(rest =~= Seq::<u8>::empty());
            assert(rest.push((t % 10) as u8)[0] == (t % 10) as u8);
            assert(t % 10 == t);
        } else {
            assert(rest =~= seq![(t / 10) as u8]);
            assert(rest.push((t % 10) as u8)[0] == (t / 10) as u8);
            assert(t / 10 >= 1);
        }
    } else {
        let fa = front_digits(a);
        let fb = front_digits(b);
        assert(fa[0] == a[0]);
        assert(is_dec_digits(fa));
        assert(is_dec_digits(fb));
        assert(fb.len() <= fa.len());
        lemma_dec_add_carry_lead(fa, fb, (t / 10) as u8);
        assert(rest.push((t % 10) as u8)[0] == rest[0]);
    }
}

/// The sum of two canonical decimal digit sequences is canonical.
pub proof fn lemma_dec_add_canonical(a: Seq<u8>, b: Seq<u8>)
    requires
        is_canonical_dec(a),
        is_canonical_dec(b),
    ensures
        is_canonical_dec(dec_add(a, b)),
{
    lemma_dec_add_carry_value(a, b, 0);
    if a.len() >= b.len() {
        lemma_dec_add_canonical_ordered(a, b);
    } else {
        lemma_dec_add_carry_comm(a, b, 0);
        lemma_dec_add_canonical_ordered(b, a);
    }
}

proof fn lemma_dec_add_canonical_ordered(a: Seq<u8>, b: Seq<u8>)
    requires
        is_canonical_dec(a),
        is_canonical_dec(b),
        b.len() <= a.len(),
    ensures
        is_canonical_dec(dec_add(a, b)),
{
    lemma_dec_add_carry_value(a, b, 0);
    if a[0] != 0 {
        lemma_dec_add_carry_lead(a, b, 0);
    } else {
        assert(a.len() == 1);
        assert(b.len() == 1);
        assert(a.last() == a[0]);
        assert(b.last() == b[0]);
        let t = last_digit(a) + last_digit(b) + 0;
        assert(t <= 9);
        let rest = dec_add_carry(front_digits(a), front_digits(b), (t / 10) as u8);
        assert(front_digits(a).len() == 0);
        assert(front_digits(b).len() == 0);
        assert(t / 10 == 0);
        assert(rest =~= Seq::<u8>::empty());
        assert(dec_add(a, b) == rest.push((t % 10) as u8));
        assert(dec_add(a, b).len() == 1);
    }
}

} // verus!
