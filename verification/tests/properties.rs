use bignumber::BigNumber;

#[test]
fn round_trip_simple() {
    assert_eq!(BigNumber::from_dec("0").to_dec(), "0");
    assert_eq!(BigNumber::from_dec("1").to_dec(), "1");
    assert_eq!(BigNumber::from_dec("9").to_dec(), "9");
    assert_eq!(BigNumber::from_dec("123456789").to_dec(), "123456789");
    assert_eq!(BigNumber::from_dec("18446744073709551616").to_dec(), "18446744073709551616");
}

#[test]
fn round_trip_normalizes() {
    assert_eq!(BigNumber::from_dec("007").to_dec(), "7");
    assert_eq!(BigNumber::from_dec("000").to_dec(), "0");
}

#[test]
fn from_dec_trims_whitespace() {
    assert_eq!(BigNumber::from_dec(" 10 ").to_dec(), "10");
    assert_eq!(BigNumber::from_dec("\t42\n").to_dec(), "42");
    assert_eq!(BigNumber::from_dec("  987654321").to_bits(), BigNumber::from_dec("987654321").to_bits());
}

#[test]
fn add_commutes() {
    let cases = [("333", "666"), ("1", "987654321"), ("0", "12"), ("18446744073709551615", "1")];
    for (x, y) in cases {
        let ab = BigNumber::from_dec(x).add(BigNumber::from_dec(y));
        let ba = BigNumber::from_dec(y).add(BigNumber::from_dec(x));
        assert_eq!(ab.to_bits(), ba.to_bits());
        assert_eq!(ab.to_dec(), ba.to_dec());
    }
}

#[test]
fn add_zero_identity() {
    let a = BigNumber::from_dec("987654321");
    assert_eq!(a.add(BigNumber::from_dec("0")).to_dec(), "987654321");
    assert_eq!(BigNumber::from_dec("0").add(BigNumber::from_dec("0")).to_dec(), "0");
}

#[test]
fn sub_inverts_add() {
    let cases = [("987654321", "123456789"), ("5", "5"), ("0", "77"), ("340282366920938463463374607431768211455", "18446744073709551616")];
    for (x, y) in cases {
        let sum = BigNumber::from_dec(x).add(BigNumber::from_dec(y));
        assert_eq!(sum.sub(BigNumber::from_dec(y)).to_dec(), BigNumber::from_dec(x).to_dec());
    }
}

#[test]
fn mul_zero_and_one() {
    let a = BigNumber::from_dec("123456789123456789");
    assert_eq!(a.mul(BigNumber::from_dec("0")).to_dec(), "0");
    assert_eq!(a.mul(BigNumber::from_dec("1")).to_dec(), "123456789123456789");
    assert_eq!(BigNumber::from_dec("0").mul(BigNumber::from_dec("0")).to_dec(), "0");
}

#[test]
fn not_involution() {
    for s in ["0", "1", "333", "987654321", "36975474653157054774828021269746402683982340877533073654506438589893109550756"] {
        let a = BigNumber::from_dec(s);
        assert_eq!(a.not().not().to_dec(), BigNumber::from_dec(s).to_dec());
    }
}

#[test]
fn bitwise_with_self() {
    for s in ["0", "1", "333", "987654321"] {
        let expected = BigNumber::from_dec(s).to_dec();
        assert_eq!(BigNumber::from_dec(s).xor(BigNumber::from_dec(s)).to_dec(), "0");
        assert_eq!(BigNumber::from_dec(s).and(BigNumber::from_dec(s)).to_dec(), expected);
        assert_eq!(BigNumber::from_dec(s).or(BigNumber::from_dec(s)).to_dec(), expected);
    }
}

#[test]
fn shift_round_trip() {
    for (s, n) in [("12", 0u64), ("12", 3), ("987654321", 7), ("0", 5)] {
        let a = BigNumber::from_dec(s);
        assert_eq!(a.shift_l(n).shift_r(n).to_dec(), BigNumber::from_dec(s).to_dec());
    }
}

#[test]
fn shift_right_truncates() {
    // The opposite order loses the low digits: 12 is 1100 in binary and
    // shifting right then left by 3 leaves 1000, which is 8.
    let a = BigNumber::from_dec("12");
    assert_eq!(a.shift_r(3).shift_l(3).to_dec(), "8");
    assert_eq!(BigNumber::from_dec("12").to_dec(), "12");
}

#[test]
fn xor_scenario() {
    assert_eq!(BigNumber::from_dec("36975474653157054774828021269746402683982340877533073654506438589893109550756").xor(BigNumber::from_dec("29057074580068875642242131450566062848035919160319378964815985283976398254876")).to_dec(), "7920500443340230485711763677164507885638082568214452725630423043519603097016");
}

#[test]
fn not_keeps_length() {
    // The complement is per-digit over the current length, not negation:
    // 5 is 101, its complement is 010, which denotes 2.
    assert_eq!(BigNumber::from_dec("5").not().to_bits(), "010");
    assert_eq!(BigNumber::from_dec("5").not().to_dec(), "2");
}

#[test]
fn sub_keeps_length() {
    // The difference keeps the longer operand's length, so it may carry
    // leading zero digits; the decimal rendering is still canonical.
    let d = BigNumber::from_dec("1000").sub(BigNumber::from_dec("999"));
    assert_eq!(d.to_bits(), "0000000001");
    assert_eq!(d.to_dec(), "1");
}
