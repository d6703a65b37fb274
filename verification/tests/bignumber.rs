use bignumber::BigNumber;

#[test]
fn to_bits() {
    assert_eq!(BigNumber::from_dec("10").to_bits(), "1010");
    assert_eq!(BigNumber::from_dec("100").to_bits(), "1100100");
    assert_eq!(BigNumber::from_dec("10000").to_bits(), "10011100010000");
    assert_eq!(BigNumber::from_dec("36975474653157054774828021269746402683982340877533073654506438589893109550756").to_bits(), "101000110111111011000001000010000010100101011010101011100100110101000111100000110111110110000001001100011110111011110110001101101010100111111111011001001111000011111111000110101010010100010100111010011000001110101111111110111100110010001110000111010100100");
    assert_eq!(BigNumber::from_dec("29057074580068875642242131450566062848035919160319378964815985283976398254876").to_bits(), "100000000111101101110001010110110001000101000111001001100101010000010110111111010000001100010011010111011011001111011101111111110111000000100100001110111111010110000000101110000110101000100101111110110110011100101101101110101110011111101100011001100011100");
    assert_eq!(BigNumber::from_dec("7920500443340230485711763677164507885638082568214452725630423043519603097016").to_bits(), "1000110000010110110000010100110011100000011101100010000001100101010001011111100111111010010010011011000101110100101011110010011101100111011011010111110000010101111111101000101100111100110001000100101110010010000010010000010010101101100010011110110111000");
    assert_eq!(BigNumber::from_dec("24849215562603284913598209603366166109517208715847997125055008087001896692608").to_bits(), "11011011110000001010000101100000001011101100000010110011001000001001110010101010011010000000100000111101000010000000001110001101000110111000100111011010101110011001100100111001000101111011101000000001110100010101010111010011100010111101011010101110000000");
}

#[test]
fn to_dec() {
    assert_eq!(BigNumber::from_dec("10").to_dec(), "10");
    assert_eq!(BigNumber::from_dec("100").to_dec(), "100");
    assert_eq!(BigNumber::from_dec("10000").to_dec(), "10000");
    assert_eq!(BigNumber::from_dec("36975474653157054774828021269746402683982340877533073654506438589893109550756").to_dec(), "36975474653157054774828021269746402683982340877533073654506438589893109550756");
    assert_eq!(BigNumber::from_dec("29057074580068875642242131450566062848035919160319378964815985283976398254876").to_dec(), "29057074580068875642242131450566062848035919160319378964815985283976398254876");
    assert_eq!(BigNumber::from_dec("7920500443340230485711763677164507885638082568214452725630423043519603097016").to_dec(), "7920500443340230485711763677164507885638082568214452725630423043519603097016");
    assert_eq!(BigNumber::from_dec("24849215562603284913598209603366166109517208715847997125055008087001896692608").to_dec(), "24849215562603284913598209603366166109517208715847997125055008087001896692608");
}

#[test]
fn add() {
    assert_eq!(BigNumber::from_dec("10").add(BigNumber::from_dec("100")).to_dec(), "110");
    assert_eq!(BigNumber::from_dec("10").add(BigNumber::from_dec("1000")).to_dec(), "1010");
    assert_eq!(BigNumber::from_dec("10").add(BigNumber::from_dec("10000")).to_dec(), "10010");
    assert_eq!(BigNumber::from_dec("24849215562603284913598209603366166109517208715847997125055008087001896692608").add(BigNumber::from_dec("50928023637484727649580938471131156146596844332739972526188064849031132936923")).to_dec(), "75777239200088012563179148074497322256114053048587969651243072936033029629531");
}

#[test]
fn sub() {
    assert_eq!(BigNumber::from_dec("1").sub(BigNumber::from_dec("1")).to_dec(), "0");
    assert_eq!(BigNumber::from_dec("100").sub(BigNumber::from_dec("10")).to_dec(), "90");
    assert_eq!(BigNumber::from_dec("1000").sub(BigNumber::from_dec("10")).to_dec(), "990");
    assert_eq!(BigNumber::from_dec("10000").sub(BigNumber::from_dec("10")).to_dec(), "9990");
    assert_eq!(BigNumber::from_dec("23433380516137519328100865177402731197275054200316142385946787265837220691644").sub(BigNumber::from_dec("15790992609122403962304850700720982462507065697289326364772486909900489227779")).to_dec(), "7642387907015115365796014476681748734767988503026816021174300355936731463865");
}

#[test]
fn mul() {
    assert_eq!(BigNumber::from_dec("1").mul(BigNumber::from_dec("1")).to_dec(), "1");
    assert_eq!(BigNumber::from_dec("1").mul(BigNumber::from_dec("0")).to_dec(), "0");
    assert_eq!(BigNumber::from_dec("0").mul(BigNumber::from_dec("1")).to_dec(), "0");
    assert_eq!(BigNumber::from_dec("10").mul(BigNumber::from_dec("333")).to_dec(), "3330");
    assert_eq!(BigNumber::from_dec("166807296821353892614856011957272440545").mul(BigNumber::from_dec("202007170467897058509973056246940892450")).to_dec(), "33696270044280338936322427828590295140440434162902192260288683255971864385250");
}

#[test]
fn and() {
    assert_eq!(BigNumber::from_dec("1").and(BigNumber::from_dec("1")).to_dec(), "1");
    assert_eq!(BigNumber::from_dec("333").and(BigNumber::from_dec("666")).to_dec(), "8");
    assert_eq!(BigNumber::from_dec("987654321").and(BigNumber::from_dec("123456789")).to_dec(), "39471121");
}

#[test]
fn or() {
    assert_eq!(BigNumber::from_dec("1").or(BigNumber::from_dec("1")).to_dec(), "1");
    assert_eq!(BigNumber::from_dec("333").or(BigNumber::from_dec("666")).to_dec(), "991");
    assert_eq!(BigNumber::from_dec("987654321").or(BigNumber::from_dec("123456789")).to_dec(), "1071639989");
}

#[test]
fn xor() {
    assert_eq!(BigNumber::from_dec("1").xor(BigNumber::from_dec("1")).to_dec(), "0");
    assert_eq!(BigNumber::from_dec("333").xor(BigNumber::from_dec("666")).to_dec(), "983");
    assert_eq!(BigNumber::from_dec("987654321").xor(BigNumber::from_dec("123456789")).to_dec(), "1032168868");
}

#[test]
fn not() {
    assert_eq!(BigNumber::from_dec("1").not().to_dec(), "0");
    assert_eq!(BigNumber::from_dec("333").not().to_dec(), "178");
    assert_eq!(BigNumber::from_dec("987654321").not().to_dec(), "86087502");
}

#[test]
fn shift_l() {
    assert_eq!(BigNumber::from_dec("1").shift_l(3).to_bits(), "1000");
    assert_eq!(BigNumber::from_dec("5").shift_l(3).to_bits(), "101000");
    assert_eq!(BigNumber::from_dec("5").shift_l(10).to_bits(), "1010000000000");
}

#[test]
fn shift_r() {
    assert_eq!(BigNumber::from_dec("12").shift_r(1).to_bits(), "110");
    assert_eq!(BigNumber::from_dec("12").shift_r(3).to_bits(), "1");
    assert_eq!(BigNumber::from_dec("12").shift_r(4).to_bits(), "0");
    assert_eq!(BigNumber::from_dec("987654321").shift_r(3).to_bits(), "111010110111100110100010110");
}
