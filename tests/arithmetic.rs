use arithmos::limb::{adc, muladd};
use arithmos::{Number, ParseError};

fn num(text: &str) -> Number {
    Number::new(text).unwrap()
}

#[test]
fn test_add() {
    let a = num("FF234567987654234567BC345679876AA");
    let b = num("23456789234567890987654323456789ABCD");
    let c = num("6E4B15718F0F3971ADF43CF99AFC4A527");
    assert_eq!(
        a.add(&b).add(&c).to_upper_hex(),
        "235C3E6ED0D7DFE1E2D69B02B6247EE6C79E"
    );
}

#[test]
fn test_sub() {
    let a = num("23456789234567890987654323456789ABCD");
    let b = num("FF234567987654234567BC345679876AA");
    assert_eq!(
        a.sub(&b).to_upper_hex(),
        "23357554CCCBE023C7530EC75FFFFFF13523"
    );
}

#[test]
fn test_mul() {
    let a = num("FF234567987654234567BC345679876AA");
    let b = num("23456789234567890987654323456789ABCD");
    assert_eq!(
        a.mul(&b).to_upper_hex(),
        "2326FE2EBCB8165C563C61A18818655E7A4B57398825828C0FDB73E2CBCEEB3549422"
    );
}

#[test]
fn test_pow() {
    let a = num("D80");
    assert_eq!(
        a.pow(23).to_upper_hex(),
        "5246D7C54A60153714AEA69ACFE60000000000000000000000000000000000000000"
    );
}

#[test]
fn adc_carries_out_of_the_top_bit() {
    assert_eq!(adc(u64::MAX, 1, 0), (0, 1));
    assert_eq!(adc(u64::MAX, u64::MAX, 1), (u64::MAX, 1));
    assert_eq!(adc(2, 3, 1), (6, 0));
    assert_eq!(adc(0, 0, 0), (0, 0));
}

#[test]
fn muladd_keeps_the_high_limb() {
    assert_eq!(muladd(u64::MAX, u64::MAX, u64::MAX), (0, u64::MAX));
    assert_eq!(muladd(1 << 32, 1 << 32, 5), (5, 1));
    assert_eq!(muladd(7, 6, 0), (42, 0));
}

#[test]
fn round_trip_of_canonical_text() {
    for text in [
        "1",
        "F",
        "DEADBEEF",
        "FFFFFFFFFFFFFFFF",
        "10000000000000000",
        "123456789ABCDEF0123456789ABCDEF0123",
    ] {
        assert_eq!(num(text).to_upper_hex(), text);
    }
}

#[test]
fn lowercase_digits_read_like_uppercase() {
    assert_eq!(num("abcdef0123").to_upper_hex(), "ABCDEF0123");
    assert_eq!(num("aBcD").to_upper_hex(), "ABCD");
}

#[test]
fn leading_zeros_are_dropped_when_writing() {
    assert_eq!(num("000000000000000000000001").to_upper_hex(), "1");
    assert_eq!(num("0000").to_upper_hex(), "");
}

#[test]
fn empty_text_reads_as_zero() {
    let zero = num("");
    assert_eq!(zero.to_upper_hex(), "");
    assert_eq!(zero.add(&num("5")).to_upper_hex(), "5");
    assert_eq!(zero.mul(&num("5")).to_upper_hex(), "");
}

#[test]
fn invalid_characters_are_rejected() {
    assert_eq!(Number::new("12G4").unwrap_err(), ParseError::InvalidDigit);
    assert_eq!(Number::new("+1").unwrap_err(), ParseError::InvalidDigit);
    assert_eq!(Number::new("0x10").unwrap_err(), ParseError::InvalidDigit);
    assert_eq!(Number::new("1 2").unwrap_err(), ParseError::InvalidDigit);
    assert_eq!(Number::new("\u{e9}").unwrap_err(), ParseError::InvalidDigit);
    assert_eq!(
        Number::new("FFFFFFFFFFFFFFFFFFFFFFFFFFFFFFFFZ").unwrap_err(),
        ParseError::InvalidDigit
    );
}

#[test]
fn add_carries_into_a_new_limb() {
    let max = num("FFFFFFFFFFFFFFFF");
    assert_eq!(max.add(&num("1")).to_upper_hex(), "10000000000000000");
    assert_eq!(
        num("FFFFFFFFFFFFFFFFFFFFFFFFFFFFFFFF")
            .add(&num("FFFFFFFFFFFFFFFFFFFFFFFFFFFFFFFF"))
            .to_upper_hex(),
        "1FFFFFFFFFFFFFFFFFFFFFFFFFFFFFFFE"
    );
}

#[test]
fn add_is_commutative_and_associative() {
    let a = num("FF234567987654234567BC345679876AA");
    let b = num("23456789234567890987654323456789ABCD");
    let c = num("6E4B15718F0F3971ADF43CF99AFC4A527");
    assert_eq!(a.add(&b).to_upper_hex(), b.add(&a).to_upper_hex());
    assert_eq!(
        a.add(&b).add(&c).to_upper_hex(),
        a.add(&b.add(&c)).to_upper_hex()
    );
}

#[test]
fn mul_is_commutative_and_associative() {
    let a = num("FF234567987654234567BC345679876AA");
    let b = num("23456789234567890987654323456789ABCD");
    let c = num("6E4B15718F0F3971ADF43CF99AFC4A527");
    assert_eq!(a.mul(&b).to_upper_hex(), b.mul(&a).to_upper_hex());
    assert_eq!(
        a.mul(&b).mul(&c).to_upper_hex(),
        a.mul(&b.mul(&c)).to_upper_hex()
    );
}

#[test]
fn sub_of_a_number_from_itself_is_empty() {
    let a = num("23456789234567890987654323456789ABCD");
    assert_eq!(a.sub(&a).to_upper_hex(), "");
}

#[test]
fn sub_wraps_around_on_underflow() {
    assert_eq!(num("1").sub(&num("2")).to_upper_hex(), "FFFFFFFFFFFFFFFF");
    assert_eq!(
        num("5").sub(&num("10000000000000000")).to_upper_hex(),
        "FFFFFFFFFFFFFFFF0000000000000005"
    );
}

#[test]
fn mul_by_one_keeps_the_value() {
    let a = num("FF234567987654234567BC345679876AA");
    assert_eq!(a.mul(&num("1")).to_upper_hex(), a.to_upper_hex());
}

#[test]
fn mul_with_carries_across_limbs() {
    let max = num("FFFFFFFFFFFFFFFF");
    assert_eq!(max.mul(&max).to_upper_hex(), "FFFFFFFFFFFFFFFE0000000000000001");
    let big = num("FFFFFFFFFFFFFFFFFFFFFFFFFFFFFFFF");
    assert_eq!(
        big.mul(&big).to_upper_hex(),
        "FFFFFFFFFFFFFFFFFFFFFFFFFFFFFFFE00000000000000000000000000000001"
    );
}

#[test]
fn pow_small_exponents() {
    let b = num("D80");
    assert_eq!(b.clone().pow(0).to_upper_hex(), "1");
    assert_eq!(b.clone().pow(1).to_upper_hex(), "D80");
    assert_eq!(b.clone().pow(2).to_upper_hex(), "B64000");
    assert_eq!(num("").pow(0).to_upper_hex(), "1");
    assert_eq!(num("").pow(3).to_upper_hex(), "");
    assert_eq!(num("2").pow(64).to_upper_hex(), "10000000000000000");
}

#[test]
fn pow_step_matches_one_more_multiplication() {
    let b = num("D80");
    for n in 1..10u64 {
        assert_eq!(
            b.clone().pow(n).to_upper_hex(),
            b.clone().pow(n - 1).mul(&b).to_upper_hex()
        );
    }
}
