use juvix_cairo_vm::felt::{Felt, LiteralError};

const PRIME: &str = "3618502788666131213697322783095070105623107215331596699973092056135872020481";
const PRIME_LESS_ONE: &str =
    "3618502788666131213697322783095070105623107215331596699973092056135872020480";

#[test]
fn reads_decimal_literals() {
    assert_eq!(Felt::from_decimal("123"), Ok(Felt::from_u64(123)));
    assert_eq!(Felt::from_decimal("0"), Ok(Felt::zero()));
    assert_eq!(Felt::from_decimal("0001"), Ok(Felt::one()));
    assert_eq!(
        Felt::from_decimal("18446744073709551616"),
        Ok(Felt::from_be_digits(0, 0, 1, 0).unwrap())
    );
}

#[test]
fn reads_decimal_literals_up_to_the_prime() {
    assert_eq!(
        Felt::from_decimal(PRIME_LESS_ONE),
        Ok(Felt::from_be_digits(0x0800000000000011, 0, 0, 0).unwrap())
    );
    assert_eq!(Felt::from_decimal(PRIME), Err(LiteralError::OutOfRange));
}

#[test]
fn rejects_decimal_literals_out_of_range() {
    let huge = "9".repeat(200);
    assert_eq!(Felt::from_decimal(&huge), Err(LiteralError::OutOfRange));
    assert_eq!(
        Felt::from_decimal(
            "115792089237316195423570985008687907853269984665640564039457584007913129639936"
        ),
        Err(LiteralError::OutOfRange)
    );
}

#[test]
fn rejects_malformed_decimal_literals() {
    assert_eq!(Felt::from_decimal(""), Err(LiteralError::Malformed));
    assert_eq!(Felt::from_decimal("-1"), Err(LiteralError::Malformed));
    assert_eq!(Felt::from_decimal("1.5"), Err(LiteralError::Malformed));
    assert_eq!(Felt::from_decimal("1e3"), Err(LiteralError::Malformed));
    assert_eq!(Felt::from_decimal("12a"), Err(LiteralError::Malformed));
    assert_eq!(Felt::from_decimal(" 1"), Err(LiteralError::Malformed));
    let long = format!("{}x", "9".repeat(200));
    assert_eq!(Felt::from_decimal(&long), Err(LiteralError::Malformed));
}

#[test]
fn reads_hex_literals() {
    assert_eq!(Felt::from_hex_literal("0xAFF"), Ok(Felt::from_u64(0xAFF)));
    assert_eq!(Felt::from_hex_literal("0xaff"), Ok(Felt::from_u64(0xAFF)));
    assert_eq!(Felt::from_hex_literal("0x0"), Ok(Felt::zero()));
    assert_eq!(
        Felt::from_hex_literal("0x800000000000011000000000000000000000000000000000000000000000000"),
        Ok(Felt::from_be_digits(0x0800000000000011, 0, 0, 0).unwrap())
    );
}

#[test]
fn rejects_hex_literals_out_of_range() {
    assert_eq!(
        Felt::from_hex_literal("0x800000000000011000000000000000000000000000000000000000000000001"),
        Err(LiteralError::OutOfRange)
    );
    let huge = format!("0x{}", "f".repeat(100));
    assert_eq!(Felt::from_hex_literal(&huge), Err(LiteralError::OutOfRange));
}

#[test]
fn rejects_malformed_hex_literals() {
    assert_eq!(Felt::from_hex_literal(""), Err(LiteralError::Malformed));
    assert_eq!(Felt::from_hex_literal("0x"), Err(LiteralError::Malformed));
    assert_eq!(Felt::from_hex_literal("AFF"), Err(LiteralError::Malformed));
    assert_eq!(Felt::from_hex_literal("123"), Err(LiteralError::Malformed));
    assert_eq!(Felt::from_hex_literal("0xG"), Err(LiteralError::Malformed));
    assert_eq!(Felt::from_hex_literal("-0x1"), Err(LiteralError::Malformed));
    assert_eq!(Felt::from_hex_literal("0X1"), Err(LiteralError::Malformed));
}

#[test]
fn takes_digits_below_the_prime_only() {
    assert_eq!(
        Felt::from_be_digits(0, 0, 0, 5).unwrap().to_be_digits(),
        (0, 0, 0, 5)
    );
    assert!(Felt::from_be_digits(0x0800000000000011, 0, 0, 0).is_some());
    assert!(Felt::from_be_digits(0x0800000000000011, 0, 0, 1).is_none());
    assert!(Felt::from_be_digits(0x0800000000000010, u64::MAX, u64::MAX, u64::MAX).is_some());
    assert!(Felt::from_be_digits(u64::MAX, 0, 0, 0).is_none());
}

#[test]
fn compares_elements_by_their_number() {
    assert!(Felt::from_u64(7).same(&Felt::from_decimal("7").unwrap()));
    assert!(!Felt::from_u64(7).same(&Felt::from_u64(8)));
}

#[test]
fn reads_literals_of_both_kinds() {
    assert_eq!(Felt::from_literal("123"), Ok(Felt::from_u64(123)));
    assert_eq!(Felt::from_literal("0x7b"), Ok(Felt::from_u64(123)));
    assert_eq!(Felt::from_literal("0"), Ok(Felt::zero()));
    assert_eq!(Felt::from_literal("0x0"), Ok(Felt::zero()));
    assert_eq!(Felt::from_literal("00x1"), Err(LiteralError::Malformed));
    assert_eq!(Felt::from_literal("0x"), Err(LiteralError::Malformed));
    assert_eq!(Felt::from_literal("x1"), Err(LiteralError::Malformed));
    assert_eq!(Felt::from_literal(""), Err(LiteralError::Malformed));
    assert_eq!(Felt::from_literal(PRIME), Err(LiteralError::OutOfRange));
    assert_eq!(
        Felt::from_literal(PRIME_LESS_ONE),
        Ok(Felt::from_be_digits(0x0800000000000011, 0, 0, 0).unwrap())
    );
}

#[test]
fn rejects_literals_with_a_sign() {
    assert_eq!(Felt::from_literal("-1"), Err(LiteralError::Negative));
    assert_eq!(Felt::from_literal("-0"), Err(LiteralError::Negative));
    assert_eq!(Felt::from_literal("-0x1f"), Err(LiteralError::Negative));
    assert_eq!(Felt::from_literal(&format!("-{PRIME}")), Err(LiteralError::Negative));
    assert_eq!(Felt::from_literal("-"), Err(LiteralError::Malformed));
    assert_eq!(Felt::from_literal("-x"), Err(LiteralError::Malformed));
    assert_eq!(Felt::from_literal("--1"), Err(LiteralError::Malformed));
    assert_eq!(Felt::from_literal("+1"), Err(LiteralError::Malformed));
    assert_eq!(Felt::from_literal("-0x"), Err(LiteralError::Malformed));
}
