use biguint::biguint4096::BigUInt4096;
use biguint::hex::ParseError;

fn from_hex(s: &str) -> BigUInt4096 {
    BigUInt4096::from_hex_str(s).unwrap()
}

#[test]
fn test_biguint4096_new_and_default() {
    assert_eq!(BigUInt4096::new(), BigUInt4096::default());
}

#[test]
fn test_biguint4096_checked_add() {
    let a = from_hex("0xffffffffffffffff");
    let b = from_hex("0x1");
    assert_eq!(a.checked_add(&b), Some(from_hex("0x10000000000000000")));
    let max = from_hex(&"f".repeat(1024));
    assert_eq!(max.checked_add(&b), None);
    assert_eq!(max.checked_add(&BigUInt4096::new()), Some(max));
}

#[test]
fn test_biguint4096_checked_sub_and_strict_sub() {
    let a = from_hex("0x10");
    let b = from_hex("0x7");
    assert_eq!(a.checked_sub(&b), Some(from_hex("0x9")));
    assert_eq!(b.checked_sub(&a), None);
    assert_eq!(a.strict_sub(&b), from_hex("0x9"));
}

#[test]
fn test_biguint4096_wrapping_mul_by_u64() {
    let a = from_hex("0x100000000");
    assert_eq!(a.wrapping_mul_by_u64(16), from_hex("0x1000000000"));
}

#[test]
fn test_biguint4096_widening_shl() {
    let a = from_hex("0x1");
    let (low, high) = a.widening_shl(4096);
    assert_eq!(low, BigUInt4096::new());
    assert_eq!(high, a);
    let (low2, high2) = a.widening_shl(0);
    assert_eq!(low2, a);
    assert_eq!(high2, BigUInt4096::new());
    let (low3, high3) = from_hex("0xf").widening_shl(8);
    assert_eq!(low3, from_hex("0xf00"));
    assert_eq!(high3, BigUInt4096::new());
}

#[test]
fn test_biguint4096_checked_mul_and_strict_mul() {
    let two = from_hex("0x2");
    let three = from_hex("0x3");
    assert_eq!(two.checked_mul(&three), Some(from_hex("0x6")));
    assert_eq!(two.strict_mul(&three), from_hex("0x6"));
    let max = from_hex(&"f".repeat(1024));
    assert_eq!(max.checked_mul(&two), None);
}

#[test]
fn test_biguint4096_hex_round_trip() {
    let a = from_hex("0xdeadbeefcafef00d0123456789abcdef");
    let text = a.to_hex_string();
    assert_eq!(text.len(), 2 + 1024);
    assert_eq!(BigUInt4096::from_hex_str(&text), Ok(a));
    assert_eq!(BigUInt4096::from_hex_str("zz"), Err(ParseError));
}
