use biguint::biguint::{BigUInt, BigUInt1024};
use biguint::hex::ParseError;

fn b2(lo: u64, hi: u64) -> BigUInt<2> {
    BigUInt { data: [lo, hi] }
}

/// Schoolbook 128x128 -> 256 bit reference product, computed
/// independently with u128 arithmetic.
fn reference_mul_2(a: [u64; 2], b: [u64; 2]) -> [u64; 4] {
    let mut out = [0u64; 4];
    for i in 0..2 {
        let mut carry: u128 = 0;
        for j in 0..2 {
            let cur = out[i + j] as u128 + a[i] as u128 * b[j] as u128 + carry;
            out[i + j] = cur as u64;
            carry = cur >> 64;
        }
        out[i + 2] = carry as u64;
    }
    out
}

#[test]
fn test_new_is_zero() {
    let z = BigUInt::<2>::new();
    assert_eq!(z.data, [0, 0]);
    assert_eq!(z, BigUInt::<2>::default());
}

#[test]
fn test_carrying_add_carry_in_and_out() {
    let a = b2(u64::MAX, u64::MAX);
    let (sum, carry) = a.carrying_add(&b2(0, 0), true);
    assert_eq!(sum, b2(0, 0));
    assert!(carry);
    let (sum2, carry2) = b2(1, 2).carrying_add(&b2(3, 4), false);
    assert_eq!(sum2, b2(4, 6));
    assert!(!carry2);
}

#[test]
fn test_overflowing_add_cross_limb_carry() {
    let (sum, overflow) = b2(u64::MAX, 0).overflowing_add(&b2(1, 0));
    assert_eq!(sum, b2(0, 1));
    assert!(!overflow);
}

#[test]
fn test_wrapping_add_full_wrap() {
    // P9: 0xFFFF...FFFF + 0x1 wraps to zero, and the checked form is absent.
    let all_ones = b2(u64::MAX, u64::MAX);
    let one = b2(1, 0);
    assert_eq!(all_ones.wrapping_add(&one), b2(0, 0));
    assert_eq!(all_ones.checked_add(&one), None);
    let (_, overflow) = all_ones.overflowing_add(&one);
    assert!(overflow);
}

#[test]
fn test_checked_add_present_iff_no_carry() {
    // P3: absent exactly when the carry-propagating addition carries out.
    let a = b2(5, u64::MAX);
    assert_eq!(a.checked_add(&b2(0, 0)), Some(a));
    assert_eq!(a.checked_add(&b2(0, 1)), None);
    assert_eq!(b2(7, 8).checked_add(&b2(9, 10)), Some(b2(16, 18)));
}

#[test]
fn test_strict_add_exact() {
    assert_eq!(b2(u64::MAX, 0).strict_add(&b2(1, 0)), b2(0, 1));
}

#[test]
fn test_sub_family() {
    let a = b2(0, 1);
    let one = b2(1, 0);
    let (diff, borrow) = a.borrowing_sub(&one, false);
    assert_eq!(diff, b2(u64::MAX, 0));
    assert!(!borrow);
    let (wrapped, borrow2) = b2(0, 0).overflowing_sub(&one);
    assert_eq!(wrapped, b2(u64::MAX, u64::MAX));
    assert!(borrow2);
    assert_eq!(b2(0, 0).wrapping_sub(&one), b2(u64::MAX, u64::MAX));
    assert_eq!(b2(0, 0).checked_sub(&one), None);
    assert_eq!(a.checked_sub(&one), Some(b2(u64::MAX, 0)));
    assert_eq!(a.strict_sub(&one), b2(u64::MAX, 0));
}

#[test]
fn test_sub_undoes_add() {
    // P1: subtraction undoes addition modulo 2^128.
    let a = b2(0x1234_5678_9abc_def0, 0xffee_ddcc_bbaa_9988);
    let b = b2(0xdead_beef_0bad_f00d, 0x0123_4567_89ab_cdef);
    let sum = a.wrapping_add(&b);
    assert_eq!(sum.wrapping_sub(&a), b);
    assert_eq!(a.wrapping_add(&sum.wrapping_sub(&a)), sum);
}

#[test]
fn test_add_commutative_associative() {
    // P2 for addition, on a sampled triple that wraps.
    let a = b2(u64::MAX, 5);
    let b = b2(17, u64::MAX);
    let c = b2(u64::MAX, u64::MAX);
    assert_eq!(a.wrapping_add(&b), b.wrapping_add(&a));
    assert_eq!(
        a.wrapping_add(&b).wrapping_add(&c),
        a.wrapping_add(&b.wrapping_add(&c))
    );
}

#[test]
fn test_mul_commutative_associative() {
    // P2 for multiplication, on a sampled triple that wraps.
    let a = b2(0x1234_5678_9abc_def0, 3);
    let b = b2(u64::MAX, 0x1111_2222_3333_4444);
    let c = b2(29, u64::MAX);
    assert_eq!(a.wrapping_mul(&b), b.wrapping_mul(&a));
    assert_eq!(
        a.wrapping_mul(&b).wrapping_mul(&c),
        a.wrapping_mul(&b.wrapping_mul(&c))
    );
}

#[test]
fn test_carrying_mul_by_u64_with_carry() {
    let a = b2(u64::MAX, u64::MAX);
    let (low, carry) = a.carrying_mul_by_u64(u64::MAX, 7);
    // (2^128 - 1) * (2^64 - 1) + 7 == (2^64 - 2) * 2^128 + (2^128 - 2^64 + 8)
    assert_eq!(low, b2(8, u64::MAX));
    assert_eq!(carry, u64::MAX - 1);
    assert_eq!(a.wrapping_mul_by_u64(u64::MAX), b2(1, u64::MAX));
}

#[test]
fn test_mul_two_by_three() {
    // P10: 0x2 * 0x3 == 0x6 with a zero high part.
    let (low, high) = b2(2, 0).overflowing_mul(&b2(3, 0));
    assert_eq!(low, b2(6, 0));
    assert_eq!(high, b2(0, 0));
    assert_eq!(b2(2, 0).wrapping_mul(&b2(3, 0)), b2(6, 0));
    assert_eq!(b2(2, 0).checked_mul(&b2(3, 0)), Some(b2(6, 0)));
    assert_eq!(b2(2, 0).strict_mul(&b2(3, 0)), b2(6, 0));
}

#[test]
fn test_mul_reconstruction_against_reference() {
    // P4: (low, high) reconstructs the exact 256-bit product.
    let samples = [
        ([0x0123_4567_89ab_cdef, 0xfedc_ba98_7654_3210], [0xdead_beef_cafe_f00d, 0x0bad_c0de_1234_5678]),
        ([u64::MAX, u64::MAX], [u64::MAX, u64::MAX]),
        ([0, 1], [0, 1]),
        ([5, 0], [7, 0]),
        ([u64::MAX, 0], [2, 0]),
    ];
    for (x, y) in samples {
        let (low, high) = BigUInt { data: x }.overflowing_mul(&BigUInt { data: y });
        let expected = reference_mul_2(x, y);
        assert_eq!(low.data, [expected[0], expected[1]]);
        assert_eq!(high.data, [expected[2], expected[3]]);
    }
}

#[test]
fn test_checked_mul_overflow_absent() {
    let a = b2(0, 1);
    assert_eq!(a.checked_mul(&a), None);
    let (low, high) = a.overflowing_mul(&a);
    assert_eq!(low, b2(0, 0));
    assert_eq!(high, b2(1, 0));
}

#[test]
fn test_mul_by_zero_is_exactly_zero() {
    let a = b2(u64::MAX, u64::MAX);
    let (low, high) = a.overflowing_mul(&b2(0, 0));
    assert_eq!(low, b2(0, 0));
    assert_eq!(high, b2(0, 0));
}

#[test]
fn test_shift_by_zero_is_identity() {
    // P5: a zero shift returns the value unchanged with a zero overflow.
    let a = b2(0xdead_beef_dead_beef, 0x1234_5678_9abc_def0);
    let (low, high) = a.widening_shl(0);
    assert_eq!(low, a);
    assert_eq!(high, b2(0, 0));
}

#[test]
fn test_shift_by_full_width_moves_value_out() {
    // P6: shifting by 64*N moves the whole value into the overflow.
    let a = b2(0xdead_beef_dead_beef, 0x1234_5678_9abc_def0);
    let (low, high) = a.widening_shl(128);
    assert_eq!(low, b2(0, 0));
    assert_eq!(high, a);
}

#[test]
fn test_shift_across_limb_boundary() {
    let a = b2(1 << 63, 0);
    let (low, high) = a.widening_shl(1);
    assert_eq!(low, b2(0, 1));
    assert_eq!(high, b2(0, 0));
    let (low2, high2) = b2(0, 1 << 63).widening_shl(1);
    assert_eq!(low2, b2(0, 0));
    assert_eq!(high2, b2(1, 0));
    let (low3, high3) = b2(0xff, 0).widening_shl(68);
    assert_eq!(low3, b2(0, 0xff0));
    assert_eq!(high3, b2(0, 0));
}

#[test]
fn test_format_round_trip() {
    // P7: parse(format(v)) == v, and the text is always 2 + 16*N long.
    let values = [
        b2(0, 0),
        b2(1, 0),
        b2(u64::MAX, u64::MAX),
        b2(0xdead_beef_0000_0001, 0x0123_4567_89ab_cdef),
    ];
    for v in values {
        let text = v.to_hex_string();
        assert_eq!(text.len(), 2 + 16 * 2);
        assert_eq!(BigUInt::<2>::from_hex_str(&text), Ok(v));
    }
}

#[test]
fn test_format_fixed_width() {
    assert_eq!(
        b2(0x6, 0).to_hex_string(),
        "0x00000000000000000000000000000006"
    );
    assert_eq!(
        b2(0xdead_beef_cafe_f00d, 0x1).to_hex_string(),
        "0x0000000000000001deadbeefcafef00d"
    );
}

#[test]
fn test_parse_empty_is_zero() {
    // P8: the empty string parses to the zero value.
    assert_eq!(BigUInt::<2>::from_hex_str(""), Ok(b2(0, 0)));
}

#[test]
fn test_parse_rejects_non_hex() {
    // P8: a non-hex character is a format error.
    assert_eq!(BigUInt::<2>::from_hex_str("0x12g4"), Err(ParseError));
    assert_eq!(BigUInt::<2>::from_hex_str("hello"), Err(ParseError));
}

#[test]
fn test_parse_prefix_and_case() {
    assert_eq!(BigUInt::<2>::from_hex_str("0x1A"), Ok(b2(0x1a, 0)));
    assert_eq!(BigUInt::<2>::from_hex_str("0X1a"), Ok(b2(0x1a, 0)));
    assert_eq!(BigUInt::<2>::from_hex_str("ff"), Ok(b2(0xff, 0)));
    assert_eq!(BigUInt::<2>::from_hex_str("0x"), Ok(b2(0, 0)));
}

#[test]
fn test_parse_short_input_left_padded() {
    assert_eq!(
        BigUInt::<2>::from_hex_str("123456789abcdef01"),
        Ok(b2(0x2345_6789_abcd_ef01, 0x1))
    );
}

#[test]
fn test_parse_rejects_too_long() {
    let long = "1".repeat(33);
    assert_eq!(BigUInt::<2>::from_hex_str(&long), Err(ParseError));
    let max = "f".repeat(32);
    assert_eq!(
        BigUInt::<2>::from_hex_str(&max),
        Ok(b2(u64::MAX, u64::MAX))
    );
}

#[test]
fn test_wider_standard_width() {
    let one = BigUInt1024::from_hex_str("0x1").unwrap();
    let max = BigUInt1024::from_hex_str(&"f".repeat(256)).unwrap();
    assert_eq!(max.wrapping_add(&one), BigUInt1024::new());
    assert_eq!(max.checked_add(&one), None);
    let text = max.to_hex_string();
    assert_eq!(text.len(), 2 + 16 * 16);
    assert_eq!(BigUInt::from_hex_str(&text), Ok(max));
}
