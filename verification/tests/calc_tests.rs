use biguint::calc::{celsius2farenheit, farenheit2celsius, fibonacci_loop, fibonacci_rec};

#[test]
fn test_celsius2farenheit() {
    assert_eq!(celsius2farenheit(35), 95);
}

#[test]
fn test_farenheit2celsius() {
    assert_eq!(farenheit2celsius(95), 35);
}

#[test]
fn test_fibonacci_loop() {
    assert_eq!(fibonacci_loop(15), 610);
}

#[test]
fn test_fibonacci_rec() {
    assert_eq!(fibonacci_rec(15), 610);
}

#[test]
fn test_fibonacci_small_cases() {
    assert_eq!(fibonacci_loop(0), 0);
    assert_eq!(fibonacci_loop(1), 1);
    assert_eq!(fibonacci_rec(0), 0);
    assert_eq!(fibonacci_rec(1), 1);
    assert_eq!(fibonacci_loop(92), 7540113804746346429);
}

#[test]
fn test_temperature_round_values() {
    assert_eq!(celsius2farenheit(0), 32);
    assert_eq!(celsius2farenheit(100), 212);
    assert_eq!(farenheit2celsius(212), 100);
}
