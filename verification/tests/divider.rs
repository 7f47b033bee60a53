//! Tests of the equal-share divider.

use line_items::{divide_amount, parse_dec, Dec, TabulationError};

fn dec(s: &str) -> Dec {
    parse_dec(s).unwrap()
}

fn assert_shares(amount: &str, divisor: u16, quantization: u32, expected: &[&str]) {
    let shares = divide_amount(dec(amount), divisor, quantization).unwrap();
    assert_eq!(shares.len(), expected.len());
    for (share, want) in shares.iter().zip(expected.iter()) {
        assert!(
            share.eq_units(&dec(want)),
            "dividing {} by {} gave {:?}, expected {}",
            amount,
            divisor,
            share,
            want
        );
    }
}

#[test]
fn test_divide_amount() {
    assert_shares("10", 3, 2, &["3.34", "3.33", "3.33"]);
    assert_shares("10.01", 3, 2, &["3.34", "3.34", "3.33"]);
    assert_shares("10.02", 3, 2, &["3.34", "3.34", "3.34"]);
    assert_shares("10.03", 3, 2, &["3.35", "3.34", "3.34"]);
}

#[test]
fn test_divide_non_subunit() {
    assert_shares("10000", 3, 0, &["3334", "3333", "3333"]);
    assert_shares("10001", 3, 0, &["3334", "3334", "3333"]);
    assert_shares("10003", 3, 0, &["3335", "3334", "3334"]);
}

#[test]
fn test_divide_fairness() {
    assert_shares("10.00", 3, 2, &["3.34", "3.33", "3.33"]);
    assert_shares("10.03", 3, 2, &["3.35", "3.34", "3.34"]);
    assert_shares("10000", 3, 0, &["3334", "3333", "3333"]);
}

#[test]
fn test_divide_rejects_unquantized_amount() {
    let error = divide_amount(dec("10.005"), 3, 2).unwrap_err();
    assert_eq!(
        error,
        TabulationError::ErrorString(String::from("Amount is improperly quantized. Cannot divide."))
    );
}

#[test]
fn test_divide_rejects_zero_divisor() {
    let error = divide_amount(dec("10.00"), 0, 2).unwrap_err();
    assert_eq!(error, TabulationError::ErrorString(String::from("Cannot divide by zero.")));
}

#[test]
fn test_divide_conserves_amount() {
    for cents in [1000i64, 1001, 1002, 997, 5, 99999] {
        let text = format!("{}.{:02}", cents / 100, cents % 100);
        let shares = divide_amount(dec(&text), 7, 2).unwrap();
        let mut sum = dec("0.00");
        for share in shares.iter() {
            sum = sum.add_exact(share).unwrap();
        }
        assert!(sum.eq_units(&dec(&text)), "shares of {} summed to {:?}", text, sum);
    }
}
