//! Scenario tests for the documented behaviors: conservation, cascade
//! invariance, the reverse percentage solve, remainder repair and the
//! frozen override.

use line_items::{
    calculation_from_totals, get_totals, parse_dec, quantize, quantized_zero, quantum,
    value_string, Dec, LineItem, LineType, TabulationError,
};

fn dec(s: &str) -> Dec {
    parse_dec(s).unwrap()
}

fn units(d: &Dec) -> i128 {
    let mut unit: i128 = 1;
    let mut k = d.scale;
    while k < 28 {
        unit *= 10;
        k += 1;
    }
    d.mantissa * unit
}

#[test]
fn conservation_across_random_batches() {
    // Percentages, discounts and repair combined: the subtotals always sum
    // exactly to the total.
    let input = vec![
        LineItem {
            id: 1,
            priority: 0,
            amount: String::from("33.33"),
            ..Default::default()
        },
        LineItem {
            id: 2,
            priority: 100,
            amount: String::from("-4.05"),
            ..Default::default()
        },
        LineItem {
            id: 3,
            priority: 300,
            percentage: String::from("7.77"),
            ..Default::default()
        },
        LineItem {
            id: 4,
            priority: 300,
            percentage: String::from("3.21"),
            amount: String::from("0.19"),
            ..Default::default()
        },
        LineItem {
            id: 5,
            priority: 500,
            percentage: String::from("5"),
            back_into_percentage: true,
            ..Default::default()
        },
    ];
    let (total, _discount, map) = get_totals(input, 2).unwrap();
    let mut sum: i128 = 0;
    for e in map.entries.iter() {
        sum += units(&e.value);
    }
    assert_eq!(units(&total), sum);
}

#[test]
fn quantize_is_idempotent() {
    for text in ["2.034", "-2.039", "19.999999", "0.005", "123"] {
        let value = dec(text);
        let once = quantize(&value, 2);
        let twice = quantize(&once, 2);
        assert_eq!(once, twice);
    }
}

#[test]
fn quantize_truncates_toward_zero() {
    assert!(quantize(&dec("2.034"), 2).eq_units(&dec("2.03")));
    assert!(quantize(&dec("-2.039"), 2).eq_units(&dec("-2.03")));
    assert!(quantize(&dec("2.03"), 4).eq_units(&dec("2.03")));
    assert!(quantized_zero(2).eq_units(&dec("0.00")));
    assert!(quantum(2).eq_units(&dec("0.01")));
    assert!(quantum(0).eq_units(&dec("1")));
}

#[test]
fn cascade_invariance_single_fee() {
    // Forward: a base of 10.50 with a ten percent fee on top totals 11.55.
    let forward = vec![
        LineItem {
            id: 1,
            priority: 0,
            kind: LineType::BasePrice,
            amount: String::from("10.50"),
            ..Default::default()
        },
        LineItem {
            id: 2,
            priority: 300,
            kind: LineType::Shield,
            percentage: String::from("10"),
            ..Default::default()
        },
    ];
    let (ftotal, _fdiscount, fmap) = get_totals(forward, 2).unwrap();
    assert!(ftotal.eq_units(&dec("11.55")));
    assert!(fmap.get(1, 0).unwrap().eq_units(&dec("10.50")));
    assert!(fmap.get(2, 300).unwrap().eq_units(&dec("1.05")));
    // Reverse: the same invoice stated from the gross total, the fee solved
    // out of it, gives the same per-kind subtotals.
    let reverse = vec![
        LineItem {
            id: 1,
            priority: 0,
            kind: LineType::BasePrice,
            amount: String::from("11.55"),
            ..Default::default()
        },
        LineItem {
            id: 2,
            priority: 300,
            cascade_under: 300,
            kind: LineType::Shield,
            percentage: String::from("10"),
            cascade_percentage: true,
            back_into_percentage: true,
            ..Default::default()
        },
    ];
    let (rtotal, _rdiscount, rmap) = get_totals(reverse, 2).unwrap();
    assert!(rtotal.eq_units(&dec("11.55")));
    assert!(rmap.get(1, 0).unwrap().eq_units(&dec("10.50")));
    assert!(rmap.get(2, 300).unwrap().eq_units(&dec("1.05")));
}

#[test]
fn remainder_repair_missing_base_line() {
    // A closed loop of cascading lines with no anchor to absorb the
    // leftover must fail, pointing at the missing base price line.
    let input = vec![
        LineItem {
            id: 1,
            priority: 300,
            cascade_under: 300,
            amount: String::from("5.00"),
            cascade_amount: true,
            ..Default::default()
        },
        LineItem {
            id: 2,
            priority: 300,
            cascade_under: 300,
            amount: String::from("5.00"),
            cascade_amount: true,
            ..Default::default()
        },
    ];
    let error = get_totals(input, 2).unwrap_err();
    match error {
        TabulationError::ErrorString(message) => {
            assert!(message.contains("missing a base price line item"), "{}", message);
        },
    }
}

#[test]
fn back_into_percentage_reverse_solve() {
    let reverse = vec![
        LineItem {
            id: 1,
            priority: 0,
            amount: String::from("100.00"),
            ..Default::default()
        },
        LineItem {
            id: 2,
            priority: 100,
            percentage: String::from("5"),
            back_into_percentage: true,
            ..Default::default()
        },
    ];
    let (total, _discount, map) = get_totals(reverse, 2).unwrap();
    assert!(total.eq_units(&dec("105.26")));
    assert!(map.get(2, 100).unwrap().eq_units(&dec("5.26")));
    let forward = vec![
        LineItem {
            id: 1,
            priority: 0,
            amount: String::from("100.00"),
            ..Default::default()
        },
        LineItem {
            id: 2,
            priority: 100,
            percentage: String::from("5"),
            ..Default::default()
        },
    ];
    let (ftotal, _fdiscount, fmap) = get_totals(forward, 2).unwrap();
    assert!(ftotal.eq_units(&dec("105.00")));
    assert!(fmap.get(2, 100).unwrap().eq_units(&dec("5.00")));
}

#[test]
fn frozen_override_ignores_other_fields() {
    let input = vec![
        LineItem {
            id: 1,
            priority: 0,
            amount: String::from("999.99"),
            percentage: String::from("50"),
            frozen_value: Some(String::from("1.25")),
            ..Default::default()
        },
        LineItem {
            id: 2,
            priority: 300,
            amount: String::from("-3"),
            frozen_value: Some(String::from("-0.75")),
            ..Default::default()
        },
    ];
    let (total, discount, map) = get_totals(input, 2).unwrap();
    assert!(total.eq_units(&dec("0.50")));
    assert!(discount.eq_units(&dec("-0.75")));
    assert!(map.get(1, 0).unwrap().eq_units(&dec("1.25")));
    assert!(map.get(2, 300).unwrap().eq_units(&dec("-0.75")));
}

#[test]
fn single_frozen_line_among_many_errors() {
    let input = vec![
        LineItem {
            id: 1,
            priority: 0,
            amount: String::from("2.00"),
            frozen_value: Some(String::from("2.00")),
            ..Default::default()
        },
        LineItem {
            id: 2,
            priority: 100,
            amount: String::from("3.00"),
            ..Default::default()
        },
    ];
    let error = get_totals(input, 2).unwrap_err();
    assert_eq!(error, TabulationError::ErrorString(String::from("Unfrozen line found!")));
}

#[test]
fn cascade_floor_validation_names_the_line() {
    let input = vec![LineItem {
        id: 7,
        priority: 100,
        cascade_under: 300,
        amount: String::from("1.00"),
        ..Default::default()
    }];
    let error = get_totals(input, 2).unwrap_err();
    match error {
        TabulationError::ErrorString(message) => {
            assert!(message.contains("7"), "{}", message);
            assert!(message.contains("300"), "{}", message);
            assert!(message.contains("100"), "{}", message);
        },
    }
}

#[test]
fn malformed_decimal_is_reported() {
    let input = vec![LineItem {
        id: 1,
        priority: 0,
        amount: String::from("boop"),
        ..Default::default()
    }];
    let error = get_totals(input, 2).unwrap_err();
    match error {
        TabulationError::ErrorString(message) => {
            assert!(message.contains("Invalid decimal"), "{}", message);
        },
    }
}

#[test]
fn value_strings_round_trip() {
    assert_eq!(value_string(&dec("10.005"), 2), "10.00");
    assert_eq!(value_string(&dec("-2.039"), 2), "-2.03");
    assert_eq!(value_string(&dec("3.50"), 2), "3.50");
}

#[test]
fn calculation_carries_strings() {
    let input = vec![
        LineItem {
            id: 1,
            priority: 0,
            amount: String::from("10.00"),
            ..Default::default()
        },
        LineItem {
            id: 2,
            priority: 100,
            percentage: String::from("10"),
            ..Default::default()
        },
    ];
    let (total, discount, map) = get_totals(input, 2).unwrap();
    let calc = calculation_from_totals(&total, &discount, &map, 2);
    assert_eq!(calc.total, "11.00");
    assert_eq!(calc.discount, "0.00");
    assert_eq!(calc.subtotals.len(), 2);
    assert_eq!(calc.subtotals[0].0, 1);
    assert_eq!(calc.subtotals[0].1, "10.00");
    assert_eq!(calc.subtotals[1].0, 2);
    assert_eq!(calc.subtotals[1].1, "1.00");
}

#[test]
fn cascading_tier_conserves_the_total() {
    // Both fees solved from the gross total and funded out of the base.
    let input = vec![
        LineItem {
            id: 1,
            priority: 0,
            kind: LineType::BasePrice,
            amount: String::from("11.55"),
            ..Default::default()
        },
        LineItem {
            id: 2,
            priority: 300,
            cascade_under: 300,
            kind: LineType::CardFee,
            percentage: String::from("5"),
            cascade_percentage: true,
            back_into_percentage: true,
            ..Default::default()
        },
        LineItem {
            id: 3,
            priority: 300,
            cascade_under: 300,
            kind: LineType::Shield,
            percentage: String::from("10"),
            cascade_percentage: true,
            back_into_percentage: true,
            ..Default::default()
        },
    ];
    let (total, _discount, map) = get_totals(input, 2).unwrap();
    assert!(total.eq_units(&dec("11.55")));
    let mut sum: i128 = 0;
    for e in map.entries.iter() {
        sum += units(&e.value);
    }
    assert_eq!(units(&total), sum);
    assert!(map.get(2, 300).unwrap().eq_units(&dec("0.55")));
    assert!(map.get(3, 300).unwrap().eq_units(&dec("1.05")));
    assert!(map.get(1, 0).unwrap().eq_units(&dec("9.95")));
}

#[test]
fn repair_order_prefers_higher_priority_and_magnitude() {
    // Two fractional fees in one tier leave one quantum over; the fee with
    // the larger quantized value receives it, never the base line below.
    let input = vec![
        LineItem {
            id: 1,
            priority: 0,
            amount: String::from("10.00"),
            ..Default::default()
        },
        LineItem {
            id: 2,
            priority: 100,
            percentage: String::from("5.55"),
            ..Default::default()
        },
        LineItem {
            id: 3,
            priority: 100,
            percentage: String::from("3.35"),
            ..Default::default()
        },
    ];
    let (total, _discount, map) = get_totals(input, 2).unwrap();
    assert!(total.eq_units(&dec("10.89")));
    assert!(map.get(1, 0).unwrap().eq_units(&dec("10.00")));
    assert!(map.get(2, 100).unwrap().eq_units(&dec("0.56")));
    assert!(map.get(3, 100).unwrap().eq_units(&dec("0.33")));
}

#[test]
fn repair_order_breaks_ties_by_higher_id() {
    let input = vec![
        LineItem {
            id: 1,
            priority: 0,
            amount: String::from("10.00"),
            ..Default::default()
        },
        LineItem {
            id: 2,
            priority: 100,
            percentage: String::from("5.55"),
            ..Default::default()
        },
        LineItem {
            id: 3,
            priority: 100,
            percentage: String::from("5.55"),
            ..Default::default()
        },
    ];
    let (total, _discount, map) = get_totals(input, 2).unwrap();
    assert!(total.eq_units(&dec("11.11")));
    assert!(map.get(2, 100).unwrap().eq_units(&dec("0.55")));
    assert!(map.get(3, 100).unwrap().eq_units(&dec("0.56")));
}

#[test]
fn repair_negative_leftover_reduces_negative_lines() {
    let input = vec![
        LineItem {
            id: 1,
            priority: 0,
            amount: String::from("-0.555"),
            ..Default::default()
        },
        LineItem {
            id: 2,
            priority: 0,
            amount: String::from("-0.335"),
            ..Default::default()
        },
    ];
    let (total, _discount, map) = get_totals(input, 2).unwrap();
    assert!(total.eq_units(&dec("-0.89")));
    assert!(map.get(1, 0).unwrap().eq_units(&dec("-0.56")));
    assert!(map.get(2, 0).unwrap().eq_units(&dec("-0.33")));
}
