//! Tests of the tabulation engine's public interface.

use line_items::{
    frozen_lines, get_totals, lines_by_priority, parse_dec, reckon_lines, Dec, LineItem,
    LineValueMap, TabulationError,
};

fn dec(s: &str) -> Dec {
    parse_dec(s).unwrap()
}

fn value_of(map: &LineValueMap, id: i32, priority: i16) -> Dec {
    map.get(id, priority).unwrap()
}

fn assert_value(map: &LineValueMap, id: i32, priority: i16, expected: &str) {
    let v = value_of(map, id, priority);
    assert!(
        v.eq_units(&dec(expected)),
        "line {} at priority {} resolved to {:?}, expected {}",
        id,
        priority,
        v,
        expected
    );
}

fn sum_entries(map: &LineValueMap) -> i128 {
    let mut sum: i128 = 0;
    for e in map.entries.iter() {
        let mut unit: i128 = 1;
        let mut k = e.value.scale;
        while k < 28 {
            unit *= 10;
            k += 1;
        }
        sum += e.value.mantissa * unit;
    }
    sum
}

fn units(d: &Dec) -> i128 {
    let mut unit: i128 = 1;
    let mut k = d.scale;
    while k < 28 {
        unit *= 10;
        k += 1;
    }
    d.mantissa * unit
}

#[test]
fn test_single_line() {
    let input = vec![LineItem {
        amount: String::from("10.00"),
        priority: 0,
        id: 1,
        ..Default::default()
    }];
    let (total, discount, map) = get_totals(input, 2).unwrap();
    assert!(total.eq_units(&dec("10.00")));
    assert!(discount.eq_units(&dec("0.00")));
    assert_value(&map, 1, 0, "10.00");
}

#[test]
fn test_get_totals_percentage_line() {
    let input = vec![
        LineItem {
            amount: String::from("10.00"),
            priority: 0,
            id: 1,
            ..Default::default()
        },
        LineItem {
            percentage: String::from("10.00"),
            priority: 1,
            id: 2,
            ..Default::default()
        },
    ];
    let (total, discount, map) = get_totals(input, 2).unwrap();
    assert!(total.eq_units(&dec("11.00")));
    assert!(discount.eq_units(&dec("0.00")));
    assert_value(&map, 1, 0, "10.00");
    assert_value(&map, 2, 1, "1.00");
}

#[test]
fn test_get_totals_percentage_with_static() {
    let input = vec![
        LineItem {
            amount: String::from("10.00"),
            priority: 0,
            id: 1,
            ..Default::default()
        },
        LineItem {
            percentage: String::from("10"),
            amount: String::from("0.25"),
            priority: 1,
            id: 2,
            ..Default::default()
        },
    ];
    let (total, discount, map) = get_totals(input, 2).unwrap();
    assert!(total.eq_units(&dec("11.25")));
    assert!(discount.eq_units(&dec("0.00")));
    assert_value(&map, 1, 0, "10.00");
    assert_value(&map, 2, 1, "1.25");
    assert_eq!(units(&total), sum_entries(&map));
}

#[test]
fn test_get_totals_concurrent_priorities() {
    let input = vec![
        LineItem {
            amount: String::from("10.00"),
            priority: 0,
            id: 1,
            ..Default::default()
        },
        LineItem {
            amount: String::from("2.00"),
            priority: 10,
            id: 1,
            ..Default::default()
        },
        LineItem {
            percentage: String::from("10"),
            amount: String::from(".05"),
            priority: 100,
            id: 2,
            ..Default::default()
        },
        LineItem {
            percentage: String::from("5"),
            amount: String::from("0.08"),
            priority: 100,
            id: 3,
            ..Default::default()
        },
    ];
    let (total, discount, map) = get_totals(input, 2).unwrap();
    assert!(total.eq_units(&dec("13.93")));
    assert!(discount.eq_units(&dec("0")));
    assert_value(&map, 1, 0, "10.00");
    assert_value(&map, 1, 10, "2.00");
    assert_value(&map, 2, 100, "1.25");
    assert_value(&map, 3, 100, "0.68");
    assert_eq!(units(&total), sum_entries(&map));
}

#[test]
fn test_negative_total() {
    let input = vec![
        LineItem {
            id: 1,
            amount: String::from("0.00"),
            priority: 0,
            ..Default::default()
        },
        LineItem {
            id: 2,
            priority: 100,
            amount: String::from("-8.00"),
            ..Default::default()
        },
    ];
    let (total, discount, map) = get_totals(input, 2).unwrap();
    assert!(total.eq_units(&dec("-8")));
    assert!(discount.eq_units(&dec("-8")));
    assert_value(&map, 1, 0, "0");
    assert_value(&map, 2, 100, "-8.00");
    assert_eq!(units(&total), sum_entries(&map));
}

#[test]
fn test_negative_percentage() {
    let input = vec![
        LineItem {
            id: 1,
            amount: String::from("10.00"),
            priority: 0,
            ..Default::default()
        },
        LineItem {
            id: 2,
            priority: 100,
            percentage: String::from("-10.00"),
            ..Default::default()
        },
    ];
    let (total, discount, map) = get_totals(input, 2).unwrap();
    assert!(total.eq_units(&dec("9")));
    assert!(discount.eq_units(&dec("-1")));
    assert_value(&map, 1, 0, "10");
    assert_value(&map, 2, 100, "-1.00");
    assert_eq!(units(&total), sum_entries(&map));
}

#[test]
fn test_frozen_values() {
    let input = vec![
        LineItem {
            id: 1,
            amount: String::from("10.00"),
            priority: 0,
            frozen_value: Some(String::from("4.00")),
            ..Default::default()
        },
        LineItem {
            id: 2,
            priority: 100,
            percentage: String::from("-10.00"),
            frozen_value: Some(String::from("3.50")),
            ..Default::default()
        },
    ];
    let (total, discount, map) = get_totals(input, 2).unwrap();
    assert!(total.eq_units(&dec("7.50")));
    assert!(discount.eq_units(&dec("0")));
    assert_value(&map, 1, 0, "4");
    assert_value(&map, 2, 100, "3.50");
}

#[test]
fn test_ignores_on_mixed_frozenness() {
    // Mixed freezing is an error: frozen values are never silently ignored,
    // and no computed result comes back for such a batch.
    let input = vec![
        LineItem {
            id: 1,
            amount: String::from("10.00"),
            priority: 0,
            frozen_value: Some(String::from("4.00")),
            ..Default::default()
        },
        LineItem {
            id: 2,
            priority: 100,
            percentage: String::from("-10.00"),
            frozen_value: None,
            ..Default::default()
        },
    ];
    let error = get_totals(input, 2).unwrap_err();
    assert_eq!(error, TabulationError::ErrorString(String::from("Unfrozen line found!")));
}

#[test]
fn test_errors_on_mixed_frozenness_inner() {
    let input = vec![
        LineItem {
            id: 1,
            amount: String::from("10.00"),
            priority: 0,
            frozen_value: Some(String::from("4.00")),
            ..Default::default()
        },
        LineItem {
            id: 2,
            priority: 100,
            percentage: String::from("-10.00"),
            frozen_value: None,
            ..Default::default()
        },
    ];
    let error = frozen_lines(input).unwrap_err();
    assert_eq!(error, TabulationError::ErrorString(String::from("Unfrozen line found!")));
}

#[test]
fn test_discount_on_zero() {
    let input = vec![
        LineItem {
            id: 1,
            amount: String::from("0.00"),
            priority: 0,
            ..Default::default()
        },
        LineItem {
            id: 2,
            priority: 100,
            percentage: String::from("-10.00"),
            ..Default::default()
        },
    ];
    let (total, discount, map) = get_totals(input, 2).unwrap();
    assert!(total.eq_units(&dec("0")));
    assert!(discount.eq_units(&dec("0")));
    assert_value(&map, 1, 0, "0");
    assert_value(&map, 2, 100, "0");
    assert_eq!(units(&total), sum_entries(&map));
}

#[test]
fn test_zero_line() {
    let input = vec![
        LineItem {
            amount: String::from("19.56"),
            priority: 0,
            id: 1,
            ..Default::default()
        },
        LineItem {
            amount: String::from("2.75"),
            percentage: String::from("5.75"),
            priority: 300,
            id: 2,
            ..Default::default()
        },
        LineItem {
            amount: String::from("520.36"),
            priority: 100,
            id: 3,
            ..Default::default()
        },
        LineItem {
            amount: String::from("0.00"),
            priority: 100,
            id: 4,
            ..Default::default()
        },
    ];
    let (total, discount, map) = get_totals(input, 2).unwrap();
    assert!(total.eq_units(&dec("573.71")));
    assert!(discount.eq_units(&dec("0.00")));
    assert_value(&map, 1, 0, "19.56");
    assert_value(&map, 2, 300, "33.79");
    assert_value(&map, 3, 100, "520.36");
    assert_value(&map, 4, 100, "0.00");
    assert_eq!(units(&total), sum_entries(&map));
}

#[test]
fn test_complex_discount() {
    let input = vec![
        LineItem {
            amount: String::from("0.01"),
            priority: 0,
            id: 1,
            ..Default::default()
        },
        LineItem {
            amount: String::from("0.01"),
            priority: 100,
            id: 2,
            ..Default::default()
        },
        LineItem {
            amount: String::from("0.01"),
            priority: 100,
            id: 3,
            ..Default::default()
        },
        LineItem {
            amount: String::from("-5.00"),
            priority: 100,
            id: 4,
            ..Default::default()
        },
        LineItem {
            amount: String::from("10.00"),
            priority: 100,
            id: 5,
            ..Default::default()
        },
        LineItem {
            amount: String::from("0.75"),
            percentage: String::from("8"),
            priority: 300,
            id: 6,
            ..Default::default()
        },
    ];
    let (total, discount, map) = get_totals(input, 2).unwrap();
    assert!(total.eq_units(&dec("6.18")));
    assert!(discount.eq_units(&dec("-5.00")));
    assert_value(&map, 1, 0, "0.01");
    assert_value(&map, 2, 100, "0.01");
    assert_value(&map, 3, 100, "0.01");
    assert_value(&map, 4, 100, "-5.00");
    assert_value(&map, 5, 100, "10.00");
    assert_value(&map, 6, 300, "1.15");
    assert_eq!(units(&total), sum_entries(&map));
}

#[test]
fn test_reckon_lines() {
    let input = vec![
        LineItem {
            amount: String::from("1"),
            priority: 0,
            id: 1,
            ..Default::default()
        },
        LineItem {
            amount: String::from("5"),
            priority: 1,
            id: 2,
            ..Default::default()
        },
        LineItem {
            amount: String::from("4"),
            priority: 2,
            id: 3,
            ..Default::default()
        },
    ];
    assert!(reckon_lines(input, 2).unwrap().eq_units(&dec("10.00")));
}

#[test]
fn test_percentage() {
    let input = vec![
        LineItem {
            amount: String::from("5"),
            priority: 0,
            id: 1,
            ..Default::default()
        },
        LineItem {
            amount: String::from("1"),
            priority: 1,
            id: 2,
            ..Default::default()
        },
        LineItem {
            amount: String::from("4"),
            priority: 1,
            id: 3,
            ..Default::default()
        },
        LineItem {
            percentage: String::from("5"),
            back_into_percentage: true,
            priority: 100,
            id: 4,
            ..Default::default()
        },
    ];
    let (total, discount, map) = get_totals(input, 2).unwrap();
    assert!(total.eq_units(&dec("10.52")));
    assert!(discount.eq_units(&dec("0.00")));
    assert_value(&map, 1, 0, "5.00");
    assert_value(&map, 2, 1, "1.00");
    assert_value(&map, 3, 1, "4.00");
    assert_value(&map, 4, 100, "0.52");
}

#[test]
fn test_line_sort() {
    let input = vec![
        LineItem {
            amount: String::from("5"),
            priority: 1,
            id: 0,
            ..Default::default()
        },
        LineItem {
            amount: String::from("6"),
            priority: 2,
            id: 1,
            ..Default::default()
        },
        LineItem {
            amount: String::from("7"),
            priority: 3,
            id: 2,
            ..Default::default()
        },
        LineItem {
            amount: String::from("8"),
            priority: 3,
            id: 3,
            ..Default::default()
        },
        LineItem {
            amount: String::from("9"),
            priority: 2,
            id: 4,
            ..Default::default()
        },
        LineItem {
            amount: String::from("10"),
            priority: 0,
            id: 5,
            ..Default::default()
        },
    ];
    let priority_set = lines_by_priority(input.clone()).unwrap();
    assert_eq!(priority_set[0], vec![input[5].clone()]);
    assert_eq!(priority_set[1], vec![input[0].clone()]);
    assert_eq!(priority_set[2], vec![input[1].clone(), input[4].clone()]);
    assert_eq!(priority_set[3], vec![input[2].clone(), input[3].clone()]);
}
