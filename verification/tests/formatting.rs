use gas_test::comma_separate;
use gas_test::to_near_parts;
use gas_test::GAS_PER_NEAR;

#[test]
fn zero_renders_as_single_digit() {
    assert_eq!(comma_separate(0), "0");
}

#[test]
fn thousand_gets_one_separator() {
    assert_eq!(comma_separate(1000), "1,000");
}

#[test]
fn seven_digits_get_two_separators() {
    assert_eq!(comma_separate(1234567), "1,234,567");
}

#[test]
fn three_digits_stay_unchanged() {
    assert_eq!(comma_separate(999), "999");
}

#[test]
fn short_counts_have_no_separator() {
    for n in 0..1000u64 {
        assert!(!comma_separate(n).contains(','));
    }
}

#[test]
fn four_digits_get_a_separator_after_the_first() {
    assert_eq!(comma_separate(1001), "1,001");
    assert_eq!(comma_separate(9999), "9,999");
}

#[test]
fn exact_multiple_of_three_digits_has_no_leading_group_of_less() {
    assert_eq!(comma_separate(100000), "100,000");
    assert_eq!(comma_separate(123456789), "123,456,789");
}

#[test]
fn max_count_renders_fully_grouped() {
    assert_eq!(comma_separate(u64::MAX), "18,446,744,073,709,551,615");
}

#[test]
fn round_trip_recovers_the_count() {
    let cases: Vec<u64> = vec![
        0,
        9,
        10,
        999,
        1000,
        1001,
        123456,
        1000000,
        999999999,
        1_000_000_000_000_000,
        u64::MAX,
    ];
    for n in cases {
        let grouped = comma_separate(n);
        let stripped: String = grouped.chars().filter(|c| *c != ',').collect();
        assert_eq!(stripped.parse::<u64>().unwrap(), n);
    }
}

#[test]
fn whole_gas_unit_splits_cleanly() {
    assert_eq!(to_near_parts(GAS_PER_NEAR), (1, 0));
    assert_eq!(to_near_parts(0), (0, 0));
    assert_eq!(to_near_parts(GAS_PER_NEAR + 7), (1, 7));
}

#[test]
fn high_level_unit_of_one_scale_is_one() {
    let (whole, rest) = to_near_parts(1_000_000_000_000_000);
    assert_eq!(whole as f64 + rest as f64 / GAS_PER_NEAR as f64, 1.0);
    let (whole, rest) = to_near_parts(0);
    assert_eq!(whole as f64 + rest as f64 / GAS_PER_NEAR as f64, 0.0);
}

#[test]
fn grouped_and_scaled_outputs_agree() {
    let gas: u64 = 98_765_432_100_000;
    let (whole, rest) = to_near_parts(gas);
    let high_level = whole as f64 + rest as f64 / GAS_PER_NEAR as f64;
    let stripped: String = comma_separate(gas).chars().filter(|c| *c != ',').collect();
    let reparsed: u64 = stripped.parse().unwrap();
    let from_grouped = reparsed as f64 / GAS_PER_NEAR as f64;
    assert!((high_level - from_grouped).abs() < 1e-9);
}
