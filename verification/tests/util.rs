use ksp_commnet_calculator::range::Range;
use ksp_commnet_calculator::text::{decimal_string, str_lt};
use ksp_commnet_calculator::util::{format_strength, MetricPrefix};

#[test]
fn decimal_string_writes_every_digit() {
    assert_eq!(decimal_string(0), "0");
    assert_eq!(decimal_string(7), "7");
    assert_eq!(decimal_string(10), "10");
    assert_eq!(decimal_string(1234567890), "1234567890");
    assert_eq!(decimal_string(u128::MAX), u128::MAX.to_string());
}

#[test]
fn str_lt_is_the_order_of_strings() {
    let words = ["", "a", "ab", "b", "B", "a b", "\u{e9}", "z", "Command Module", "HG-5"];
    for a in words {
        for b in words {
            assert_eq!(str_lt(a, b), a < b);
        }
    }
}

#[test]
fn metric_prefix_scales_by_thousands() {
    assert_eq!(MetricPrefix(0).to_string(), "0.00");
    assert_eq!(MetricPrefix(999).to_string(), "999.00");
    assert_eq!(MetricPrefix(1_000).to_string(), "1.00 k");
    assert_eq!(MetricPrefix(1_234).to_string(), "1.23 k");
    assert_eq!(MetricPrefix(1_235).to_string(), "1.24 k");
    assert_eq!(MetricPrefix(999_999).to_string(), "1000.00 k");
    assert_eq!(MetricPrefix(1_000_000).to_string(), "1.00 M");
    assert_eq!(MetricPrefix(35_355_339).to_string(), "35.36 M");
    assert_eq!(MetricPrefix(999_999_999).to_string(), "1000.00 M");
    assert_eq!(MetricPrefix(1_000_000_000).to_string(), "1.00 G");
    assert_eq!(MetricPrefix(158_113_883_008).to_string(), "158.11 G");
    assert_eq!(MetricPrefix(u64::MAX).to_string(), "18446744073.71 G");
}

#[test]
fn range_is_shown_in_metres() {
    assert_eq!(Range::new(0).to_string(), "0.00 m");
    assert_eq!(Range::new(3162).to_string(), "3.16 km");
    assert_eq!(Range::new(999).to_string(), "999.00 m");
    assert_eq!(Range::new(2_005_000).to_string(), "2.01 Mm");
    assert_eq!(Range::new(158_113_883_008).to_string(), "158.11 Gm");
}

#[test]
fn strength_is_shown_in_per_cent() {
    assert_eq!(format_strength(None), "NA");
    assert_eq!(format_strength(Some(0)), "0.0 %");
    assert_eq!(format_strength(Some(1_000_000)), "100.0 %");
    assert_eq!(format_strength(Some(843_750)), "84.4 %");
    assert_eq!(format_strength(Some(499)), "0.0 %");
    assert_eq!(format_strength(Some(500)), "0.1 %");
    assert_eq!(format_strength(Some(999_500)), "100.0 %");
}
