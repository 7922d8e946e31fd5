use ksp_commnet_calculator::antenna::{default_combine_exp, Antenna, EXPONENT_ONE};
use ksp_commnet_calculator::endpoint::{Counts, Endpoint, Power};
use ksp_commnet_calculator::error::MessageError;

fn antenna(name: &str, power: u64, combine_exp: u32, is_dsn: bool) -> Antenna {
    Antenna {
        name: name.to_string(),
        aliases: Vec::new(),
        power,
        combine: combine_exp > 0,
        combine_exp,
        relay: false,
        is_dsn,
    }
}

fn stacked(parts: &[(Antenna, usize)]) -> Endpoint {
    let mut e = Endpoint::new();
    for (a, n) in parts {
        assert!(a.is_valid());
        e.add_antenna(a.clone(), *n);
    }
    e
}

#[test]
fn message_error_keeps_its_text() {
    let e = MessageError::new("unknown antenna: X");
    assert_eq!(e.message(), "unknown antenna: X");
}

#[test]
fn default_exponent_is_three_quarters() {
    assert_eq!(default_combine_exp(), 750_000);
    assert_eq!(EXPONENT_ONE, 1_000_000);
}

#[test]
fn command_module_is_the_reference_antenna() {
    let a = Antenna::command_module();
    assert_eq!(a.name, "Command Module");
    assert_eq!(a.power, 5000);
    assert!(!a.combine);
    assert_eq!(a.combine_exp, 0);
    assert!(!a.relay);
    assert!(!a.is_dsn);
    assert!(a.is_valid());
}

#[test]
fn antenna_with_zero_power_or_large_exponent_is_invalid() {
    assert!(!antenna("A", 0, 0, false).is_valid());
    assert!(!antenna("A", 1, EXPONENT_ONE + 1, false).is_valid());
    assert!(antenna("A", 1, EXPONENT_ONE, false).is_valid());
}

#[test]
fn new_endpoint_is_an_empty_vessel() {
    let e = Endpoint::new();
    assert!(e.is_empty());
    assert_eq!(e.endpoint_type(), "Vessel");
}

#[test]
fn add_antenna_appends_count_units_in_order() {
    let e = stacked(&[(antenna("A", 10, 0, false), 2), (antenna("B", 20, 0, false), 1)]);
    let names: Vec<&str> = e.antennas().iter().map(|a| a.name.as_str()).collect();
    assert_eq!(names, vec!["A", "A", "B"]);
    assert!(!e.is_empty());
}

#[test]
fn add_antenna_with_count_zero_changes_nothing() {
    let e = stacked(&[(antenna("A", 10, 0, false), 0)]);
    assert!(e.is_empty());
}

#[test]
fn ground_station_antenna_replaces_and_locks() {
    let mut e = stacked(&[(antenna("A", 10, 0, false), 3)]);
    e.add_antenna(antenna("DSN", 99, 750_000, true), 5);
    assert_eq!(e.endpoint_type(), "DSN");
    assert_eq!(e.antennas().len(), 1);
    e.add_antenna(antenna("B", 20, 0, false), 2);
    e.add_antenna(antenna("DSN2", 77, 0, true), 1);
    assert_eq!(e.antennas().len(), 1);
    assert_eq!(e.antennas()[0].name, "DSN");
    assert_eq!(e.power().settled(), Some(99));
}

#[test]
fn ground_station_antenna_with_count_zero_still_locks() {
    let mut e = Endpoint::new();
    e.add_antenna(antenna("DSN", 99, 0, true), 0);
    assert_eq!(e.endpoint_type(), "DSN");
    assert_eq!(e.antennas().len(), 1);
}

#[test]
fn strongest_antenna_is_the_last_of_the_strongest() {
    let e = stacked(&[
        (antenna("A", 10, 0, false), 1),
        (antenna("B", 30, 0, false), 1),
        (antenna("C", 30, 0, false), 1),
        (antenna("D", 20, 0, false), 1),
    ]);
    assert_eq!(e.strongest_antenna().name, "C");
}

#[test]
fn single_antenna_gives_its_own_power() {
    for exp in [0, 1, 750_000, EXPONENT_ONE] {
        let e = stacked(&[(antenna("A", 5000, exp, false), 1)]);
        assert_eq!(e.power().settled(), Some(5000));
    }
}

#[test]
fn exponent_zero_gives_the_strongest_power() {
    let e = stacked(&[(antenna("A", 1000, 0, false), 4), (antenna("B", 700, 0, false), 9)]);
    let p = e.power();
    assert_eq!(p.strongest, 1000);
    assert_eq!(p.total, 4 * 1000 + 9 * 700);
    assert_eq!((p.weighted_units, p.weighted_millionths), (0, 0));
    assert_eq!(p.settled(), Some(1000));
}

#[test]
fn exponent_one_gives_the_total_power() {
    let e = stacked(&[(antenna("A", 1000, EXPONENT_ONE, false), 2)]);
    let p = e.power();
    assert_eq!(
        p,
        Power { strongest: 1000, total: 2000, weighted_units: 2000, weighted_millionths: 0 }
    );
    assert_eq!(p.settled(), Some(2000));
}

#[test]
fn mixed_exponents_give_exact_terms_and_no_settled_power() {
    let e = stacked(&[(antenna("A", 5000, 0, false), 1), (antenna("B", 3, 750_001, false), 3)]);
    let p = e.power();
    // 3 units of 3 * 750_001 millionths = 6_750_009 millionths
    assert_eq!(
        p,
        Power { strongest: 5000, total: 5009, weighted_units: 6, weighted_millionths: 750_009 }
    );
    assert_eq!(p.settled(), None);
}

#[test]
fn weighted_sum_carries_into_whole_units() {
    let e = stacked(&[(antenna("A", 1, 600_000, false), 2)]);
    let p = e.power();
    assert_eq!((p.weighted_units, p.weighted_millionths), (1, 200_000));
}

#[test]
fn power_does_not_overflow_on_the_largest_units() {
    let e = stacked(&[(antenna("A", u64::MAX, EXPONENT_ONE, false), 3)]);
    let p = e.power();
    assert_eq!(p.total, 3 * (u64::MAX as u128));
    assert_eq!(p.settled(), Some(3 * (u64::MAX as u128)));
    assert!(e.range_to(&e).is_none());
}

#[test]
fn more_units_of_a_kind_never_lower_the_power() {
    let mut last = 0;
    for n in 1..6 {
        let e = stacked(&[(antenna("A", 1000, EXPONENT_ONE, false), n)]);
        let p = e.power().settled().unwrap();
        assert!(p >= last);
        last = p;
    }
    assert_eq!(last, 5000);
}

#[test]
fn antenna_counts_counts_units_by_name() {
    let e = stacked(&[
        (antenna("A", 10, 0, false), 2),
        (antenna("B", 20, 0, false), 1),
        (antenna("A", 11, 0, false), 3),
    ]);
    let counts = e.antenna_counts();
    let groups: Vec<(String, usize)> = counts.iter().map(|(a, n)| (a.name.clone(), *n)).collect();
    assert_eq!(groups, vec![("A".to_string(), 5), ("B".to_string(), 1)]);
    // each entry holds the first unit of its name
    assert_eq!(counts[0].0.power, 10);
    let total: usize = counts.iter().map(|(_, n)| *n).sum();
    assert_eq!(total, e.antennas().len());
    // asking again gives the same, and the endpoint is as it was
    let again: Vec<(String, usize)> =
        e.antenna_counts().iter().map(|(a, n)| (a.name.clone(), *n)).collect();
    assert_eq!(again, groups);
    assert_eq!(e.antennas().len(), 6);
    assert!(Endpoint::new().antenna_counts().is_empty());
}

#[test]
fn antenna_counts_keeps_the_order_of_first_attachment() {
    let e = stacked(&[
        (antenna("z", 1, 0, false), 1),
        (antenna("a", 1, 0, false), 1),
        (antenna("m", 1, 0, false), 2),
        (antenna("a", 1, 0, false), 1),
        (antenna("z", 1, 0, false), 1),
    ]);
    let groups: Vec<(&str, usize)> =
        e.antenna_counts().iter().map(|(a, n)| (a.name.as_str(), *n)).collect();
    assert_eq!(groups, vec![("z", 2), ("a", 2), ("m", 2)]);
}

#[test]
fn range_to_is_the_same_from_either_side() {
    let a = stacked(&[(antenna("A", 5000, 0, false), 1)]);
    let b = stacked(&[(antenna("B", 1000, EXPONENT_ONE, false), 2)]);
    let there = a.range_to(&b).unwrap();
    let back = b.range_to(&a).unwrap();
    assert_eq!(there.max_distance(), back.max_distance());
    assert_eq!(there.max_distance(), 3162);
}

#[test]
fn range_to_needs_settled_powers() {
    let a = stacked(&[(antenna("A", 5000, 0, false), 1)]);
    let b = stacked(&[(antenna("A", 5000, 0, false), 1), (antenna("B", 100, 750_000, false), 2)]);
    assert!(a.range_to(&b).is_none());
    assert!(b.range_to(&a).is_none());
}

#[test]
fn end_to_end_link_between_two_small_endpoints() {
    let a = stacked(&[(antenna("A", 5000, 123, false), 1)]);
    assert_eq!(a.power().settled(), Some(5000));
    let b = stacked(&[(antenna("B", 1000, EXPONENT_ONE, false), 2)]);
    assert_eq!(b.power().settled(), Some(2000));
    let range = a.range_to(&b).unwrap();
    assert_eq!(range.max_distance(), 3162);
    assert_eq!(range.strength_at(0), Some(1_000_000));
    assert_eq!(range.strength_at(3162), None);
    assert_eq!(range.strength_at(3163), None);
}

#[test]
fn counts_walks_run_by_run() {
    let units = vec![
        antenna("A", 10, 0, false),
        antenna("A", 11, 0, false),
        antenna("B", 20, 0, false),
        antenna("A", 12, 0, false),
    ];
    let mut walk = Counts::new(&units);
    let first = walk.next().unwrap();
    assert_eq!((first.0.power, first.1), (10, 2));
    let second = walk.next().unwrap();
    assert_eq!((second.0.name.as_str(), second.1), ("B", 1));
    let third = walk.next().unwrap();
    assert_eq!((third.0.power, third.1), (12, 1));
    assert!(walk.next().is_none());
    assert!(walk.next().is_none());
    assert!(Counts::new(&[]).next().is_none());
}
