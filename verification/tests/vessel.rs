use ksp_commnet_calculator::antenna::{Antenna, EXPONENT_ONE};
use ksp_commnet_calculator::vessel::{tally, Vessel};

fn antenna(name: &str, power: u64, combine_exp: u32, is_dsn: bool) -> Antenna {
    Antenna {
        name: name.to_string(),
        aliases: Vec::new(),
        power,
        combine: combine_exp > 0,
        combine_exp,
        relay: false,
        is_dsn,
    }
}

fn entries(v: &Vessel) -> Vec<(usize, String)> {
    v.info().antennas.into_iter().map(|(n, a)| (n, a.name)).collect()
}

#[test]
fn new_vessel_carries_its_command_module() {
    let v = Vessel::new();
    let info = v.info();
    assert_eq!(info.endpoint_type, "Vessel");
    assert_eq!(entries(&v), vec![(1, "Command Module".to_string())]);
    assert_eq!(v.power().settled(), Some(5000));
}

#[test]
fn info_tallies_by_rising_name() {
    let mut v = Vessel::new();
    v.add_antenna(antenna("b", 10, 0, false), 2);
    v.add_antenna(antenna("HG-5", 10, 0, false), 1);
    v.add_antenna(antenna("b", 10, 0, false), 3);
    v.add_antenna(antenna("a", 10, 0, false), 1);
    v.add_antenna(antenna("Command Module", 1, 0, false), 1);
    assert_eq!(
        entries(&v),
        vec![
            (2, "Command Module".to_string()),
            (1, "HG-5".to_string()),
            (1, "a".to_string()),
            (5, "b".to_string()),
        ]
    );
    // the entry holds the first unit of its name
    assert_eq!(v.info().antennas[0].1.power, 5000);
}

#[test]
fn tally_of_nothing_is_empty() {
    assert!(tally(&Vec::new()).is_empty());
}

#[test]
fn tally_orders_names_by_their_characters() {
    let units = vec![
        antenna("ab", 1, 0, false),
        antenna("", 1, 0, false),
        antenna("a", 1, 0, false),
        antenna("B", 1, 0, false),
        antenna("\u{e9}", 1, 0, false),
        antenna("z", 1, 0, false),
        antenna("a", 2, 0, false),
    ];
    let mut expected: Vec<String> = units.iter().map(|a| a.name.clone()).collect();
    expected.sort();
    expected.dedup();
    let got: Vec<String> = tally(&units).into_iter().map(|(_, a)| a.name).collect();
    assert_eq!(got, expected);
}

#[test]
fn ground_station_antenna_takes_the_place_of_the_command_module() {
    let mut v = Vessel::new();
    v.add_antenna(antenna("HG-5", 10, 0, false), 2);
    v.add_antenna(antenna("DSN Lv.3", 250_000_000_000, 750_000, true), 1);
    v.add_antenna(antenna("HG-5", 10, 0, false), 2);
    assert_eq!(v.info().endpoint_type, "DSN");
    assert_eq!(entries(&v), vec![(1, "DSN Lv.3".to_string())]);
    assert_eq!(v.power().settled(), Some(250_000_000_000));
}

#[test]
fn vessel_with_stacked_antennas_has_no_settled_power() {
    let mut v = Vessel::new();
    v.add_antenna(antenna("A", 1000, EXPONENT_ONE, false), 2);
    let p = v.power();
    assert_eq!(p.strongest, 5000);
    assert_eq!(p.total, 7000);
    assert_eq!((p.weighted_units, p.weighted_millionths), (2000, 0));
    assert_eq!(p.settled(), None);
    assert!(p.admits(5000));
    assert!(p.admits(7000));
    assert!(!p.admits(4999));
    assert!(!p.admits(7001));
    assert!(v.range_to(&Vessel::new()).is_none());
}

#[test]
fn settled_power_admits_itself_only() {
    let p = Vessel::new().power();
    assert!(p.admits(5000));
    assert!(!p.admits(5001));
    assert!(!p.admits(4999));
}

#[test]
fn range_between_two_new_vessels() {
    let r = Vessel::new().range_to(&Vessel::new()).unwrap();
    assert_eq!(r.max_distance(), 5000);
    assert_eq!(r.to_string(), "5.00 km");
}
