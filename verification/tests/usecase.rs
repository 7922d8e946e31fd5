use ksp_commnet_calculator::catalog::{AntennaRecord, Antennas};
use ksp_commnet_calculator::distance::{Distance, Distances, Strength};
use ksp_commnet_calculator::error::Error;
use ksp_commnet_calculator::range::Range;
use ksp_commnet_calculator::usecase::{Runner, SignalStrength};

fn record(name: &str, alias: &str, power: u64, exp: u32, is_dsn: bool) -> AntennaRecord {
    AntennaRecord {
        name: Some(name.to_string()),
        aliases: Some(vec![alias.to_string()]),
        power: Some(power),
        combine: Some(true),
        combine_exp: Some(exp),
        relay: Some(false),
        is_dsn: Some(is_dsn),
    }
}

fn catalog() -> Antennas {
    let mut c = Antennas::new();
    c.load(vec![
        record("Communotron 16", "C16", 500_000, 1_000_000, false),
        record("HG-5 High Gain Antenna", "HG-5", 5_000_000, 750_000, false),
        record("DSN Lv.3", "dsn3", 250_000_000_000, 750_000, true),
    ])
    .unwrap();
    c
}

fn stretches() -> Distances {
    Distances::new(vec![
        Distance { section: "near".to_string(), min: 0, max: 17_677_669_529 },
        Distance { section: "far".to_string(), min: 35_355_339_058, max: 35_355_339_059 },
        Distance { section: "before".to_string(), min: -5, max: 0 },
    ])
}

#[test]
fn get_strengthes_reports_each_stretch_in_order() {
    let d = stretches();
    let got = d.get_strengthes(Range::new(1000));
    assert_eq!(
        got,
        vec![
            Strength { section: "near", at_min: Some(1_000_000), at_max: None },
            Strength { section: "far", at_min: None, at_max: None },
            Strength { section: "before", at_min: Some(1_000_000), at_max: Some(1_000_000) },
        ]
    );
    assert!(Distances::new(Vec::new()).get_strengthes(Range::new(1000)).is_empty());
}

#[test]
fn unknown_antenna_is_reported_and_changes_nothing() {
    let mut r = Runner::new(catalog());
    let e = r.add_from_vessel_antenna(2, "nope").unwrap_err();
    assert_eq!(e.message(), "unknown antenna: nope");
    assert!(matches!(e, Error::Message(_)));
    let e = r.add_to_vessel_antenna(1, "").unwrap_err();
    assert_eq!(e.message(), "unknown antenna: ");
    let (from, to) = r.powers();
    assert_eq!(from.total, 5000);
    assert_eq!(to.total, 5000);
}

#[test]
fn antennas_go_to_the_side_that_was_named() {
    let mut r = Runner::new(catalog());
    assert_eq!(r.add_from_vessel_antenna(1, "dsn3"), Ok(()));
    assert_eq!(r.add_to_vessel_antenna(3, "C16"), Ok(()));
    let (from, to) = r.powers();
    assert_eq!(from.settled(), Some(250_000_000_000));
    assert_eq!(to.strongest, 500_000);
    assert_eq!(to.total, 1_505_000);
    assert_eq!(to.settled(), None);
    assert_eq!(r.antennas().get("HG-5").unwrap().power, 5_000_000);
}

#[test]
fn run_reports_both_sides_the_reach_and_the_strengths() {
    let mut r = Runner::new(catalog());
    r.add_from_vessel_antenna(1, "DSN Lv.3").unwrap();
    r.add_to_vessel_antenna(1, "HG-5").unwrap();
    r.add_to_vessel_antenna(2, "C16").unwrap();
    let (from, to) = r.powers();
    assert!(to.admits(5_005_000));
    // sqrt(250e9 * 5_005_000) = 1_118_592_866.05...
    let out = r.run(from.settled().unwrap() as u64, 5_005_000, &stretches()).unwrap();
    assert_eq!(out.max_distance, 1_118_592_866);
    assert_eq!(out.endpoints.from.endpoint_type, "DSN");
    assert_eq!(out.endpoints.to.endpoint_type, "Vessel");
    let names: Vec<(usize, &str)> =
        out.endpoints.to.antennas.iter().map(|(n, a)| (*n, a.name.as_str())).collect();
    assert_eq!(names, vec![(1, "Command Module"), (2, "Communotron 16"), (1, "HG-5 High Gain Antenna")]);
    assert_eq!(out.signal_strengthes.len(), 3);
    assert_eq!(
        out.signal_strengthes[0],
        SignalStrength { section: "near".to_string(), at_min: Some(1_000_000), at_max: None }
    );
    assert_eq!(out.signal_strengthes[2].at_min, Some(1_000_000));
    assert_eq!(out.signal_strengthes[2].at_max, Some(1_000_000));
}

#[test]
fn run_refuses_a_power_that_the_antennas_cannot_give() {
    let mut r = Runner::new(catalog());
    r.add_to_vessel_antenna(2, "C16").unwrap();
    let d = stretches();
    assert_eq!(r.run(5000, 400_000, &d).unwrap_err().message(), "power does not fit the antennas");
    assert!(r.run(5000, 1_005_001, &d).is_err());
    assert!(r.run(5001, 600_000, &d).is_err());
    assert!(r.run(5000, 600_000, &d).is_ok());
}
