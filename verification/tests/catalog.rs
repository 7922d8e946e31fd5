use ksp_commnet_calculator::catalog::{
    AntennaRecord, Antennas, DecodeError, Error, Fault, Field,
};

fn record(name: &str, aliases: &[&str], power: u64) -> AntennaRecord {
    AntennaRecord {
        name: Some(name.to_string()),
        aliases: Some(aliases.iter().map(|s| s.to_string()).collect()),
        power: Some(power),
        combine: Some(true),
        combine_exp: None,
        relay: Some(false),
        is_dsn: None,
    }
}

fn names(c: &Antennas) -> Vec<String> {
    c.iter().iter().map(|a| a.name.clone()).collect()
}

#[test]
fn empty_catalog_resolves_nothing() {
    let c = Antennas::new();
    assert!(c.get("anything").is_none());
    assert!(c.get("").is_none());
    assert!(c.iter().is_empty());
}

#[test]
fn alias_and_name_resolve_to_the_same_antenna() {
    let mut c = Antennas::new();
    assert_eq!(c.load(vec![record("HG-5 High Gain Antenna", &["HG-5", "hg5"], 5_000_000)]), Ok(()));
    let by_name = c.get("HG-5 High Gain Antenna").unwrap();
    let by_alias = c.get("hg5").unwrap();
    assert_eq!(by_name.name, by_alias.name);
    assert_eq!(by_name.power, by_alias.power);
    assert_eq!(by_name.aliases, by_alias.aliases);
    assert_eq!(by_alias.power, 5_000_000);
    assert_eq!(c.get("HG-5").unwrap().name, "HG-5 High Gain Antenna");
}

#[test]
fn lookup_is_exact_and_unknown_text_gives_none() {
    let mut c = Antennas::new();
    c.load(vec![record("HG-5", &["hg5"], 5)]).unwrap();
    assert!(c.get("HG5").is_none());
    assert!(c.get("hg-5").is_none());
    assert!(c.get("HG-5 ").is_none());
    assert!(c.get("").is_none());
}

#[test]
fn defaults_apply_where_a_definition_is_silent() {
    let mut c = Antennas::new();
    let mut with_all = record("B", &[], 7);
    with_all.combine_exp = Some(1_000_000);
    with_all.is_dsn = Some(true);
    c.load(vec![record("A", &[], 5), with_all]).unwrap();
    let a = c.get("A").unwrap();
    assert_eq!(a.combine_exp, 750_000);
    assert!(!a.is_dsn);
    assert!(a.combine);
    assert!(!a.relay);
    let b = c.get("B").unwrap();
    assert_eq!(b.combine_exp, 1_000_000);
    assert!(b.is_dsn);
}

#[test]
fn iter_lists_each_antenna_once_by_rising_name() {
    let mut c = Antennas::new();
    c.load(vec![record("b", &[], 1), record("a", &[], 2), record("B", &[], 3), record("ab", &[], 4)])
        .unwrap();
    assert_eq!(names(&c), vec!["B", "a", "ab", "b"]);
    c.load(vec![record("a", &["x"], 9)]).unwrap();
    assert_eq!(names(&c), vec!["B", "a", "ab", "b"]);
    assert_eq!(c.get("a").unwrap().power, 9);
    assert_eq!(c.get("x").unwrap().power, 9);
}

#[test]
fn later_definitions_win() {
    let mut c = Antennas::new();
    c.load(vec![record("A", &["x"], 1), record("B", &["x"], 2)]).unwrap();
    assert_eq!(c.get("x").unwrap().name, "B");
    assert_eq!(c.get("A").unwrap().name, "A");
    // an alias may take over a name
    c.load(vec![record("C", &["A"], 3)]).unwrap();
    assert_eq!(c.get("A").unwrap().name, "C");
    assert_eq!(names(&c), vec!["A", "B", "C"]);
}

#[test]
fn faulty_definition_fails_the_whole_load() {
    let mut c = Antennas::new();
    c.load(vec![record("A", &[], 1)]).unwrap();
    let mut bad = record("C", &[], 3);
    bad.relay = None;
    let r = c.load(vec![record("B", &[], 2), bad, record("D", &[], 0)]);
    assert_eq!(
        r,
        Err(Error::Decode(DecodeError { record: 1, fault: Fault::Missing(Field::Relay) }))
    );
    assert!(c.get("B").is_none());
    assert_eq!(names(&c), vec!["A"]);
}

#[test]
fn each_fault_is_named() {
    let fault = |r: AntennaRecord| r.decode().unwrap_err();
    let mut r = record("A", &[], 1);
    r.name = None;
    r.aliases = None;
    assert_eq!(fault(r), Fault::Missing(Field::Name));
    let mut r = record("A", &[], 1);
    r.aliases = None;
    r.power = None;
    assert_eq!(fault(r), Fault::Missing(Field::Aliases));
    let mut r = record("A", &[], 1);
    r.power = None;
    assert_eq!(fault(r), Fault::Missing(Field::Power));
    let mut r = record("A", &[], 1);
    r.combine = None;
    assert_eq!(fault(r), Fault::Missing(Field::Combine));
    let mut r = record("A", &[], 1);
    r.relay = None;
    r.power = Some(0);
    assert_eq!(fault(r), Fault::Missing(Field::Relay));
    assert_eq!(fault(record("A", &[], 0)), Fault::PowerNotPositive);
    let mut r = record("A", &[], 1);
    r.combine_exp = Some(1_000_001);
    assert_eq!(fault(r), Fault::ExponentAboveOne);
    let mut r = record("A", &["a", "b"], 1);
    r.combine_exp = Some(1_000_000);
    let a = r.decode().unwrap();
    assert_eq!(a.aliases, vec!["a", "b"]);
    assert_eq!(a.combine_exp, 1_000_000);
}
