use ksp_commnet_calculator::antenna::Antenna;
use ksp_commnet_calculator::report::{
    endpoint_lines, padded_left, padded_right, report_lines, table_row,
};
use ksp_commnet_calculator::usecase::{Endpoints, Output, SignalStrength};
use ksp_commnet_calculator::vessel::{EndpointInfo, Vessel};

fn antenna(name: &str, is_dsn: bool) -> Antenna {
    Antenna {
        name: name.to_string(),
        aliases: Vec::new(),
        power: 10,
        combine: true,
        combine_exp: 750_000,
        relay: false,
        is_dsn,
    }
}

fn vessel_info() -> EndpointInfo {
    let mut v = Vessel::new();
    v.add_antenna(antenna("HG-5", false), 12);
    v.add_antenna(antenna("RA-2", false), 1);
    v.info()
}

#[test]
fn padding_fills_up_to_the_width_and_never_cuts() {
    assert_eq!(padded_right("ab", 5), "ab   ");
    assert_eq!(padded_left("ab", 5), "   ab");
    assert_eq!(padded_right("abcdef", 5), "abcdef");
    assert_eq!(padded_left("abcde", 5), "abcde");
    assert_eq!(padded_right("", 0), "");
    assert_eq!(padded_left("\u{e9}", 3), format!("{:>3}", "\u{e9}"));
    assert_eq!(padded_right("\u{e9}t\u{e9}", 5), format!("{:<5}", "\u{e9}t\u{e9}"));
}

#[test]
fn endpoint_lines_show_the_kind_and_the_tally() {
    assert_eq!(
        endpoint_lines(&vessel_info(), "  "),
        vec!["Vessel:", "    Command Module", "    12x HG-5", "    RA-2"]
    );
    let mut v = Vessel::new();
    v.add_antenna(antenna("DSN Lv.3", true), 1);
    assert_eq!(endpoint_lines(&v.info(), "    "), vec!["DSN:", "        DSN Lv.3"]);
}

#[test]
fn table_row_aligns_its_columns() {
    let s = SignalStrength {
        section: "Kerbin - Mun".to_string(),
        at_min: Some(843_750),
        at_max: None,
    };
    assert_eq!(table_row(&s), "| Kerbin - Mun              |   84.4 % |       NA |");
    assert_eq!(table_row(&s), format!("| {:<25} | {:>8} | {:>8} |", "Kerbin - Mun", "84.4 %", "NA"));
}

#[test]
fn report_is_made_of_both_sides_the_reach_and_the_table() {
    let mut dsn = Vessel::new();
    dsn.add_antenna(antenna("DSN Lv.3", true), 1);
    let out = Output {
        endpoints: Endpoints { from: dsn.info(), to: vessel_info() },
        max_distance: 35_355_339,
        signal_strengthes: vec![
            SignalStrength {
                section: "near".to_string(),
                at_min: Some(1_000_000),
                at_max: Some(500_000),
            },
            SignalStrength { section: "far".to_string(), at_min: Some(12), at_max: None },
        ],
    };
    assert_eq!(
        report_lines(&out, "    "),
        vec![
            "From:",
            "DSN:",
            "        DSN Lv.3",
            "To:",
            "Vessel:",
            "        Command Module",
            "        12x HG-5",
            "        RA-2",
            "",
            "Max distance: 35.36 Mm",
            "",
            "|          Section          |   @Min   |   @Max   |",
            "|:--------------------------|---------:|---------:|",
            "| near                      |  100.0 % |   50.0 % |",
            "| far                       |    0.0 % |       NA |",
        ]
    );
}
