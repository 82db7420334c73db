use charger_uptime::parser::{parse_input, ParseError};
use charger_uptime::{ChargerId, Interval, StationId};

#[test]
fn parse_valid_input_minimal() {
    let input = "[Stations]\n1 100\n\n[Charger Availability Reports]\n100 0 100 true\n";
    let (stations, reports) = parse_input(input).unwrap();
    assert_eq!(stations.len(), 1);
    assert_eq!(stations[0].id, StationId(1));
    assert_eq!(stations[0].chargers, vec![ChargerId(100)]);
    assert_eq!(reports.len(), 1);
    assert_eq!(reports[0].charger, ChargerId(100));
    assert_eq!(reports[0].interval, Interval { start: 0, end: 100 });
    assert!(reports[0].up);
}

#[test]
fn parse_invalid_header() {
    let input = "[Bad]\n1 100\n\n[Charger Availability Reports]\n100 0 100 true\n";
    assert!(parse_input(input).is_err());
}

#[test]
fn parse_missing_sections() {
    let input = "1 100\n100 0 100 true\n";
    assert!(parse_input(input).is_err());
}

#[test]
fn parse_requires_at_least_one_report() {
    let input = "[Stations]\n1 100\n\n[Charger Availability Reports]\n";
    assert!(parse_input(input).is_err());
}

#[test]
fn duplicate_station_id_rejected() {
    let input = "[Stations]\n1 100\n1 101\n\n[Charger Availability Reports]\n100 0 10 true\n101 0 10 false\n";
    assert!(parse_input(input).is_err());
}

#[test]
fn charger_in_multiple_stations_rejected() {
    let input = "[Stations]\n1 100\n2 100\n\n[Charger Availability Reports]\n100 0 10 true\n";
    assert!(parse_input(input).is_err());
}

#[test]
fn report_for_unknown_charger_rejected() {
    let input = "[Stations]\n1 100\n\n[Charger Availability Reports]\n999 0 10 true\n";
    assert!(parse_input(input).is_err());
}

#[test]
fn duplicate_header_rejected() {
    let input = "[Stations]\n1 100\n[Stations]\n2 200\n\n[Charger Availability Reports]\n100 0 10 true\n";
    assert!(parse_input(input).is_err());
}

#[test]
fn parse_several_stations_and_reports() {
    let input = "  [Stations]  \r\n0 1001 1002\n1 1003\n\n[Charger Availability Reports]\n1001 0 50000 true\n1001\t50000 100000 false\r\n1003 25000 75000 +1\n";
    let parsed = parse_input(input);
    assert!(parsed.is_err());
    let input = "  [Stations]  \r\n0 1001 1002\n1 1003\n\n[Charger Availability Reports]\n1001 0 50000 true\n1001\t50000 100000 false\r\n1003 +25000 75000 false";
    let (stations, reports) = parse_input(input).unwrap();
    assert_eq!(stations.len(), 2);
    assert_eq!(stations[0].id, StationId(0));
    assert_eq!(stations[0].chargers, vec![ChargerId(1001), ChargerId(1002)]);
    assert_eq!(stations[1].chargers, vec![ChargerId(1003)]);
    assert_eq!(reports.len(), 3);
    assert_eq!(reports[1].interval, Interval { start: 50000, end: 100000 });
    assert!(!reports[1].up);
    assert_eq!(reports[2].interval, Interval { start: 25000, end: 75000 });
}

#[test]
fn charger_repeated_on_one_line_rejected() {
    let input = "[Stations]\n1 100 100\n[Charger Availability Reports]\n100 0 10 true\n";
    assert!(parse_input(input).is_err());
}

#[test]
fn station_without_chargers_rejected() {
    let input = "[Stations]\n1\n[Charger Availability Reports]\n100 0 10 true\n";
    assert!(parse_input(input).is_err());
}

#[test]
fn report_with_end_not_after_start_rejected() {
    let input = "[Stations]\n1 100\n[Charger Availability Reports]\n100 10 10 true\n";
    assert!(parse_input(input).is_err());
}

#[test]
fn report_with_bad_flag_rejected() {
    let input = "[Stations]\n1 100\n[Charger Availability Reports]\n100 0 10 yes\n";
    assert!(parse_input(input).is_err());
}

#[test]
fn report_with_wrong_field_count_rejected() {
    let input = "[Stations]\n1 100\n[Charger Availability Reports]\n100 0 10\n";
    assert!(parse_input(input).is_err());
}

#[test]
fn out_of_range_numbers_rejected() {
    let input = "[Stations]\n4294967296 100\n[Charger Availability Reports]\n100 0 10 true\n";
    assert!(parse_input(input).is_err());
    let input = "[Stations]\n4294967295 100\n[Charger Availability Reports]\n100 0 18446744073709551615 true\n";
    let (stations, reports) = parse_input(input).unwrap();
    assert_eq!(stations[0].id, StationId(u32::MAX));
    assert_eq!(reports[0].interval.end, u64::MAX);
    let input = "[Stations]\n1 100\n[Charger Availability Reports]\n100 0 18446744073709551616 true\n";
    assert!(parse_input(input).is_err());
    let input = "[Stations]\n1 -100\n[Charger Availability Reports]\n100 0 10 true\n";
    assert!(parse_input(input).is_err());
}

#[test]
fn reports_section_may_come_first_only_for_known_chargers() {
    let input = "[Charger Availability Reports]\n100 0 10 true\n[Stations]\n1 100\n";
    assert!(parse_input(input).is_err());
}

#[test]
fn error_message_names_the_line() {
    let input = "[Stations]\n1 100\nx 200\n[Charger Availability Reports]\n100 0 10 true\n";
    match parse_input(input) {
        Err(ParseError::InvalidFormat(m)) => assert!(m.ends_with("at line 3")),
        Ok(_) => panic!("accepted a bad station id"),
    }
}
