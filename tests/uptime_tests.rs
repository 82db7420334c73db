use charger_uptime::uptime::{compute_station_uptime, UptimeError};
use charger_uptime::{ChargerId, ChargerReport, Interval, Station, StationId};

#[test]
fn single_charger_full_uptime() {
    let stations = vec![Station {
        id: StationId(1),
        chargers: vec![ChargerId(10)],
    }];
    let reports = vec![ChargerReport {
        charger: ChargerId(10),
        interval: Interval { start: 0, end: 100 },
        up: true,
    }];
    let res = compute_station_uptime(&stations, &reports).unwrap();
    assert_eq!(res, vec![(StationId(1), 100)]);
}

#[test]
fn gaps_count_as_downtime() {
    let stations = vec![Station {
        id: StationId(1),
        chargers: vec![ChargerId(10)],
    }];
    let reports = vec![
        ChargerReport {
            charger: ChargerId(10),
            interval: Interval { start: 0, end: 50 },
            up: true,
        },
        // gap 50..70 counts as down
        ChargerReport {
            charger: ChargerId(10),
            interval: Interval {
                start: 70,
                end: 100,
            },
            up: true,
        },
    ];
    let res = compute_station_uptime(&stations, &reports).unwrap();
    assert_eq!(res, vec![(StationId(1), 80)]); // up=80/100
}

#[test]
fn multiple_chargers_union_denominator_and_up() {
    // C1: [0,50) up; C2: [30,120) up
    // Denominator = union of spans [0,120); up union [0,120) => 100%
    let stations = vec![Station {
        id: StationId(1),
        chargers: vec![ChargerId(10), ChargerId(11)],
    }];
    let reports = vec![
        ChargerReport {
            charger: ChargerId(10),
            interval: Interval { start: 0, end: 50 },
            up: true,
        },
        ChargerReport {
            charger: ChargerId(11),
            interval: Interval {
                start: 30,
                end: 120,
            },
            up: true,
        },
    ];
    let res = compute_station_uptime(&stations, &reports).unwrap();
    assert_eq!(res, vec![(StationId(1), 100)]);
}

#[test]
fn rounding_down_behavior() {
    // up=99, reported=100 -> 99%
    let stations = vec![Station {
        id: StationId(1),
        chargers: vec![ChargerId(10)],
    }];
    let reports = vec![
        ChargerReport {
            charger: ChargerId(10),
            interval: Interval { start: 0, end: 99 },
            up: true,
        },
        ChargerReport {
            charger: ChargerId(10),
            interval: Interval {
                start: 99,
                end: 100,
            },
            up: false,
        },
    ];
    let res = compute_station_uptime(&stations, &reports).unwrap();
    assert_eq!(res, vec![(StationId(1), 99)]);
}

fn report(charger: u32, start: u64, end: u64, up: bool) -> ChargerReport {
    ChargerReport {
        charger: ChargerId(charger),
        interval: Interval { start, end },
        up,
    }
}

#[test]
fn station_without_reports_fails() {
    let stations = vec![
        Station {
            id: StationId(1),
            chargers: vec![ChargerId(10)],
        },
        Station {
            id: StationId(2),
            chargers: vec![ChargerId(20)],
        },
    ];
    let reports = vec![report(10, 0, 10, true)];
    assert_eq!(
        compute_station_uptime(&stations, &reports),
        Err(UptimeError::NoReporting(StationId(2)))
    );
}

#[test]
fn first_unreported_station_is_named() {
    let stations = vec![
        Station {
            id: StationId(7),
            chargers: vec![ChargerId(70)],
        },
        Station {
            id: StationId(3),
            chargers: vec![ChargerId(30)],
        },
    ];
    let reports: Vec<ChargerReport> = Vec::new();
    assert_eq!(
        compute_station_uptime(&stations, &reports),
        Err(UptimeError::NoReporting(StationId(7)))
    );
}

#[test]
fn results_sorted_by_station_id() {
    let stations = vec![
        Station {
            id: StationId(5),
            chargers: vec![ChargerId(50)],
        },
        Station {
            id: StationId(2),
            chargers: vec![ChargerId(20)],
        },
    ];
    let reports = vec![report(50, 0, 10, true), report(20, 0, 4, true), report(20, 4, 8, false)];
    assert_eq!(
        compute_station_uptime(&stations, &reports).unwrap(),
        vec![(StationId(2), 50), (StationId(5), 100)]
    );
}

#[test]
fn down_reports_alone_give_zero() {
    let stations = vec![Station {
        id: StationId(1),
        chargers: vec![ChargerId(1)],
    }];
    let reports = vec![report(1, 10, 20, false)];
    assert_eq!(
        compute_station_uptime(&stations, &reports).unwrap(),
        vec![(StationId(1), 0)]
    );
}

#[test]
fn overlapping_up_reports_do_not_exceed_full() {
    let stations = vec![Station {
        id: StationId(1),
        chargers: vec![ChargerId(1), ChargerId(2)],
    }];
    let reports = vec![
        report(1, 0, 100, true),
        report(2, 0, 100, true),
        report(1, 20, 60, true),
    ];
    assert_eq!(
        compute_station_uptime(&stations, &reports).unwrap(),
        vec![(StationId(1), 100)]
    );
}

#[test]
fn one_third_rounds_down() {
    let stations = vec![Station {
        id: StationId(4),
        chargers: vec![ChargerId(1)],
    }];
    let reports = vec![report(1, 0, 1, true), report(1, 1, 3, false)];
    assert_eq!(
        compute_station_uptime(&stations, &reports).unwrap(),
        vec![(StationId(4), 33)]
    );
}

#[test]
fn largest_ticks_do_not_overflow() {
    let stations = vec![Station {
        id: StationId(1),
        chargers: vec![ChargerId(1)],
    }];
    let reports = vec![
        report(1, 0, u64::MAX, false),
        report(1, 0, u64::MAX / 2, true),
    ];
    assert_eq!(
        compute_station_uptime(&stations, &reports).unwrap(),
        vec![(StationId(1), 49)]
    );
}
