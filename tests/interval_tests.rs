use charger_uptime::interval::merge_intervals;
use charger_uptime::Interval;

#[test]
fn merge_overlapping_and_adjacent_intervals() {
    let mut v = vec![
        Interval { start: 0, end: 10 },
        Interval { start: 10, end: 20 },
        Interval { start: 5, end: 15 },
    ];
    let merged = merge_intervals(&mut v);
    assert_eq!(merged.len(), 1);
    assert_eq!(merged[0].start, 0);
    assert_eq!(merged[0].end, 20);
}

#[test]
fn merge_keeps_disjoint_intervals() {
    let mut v = vec![
        Interval { start: 0, end: 10 },
        Interval { start: 20, end: 30 },
    ];
    let merged = merge_intervals(&mut v);
    assert_eq!(merged.len(), 2);
}

#[test]
fn zero_length_and_invalid_ignored() {
    let mut v = vec![
        Interval { start: 10, end: 10 }, // zero-length
        Interval { start: 20, end: 15 }, // invalid
        Interval { start: 0, end: 1 },
    ];
    let merged = merge_intervals(&mut v);
    assert_eq!(merged, vec![Interval { start: 0, end: 1 }]);
}

#[test]
fn merge_of_empty_is_empty() {
    let mut v: Vec<Interval> = Vec::new();
    assert!(merge_intervals(&mut v).is_empty());
}

#[test]
fn merge_of_only_invalid_is_empty() {
    let mut v = vec![Interval { start: 5, end: 5 }, Interval { start: 9, end: 3 }];
    assert!(merge_intervals(&mut v).is_empty());
}

#[test]
fn nested_intervals_collapse_to_outer() {
    let mut v = vec![
        Interval { start: 2, end: 4 },
        Interval { start: 0, end: 10 },
        Interval { start: 3, end: 9 },
    ];
    assert_eq!(merge_intervals(&mut v), vec![Interval { start: 0, end: 10 }]);
}

#[test]
fn unsorted_input_comes_out_sorted_and_separated() {
    let mut v = vec![
        Interval { start: 50, end: 60 },
        Interval { start: 0, end: 5 },
        Interval { start: 20, end: 30 },
        Interval { start: 25, end: 40 },
    ];
    let merged = merge_intervals(&mut v);
    assert_eq!(
        merged,
        vec![
            Interval { start: 0, end: 5 },
            Interval { start: 20, end: 40 },
            Interval { start: 50, end: 60 },
        ]
    );
    for w in merged.windows(2) {
        assert!(w[0].end < w[1].start);
    }
}

#[test]
fn merge_leaves_valid_input_sorted() {
    let mut v = vec![
        Interval { start: 30, end: 40 },
        Interval { start: 7, end: 7 },
        Interval { start: 10, end: 20 },
    ];
    let _ = merge_intervals(&mut v);
    assert_eq!(
        v,
        vec![Interval { start: 10, end: 20 }, Interval { start: 30, end: 40 }]
    );
}

#[test]
fn merging_twice_changes_nothing() {
    let mut v = vec![
        Interval { start: 8, end: 12 },
        Interval { start: 0, end: 3 },
        Interval { start: 3, end: 5 },
        Interval { start: 11, end: 20 },
        Interval { start: 30, end: 30 },
    ];
    let mut once = merge_intervals(&mut v);
    let expected = once.clone();
    let twice = merge_intervals(&mut once);
    assert_eq!(twice, expected);
}

#[test]
fn merge_handles_largest_ticks() {
    let mut v = vec![
        Interval { start: u64::MAX - 10, end: u64::MAX },
        Interval { start: 0, end: u64::MAX - 10 },
    ];
    assert_eq!(
        merge_intervals(&mut v),
        vec![Interval { start: 0, end: u64::MAX }]
    );
}
