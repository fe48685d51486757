use watchlog::{
    filter_month, load_windows, render_duration, run_report, viewer_counts, duration_report,
    duration_totals, Record, Report, ReportKind, Timestamp,
};

fn rec(customer_id: u32, channel: &str, month: u32, epoch_seconds: u64, duration_seconds: u32) -> Record {
    Record::new(
        customer_id,
        String::from(channel),
        Timestamp::new(month, epoch_seconds),
        duration_seconds,
    )
}

#[test]
fn filter_unsupported_month_yields_empty() {
    // every record of the log lies in the supported window, so a month
    // outside it selects nothing
    let log = vec![
        rec(1, "A", 5, 1000, 10),
        rec(2, "B", 12, 2000, 20),
        rec(3, "C", 1, 3000, 30),
        rec(4, "D", 2, 4000, 40),
    ];
    assert_eq!(filter_month(&log, 3).len(), 0);
    assert_eq!(filter_month(&log, 4).len(), 0);
}

#[test]
fn filter_keeps_matching_records_in_order() {
    let log = vec![
        rec(1, "A", 5, 1000, 10),
        rec(2, "B", 6, 2000, 20),
        rec(3, "C", 5, 3000, 30),
    ];
    let picked = filter_month(&log, 5);
    assert_eq!(picked.len(), 2);
    assert_eq!(picked[0].customer_id, 1);
    assert_eq!(picked[0].channel, "A");
    assert_eq!(picked[1].customer_id, 3);
    assert_eq!(picked[1].channel, "C");
}

#[test]
fn filter_empty_input_yields_empty() {
    let log: Vec<Record> = Vec::new();
    assert_eq!(filter_month(&log, 5).len(), 0);
}

#[test]
fn duration_total_single_channel_is_exact_sum() {
    let log = vec![
        rec(1, "A", 5, 1000, 100),
        rec(2, "A", 5, 2000, 250),
        rec(3, "A", 5, 3000, 7),
    ];
    let totals = duration_totals(&log);
    assert_eq!(totals, vec![(String::from("A"), 357u64)]);
}

#[test]
fn duration_totals_partition_the_whole_log() {
    let log = vec![
        rec(1, "A", 5, 1000, 100),
        rec(2, "B", 5, 2000, 50),
        rec(3, "A", 5, 3000, 25),
        rec(4, "C", 5, 4000, 5),
    ];
    let totals = duration_totals(&log);
    let summed: u64 = totals.iter().map(|p| p.1).sum();
    assert_eq!(summed, 180);
    // sorted by total, largest first
    assert_eq!(totals[0], (String::from("A"), 125u64));
    assert_eq!(totals[1], (String::from("B"), 50u64));
    assert_eq!(totals[2], (String::from("C"), 5u64));
}

#[test]
fn render_90061_seconds() {
    // 1 day, 1 hour, 1 minute, 1 second -- exact integer decomposition
    assert_eq!(render_duration(90061), "1.1:1:1");
}

#[test]
fn render_zero_and_boundaries() {
    assert_eq!(render_duration(0), "0.0:0:0");
    assert_eq!(render_duration(59), "0.0:0:59");
    assert_eq!(render_duration(60), "0.0:1:0");
    assert_eq!(render_duration(86399), "0.23:59:59");
    assert_eq!(render_duration(86400), "1.0:0:0");
}

#[test]
fn unique_viewers_collapse_non_adjacent_duplicates() {
    // the duplicate (C1, U1) pair recurs non-adjacently and must still
    // collapse to one viewer
    let log = vec![
        rec(1, "C1", 5, 1000, 10),
        rec(2, "C1", 5, 2000, 10),
        rec(1, "C1", 5, 3000, 10),
        rec(1, "C2", 5, 4000, 10),
    ];
    let counts = viewer_counts(&log);
    assert_eq!(counts, vec![(String::from("C1"), 2u64), (String::from("C2"), 1u64)]);
}

#[test]
fn unique_viewers_adjacent_duplicates_too() {
    let log = vec![
        rec(1, "C1", 5, 1000, 10),
        rec(1, "C1", 5, 2000, 10),
        rec(2, "C1", 5, 3000, 10),
        rec(1, "C2", 5, 4000, 10),
    ];
    let counts = viewer_counts(&log);
    assert_eq!(counts, vec![(String::from("C1"), 2u64), (String::from("C2"), 1u64)]);
}

#[test]
fn same_window_sixty_seconds_apart() {
    // both records fall in the window [600, 900), so one bucket counts 2
    let log = vec![rec(1, "A", 5, 600, 10), rec(2, "B", 5, 660, 10)];
    let windows = load_windows(&log);
    assert_eq!(windows, vec![(600u64, 2u64)]);
}

#[test]
fn window_boundary_starts_a_new_window() {
    // 300 lies exactly on a boundary: it belongs to the window starting at
    // 300, not the one before it
    let log = vec![rec(1, "A", 5, 299, 10), rec(2, "B", 5, 300, 10)];
    let windows = load_windows(&log);
    assert_eq!(windows.len(), 2);
    assert!(windows.contains(&(0u64, 1u64)));
    assert!(windows.contains(&(300u64, 1u64)));
}

#[test]
fn only_twenty_busiest_windows_survive() {
    // 25 non-empty windows; window k (starting at k*300) gets k+1 records,
    // so the 20 busiest are those with counts 25 down to 6
    let mut log: Vec<Record> = Vec::new();
    for k in 0..25u64 {
        for n in 0..(k + 1) {
            log.push(rec((n + 1) as u32, "A", 5, k * 300 + n, 1));
        }
    }
    let windows = load_windows(&log);
    assert_eq!(windows.len(), 20);
    for (i, row) in windows.iter().enumerate() {
        let expected_count = 25 - i as u64;
        let expected_start = (expected_count - 1) * 300;
        assert_eq!(*row, (expected_start, expected_count));
    }
}

#[test]
fn running_a_strategy_twice_gives_identical_output() {
    let log = vec![
        rec(1, "A", 5, 1000, 100),
        rec(2, "B", 5, 2000, 100),
        rec(1, "B", 5, 3000, 50),
    ];
    assert_eq!(duration_totals(&log), duration_totals(&log));
    assert_eq!(viewer_counts(&log), viewer_counts(&log));
    assert_eq!(load_windows(&log), load_windows(&log));
    let first = duration_report(&log);
    let second = duration_report(&log);
    assert_eq!(first, second);
}

#[test]
fn end_to_end_duration_report_for_may() {
    // rows (1, "A", 2018-05-01 00:00:00, 100) and (2, "A", 2018-05-01
    // 00:01:00, 50), filtered to month 5: one row, 150 seconds
    let may_first = 1525125600u64;
    let log = vec![
        rec(1, "A", 5, may_first, 100),
        rec(2, "A", 5, may_first + 60, 50),
    ];
    match run_report(&log, 5, ReportKind::DurationSum) {
        Report::Durations(rows) => {
            assert_eq!(rows, vec![(String::from("A"), String::from("0.0:2:30"))]);
        }
        _ => panic!("wrong report variant"),
    }
}

#[test]
fn run_report_filters_before_counting_viewers() {
    let log = vec![
        rec(1, "A", 5, 1000, 10),
        rec(2, "A", 6, 2000, 10),
        rec(3, "A", 5, 3000, 10),
    ];
    match run_report(&log, 5, ReportKind::UniqueViewers) {
        Report::ViewerCounts(rows) => {
            assert_eq!(rows, vec![(String::from("A"), 2u64)]);
        }
        _ => panic!("wrong report variant"),
    }
}

#[test]
fn run_report_load_windows_of_empty_month_is_empty() {
    let log = vec![rec(1, "A", 5, 1000, 10)];
    match run_report(&log, 2, ReportKind::LoadBuckets) {
        Report::LoadWindows(rows) => assert_eq!(rows.len(), 0),
        _ => panic!("wrong report variant"),
    }
}

#[test]
fn ties_keep_first_appearance_order() {
    // equal totals: the channel first seen in the log comes first
    let log = vec![
        rec(1, "B", 5, 1000, 50),
        rec(2, "A", 5, 2000, 50),
        rec(3, "C", 5, 3000, 99),
    ];
    let totals = duration_totals(&log);
    assert_eq!(
        totals,
        vec![
            (String::from("C"), 99u64),
            (String::from("B"), 50u64),
            (String::from("A"), 50u64),
        ]
    );
}
