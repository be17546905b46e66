use wifi_presence::tracker::{Tracker, TrackerError};
use wifi_presence::types::{Network, PresenceInterval, PresenceRecord, Snapshot};

fn network(mac: &str, ssid: &str) -> Network {
    Network {
        mac: mac.to_string(),
        ssid: ssid.to_string(),
        channel: "6".to_string(),
        signal_level: "-40".to_string(),
        security: "WPA2".to_string(),
    }
}

fn snapshot(timestamp: u64, macs: &[&str]) -> Snapshot {
    Snapshot { timestamp, networks: macs.iter().map(|m| network(m, "net")).collect() }
}

fn interval(device: &str, start: u64, end: u64) -> PresenceInterval {
    PresenceInterval { device: device.to_string(), start, end }
}

fn intervals(records: &[PresenceRecord]) -> Vec<PresenceInterval> {
    records.iter().map(|r| r.interval.clone()).collect()
}

fn of_device(records: &[PresenceRecord], device: &str) -> Vec<PresenceInterval> {
    intervals(records).into_iter().filter(|i| i.device == device).collect()
}

#[test]
fn new_tracker_is_empty() {
    let mut tracker = Tracker::new();
    assert_eq!(tracker.clock(), 0);
    assert!(tracker.closed_intervals().is_empty());
    assert_eq!(tracker.open_span("A"), None);
    assert_eq!(tracker.latest("A"), None);
    assert!(tracker.report().is_empty());
    assert!(tracker.finalize(0).is_empty());
}

#[test]
fn single_sighting_gives_zero_length_interval() {
    let mut tracker = Tracker::new();
    assert_eq!(tracker.ingest(&snapshot(0, &["A"]), 5), Ok(()));
    assert_eq!(tracker.open_span("A"), Some((0, 0)));
    assert!(tracker.closed_intervals().is_empty());
    let records = tracker.finalize(0);
    assert_eq!(intervals(&records), vec![interval("A", 0, 0)]);
    assert_eq!(records[0].interval.duration(), Some(0));
}

#[test]
fn multi_gap_gives_two_intervals() {
    let mut tracker = Tracker::new();
    for t in [0u64, 1, 2, 10, 11] {
        assert_eq!(tracker.ingest(&snapshot(t, &["B"]), 5), Ok(()));
    }
    assert_eq!(tracker.closed_intervals(), vec![interval("B", 0, 2)]);
    assert_eq!(tracker.open_span("B"), Some((10, 11)));
    let records = tracker.finalize(11);
    assert_eq!(intervals(&records), vec![interval("B", 0, 2), interval("B", 10, 11)]);
    assert_eq!(records[0].interval.duration(), Some(2));
    assert_eq!(records[1].interval.duration(), Some(1));
}

#[test]
fn unseen_device_has_no_interval() {
    let mut tracker = Tracker::new();
    for t in [0u64, 3, 20, 21] {
        assert_eq!(tracker.ingest(&snapshot(t, &["A", "B"]), 5), Ok(()));
    }
    assert_eq!(tracker.open_span("C"), None);
    assert_eq!(tracker.latest("C"), None);
    let records = tracker.finalize(30);
    assert!(!records.is_empty());
    assert!(of_device(&records, "C").is_empty());
}

#[test]
fn interleaved_devices_do_not_merge() {
    let mut tracker = Tracker::new();
    // A at 0, 4, 8; B at 2, 6, 20.
    for (t, d) in [(0u64, "A"), (2, "B"), (4, "A"), (6, "B"), (8, "A"), (20, "B")] {
        assert_eq!(tracker.ingest(&snapshot(t, &[d]), 5), Ok(()));
    }
    let records = tracker.finalize(20);
    assert_eq!(of_device(&records, "A"), vec![interval("A", 0, 8)]);
    assert_eq!(of_device(&records, "B"), vec![interval("B", 2, 6), interval("B", 20, 20)]);
    assert_eq!(
        intervals(&records),
        vec![interval("B", 2, 6), interval("A", 0, 8), interval("B", 20, 20)]
    );
}

#[test]
fn one_device_alone_fares_as_among_others() {
    let times = [0u64, 3, 4, 12, 13, 30];
    let mut alone = Tracker::new();
    let mut crowded = Tracker::new();
    for (k, t) in times.iter().enumerate() {
        assert_eq!(alone.ingest(&snapshot(*t, &["A"]), 5), Ok(()));
        let others: &[&str] = if k % 2 == 0 { &["X", "A", "Y"] } else { &["A", "X"] };
        assert_eq!(crowded.ingest(&snapshot(*t, others), 5), Ok(()));
    }
    let alone = alone.finalize(30);
    let crowded = crowded.finalize(30);
    assert_eq!(of_device(&crowded, "A"), intervals(&alone));
    assert_eq!(
        intervals(&alone),
        vec![interval("A", 0, 4), interval("A", 12, 13), interval("A", 30, 30)]
    );
}

#[test]
fn gap_equal_to_threshold_keeps_span_open() {
    let mut tracker = Tracker::new();
    assert_eq!(tracker.ingest(&snapshot(100, &["A"]), 5), Ok(()));
    assert_eq!(tracker.ingest(&snapshot(105, &["A"]), 5), Ok(()));
    assert!(tracker.closed_intervals().is_empty());
    assert_eq!(tracker.open_span("A"), Some((100, 105)));
}

#[test]
fn gap_past_threshold_closes_span() {
    let mut tracker = Tracker::new();
    assert_eq!(tracker.ingest(&snapshot(100, &["A"]), 5), Ok(()));
    assert_eq!(tracker.ingest(&snapshot(106, &["A"]), 5), Ok(()));
    assert_eq!(tracker.closed_intervals(), vec![interval("A", 100, 100)]);
    assert_eq!(tracker.open_span("A"), Some((106, 106)));
}

#[test]
fn closed_intervals_end_after_start() {
    let mut tracker = Tracker::new();
    for (t, macs) in [
        (1u64, vec!["A", "B"]),
        (2, vec!["A"]),
        (9, vec!["B", "C"]),
        (15, vec!["A", "B", "C"]),
        (40, vec!["C"]),
    ] {
        assert_eq!(tracker.ingest(&snapshot(t, &macs), 5), Ok(()));
    }
    let records = tracker.finalize(41);
    assert_eq!(records.len(), 8);
    for record in &records {
        assert!(record.interval.start <= record.interval.end);
        assert!(record.interval.duration().is_some());
    }
}

#[test]
fn intervals_of_a_device_do_not_overlap() {
    let mut tracker = Tracker::new();
    for t in [0u64, 2, 10, 30, 31, 32, 50] {
        assert_eq!(tracker.ingest(&snapshot(t, &["A"]), 5), Ok(()));
    }
    let records = tracker.finalize(50);
    let a = of_device(&records, "A");
    assert_eq!(
        a,
        vec![interval("A", 0, 2), interval("A", 10, 10), interval("A", 30, 32), interval("A", 50, 50)]
    );
    for pair in a.windows(2) {
        assert!(pair[0].end < pair[1].start);
        assert!(pair[0].start <= pair[1].start);
    }
}

#[test]
fn finalize_twice_adds_nothing() {
    let mut tracker = Tracker::new();
    for t in [0u64, 1, 20] {
        assert_eq!(tracker.ingest(&snapshot(t, &["A", "B"]), 5), Ok(()));
    }
    let first = tracker.finalize(20);
    let second = tracker.finalize(25);
    assert_eq!(first.len(), 4);
    assert_eq!(first, second);
    assert_eq!(tracker.open_span("A"), None);
    assert_eq!(tracker.closed_intervals().len(), 4);
}

#[test]
fn finalize_closes_in_order_of_opening() {
    let mut tracker = Tracker::new();
    assert_eq!(tracker.ingest(&snapshot(0, &["B", "A"]), 5), Ok(()));
    assert_eq!(tracker.ingest(&snapshot(1, &["C", "A"]), 5), Ok(()));
    let records = tracker.finalize(1);
    assert_eq!(
        intervals(&records),
        vec![interval("B", 0, 0), interval("A", 0, 1), interval("C", 1, 1)]
    );
}

#[test]
fn finalize_ends_at_last_sighting_not_now() {
    let mut tracker = Tracker::new();
    assert_eq!(tracker.ingest(&snapshot(3, &["A"]), 5), Ok(()));
    assert_eq!(tracker.ingest(&snapshot(7, &["A"]), 5), Ok(()));
    let records = tracker.finalize(1000);
    assert_eq!(intervals(&records), vec![interval("A", 3, 7)]);
    assert_eq!(tracker.clock(), 7);
}

#[test]
fn zero_threshold_is_turned_away() {
    let mut tracker = Tracker::new();
    assert_eq!(tracker.ingest(&snapshot(0, &["A"]), 5), Ok(()));
    assert_eq!(tracker.ingest(&snapshot(9, &["A", "B"]), 0), Err(TrackerError::ThresholdNotPositive));
    assert_eq!(tracker.clock(), 0);
    assert_eq!(tracker.open_span("A"), Some((0, 0)));
    assert_eq!(tracker.open_span("B"), None);
    assert!(tracker.closed_intervals().is_empty());
}

#[test]
fn older_snapshot_is_turned_away() {
    let mut tracker = Tracker::new();
    assert_eq!(tracker.ingest(&snapshot(10, &["A"]), 5), Ok(()));
    assert_eq!(tracker.ingest(&snapshot(9, &["A", "B"]), 5), Err(TrackerError::TimestampRegressed));
    assert_eq!(tracker.clock(), 10);
    assert_eq!(tracker.open_span("A"), Some((10, 10)));
    assert_eq!(tracker.open_span("B"), None);
    // The same timestamp again is not older.
    assert_eq!(tracker.ingest(&snapshot(10, &["B"]), 5), Ok(()));
    assert_eq!(tracker.open_span("B"), Some((10, 10)));
}

#[test]
fn zero_threshold_is_reported_before_an_older_timestamp() {
    let mut tracker = Tracker::new();
    assert_eq!(tracker.ingest(&snapshot(10, &[]), 5), Ok(()));
    assert_eq!(tracker.ingest(&snapshot(1, &[]), 0), Err(TrackerError::ThresholdNotPositive));
}

#[test]
fn empty_snapshot_moves_the_clock_only() {
    let mut tracker = Tracker::new();
    assert_eq!(tracker.ingest(&snapshot(2, &["A"]), 5), Ok(()));
    assert_eq!(tracker.ingest(&snapshot(50, &[]), 5), Ok(()));
    assert_eq!(tracker.clock(), 50);
    assert_eq!(tracker.open_span("A"), Some((2, 2)));
    assert!(tracker.closed_intervals().is_empty());
    // The silence shows when the device is seen again.
    assert_eq!(tracker.ingest(&snapshot(51, &["A"]), 5), Ok(()));
    assert_eq!(tracker.closed_intervals(), vec![interval("A", 2, 2)]);
}

#[test]
fn device_twice_in_one_snapshot_counts_once_and_last_record_wins() {
    let mut tracker = Tracker::new();
    let twice = Snapshot { timestamp: 4, networks: vec![network("A", "first"), network("A", "second")] };
    assert_eq!(tracker.ingest(&twice, 5), Ok(()));
    assert_eq!(tracker.open_span("A"), Some((4, 4)));
    assert!(tracker.closed_intervals().is_empty());
    assert_eq!(tracker.latest("A"), Some(network("A", "second")));
    let records = tracker.finalize(4);
    assert_eq!(records, vec![PresenceRecord { interval: interval("A", 4, 4), network: network("A", "second") }]);
}

#[test]
fn report_carries_the_latest_record_of_each_device() {
    let mut tracker = Tracker::new();
    let early = Snapshot { timestamp: 0, networks: vec![network("A", "old name"), network("B", "b")] };
    let late = Snapshot { timestamp: 30, networks: vec![network("A", "new name")] };
    assert_eq!(tracker.ingest(&early, 5), Ok(()));
    assert_eq!(tracker.ingest(&late, 5), Ok(()));
    assert_eq!(
        tracker.report(),
        vec![PresenceRecord { interval: interval("A", 0, 0), network: network("A", "new name") }]
    );
    let records = tracker.finalize(30);
    assert_eq!(
        records,
        vec![
            PresenceRecord { interval: interval("A", 0, 0), network: network("A", "new name") },
            PresenceRecord { interval: interval("A", 30, 30), network: network("A", "new name") },
            PresenceRecord { interval: interval("B", 0, 0), network: network("B", "b") },
        ]
    );
}

#[test]
fn sighting_after_finalize_opens_a_new_span() {
    let mut tracker = Tracker::new();
    assert_eq!(tracker.ingest(&snapshot(0, &["A"]), 5), Ok(()));
    assert_eq!(tracker.ingest(&snapshot(2, &["A"]), 5), Ok(()));
    assert_eq!(tracker.finalize(2).len(), 1);
    assert_eq!(tracker.ingest(&snapshot(3, &["A"]), 5), Ok(()));
    assert_eq!(tracker.open_span("A"), Some((3, 3)));
    let records = tracker.finalize(3);
    assert_eq!(intervals(&records), vec![interval("A", 0, 2), interval("A", 3, 3)]);
}

#[test]
fn device_identifiers_are_compared_exactly() {
    let mut tracker = Tracker::new();
    assert_eq!(tracker.ingest(&snapshot(0, &["aa:bb", "AA:BB"]), 5), Ok(()));
    assert_eq!(tracker.finalize(0).len(), 2);
}

#[test]
fn duration_of_a_malformed_interval_is_none() {
    assert_eq!(interval("A", 5, 4).duration(), None);
    assert_eq!(interval("A", 4, 9).duration(), Some(5));
    assert_eq!(interval("A", 0, u64::MAX).duration(), Some(u64::MAX));
}

#[test]
fn timestamps_up_to_the_largest_are_taken() {
    let mut tracker = Tracker::new();
    assert_eq!(tracker.ingest(&snapshot(0, &["A"]), 5), Ok(()));
    assert_eq!(tracker.ingest(&snapshot(u64::MAX, &["A"]), u64::MAX), Ok(()));
    assert_eq!(tracker.open_span("A"), Some((0, u64::MAX)));
    assert_eq!(tracker.ingest(&snapshot(u64::MAX, &["A"]), 1), Ok(()));
    assert!(tracker.closed_intervals().is_empty());
}

#[test]
fn intervals_of_one_device_are_picked_in_order() {
    let mut tracker = Tracker::new();
    for (t, macs) in [(0u64, vec!["A", "B"]), (10, vec!["B"]), (20, vec!["A", "B"]), (30, vec!["A"])] {
        assert_eq!(tracker.ingest(&snapshot(t, &macs), 5), Ok(()));
    }
    assert_eq!(tracker.intervals_of("A"), vec![interval("A", 0, 0), interval("A", 20, 20)]);
    assert_eq!(tracker.intervals_of("B"), vec![interval("B", 0, 0), interval("B", 10, 10)]);
    assert!(tracker.intervals_of("C").is_empty());
    tracker.finalize(30);
    assert_eq!(
        tracker.intervals_of("A"),
        vec![interval("A", 0, 0), interval("A", 20, 20), interval("A", 30, 30)]
    );
    assert_eq!(
        tracker.intervals_of("B"),
        vec![interval("B", 0, 0), interval("B", 10, 10), interval("B", 20, 20)]
    );
}

#[test]
fn every_sighting_lies_in_an_interval_that_starts_and_ends_at_sightings() {
    let times = [3u64, 4, 9, 15, 16, 40, 45, 46, 60];
    let mut tracker = Tracker::new();
    for t in times {
        assert_eq!(tracker.ingest(&snapshot(t, &["A"]), 5), Ok(()));
    }
    let records = tracker.finalize(60);
    let found = intervals(&records);
    assert_eq!(
        found,
        vec![interval("A", 3, 9), interval("A", 15, 16), interval("A", 40, 46), interval("A", 60, 60)]
    );
    for t in times {
        assert_eq!(found.iter().filter(|i| i.start <= t && t <= i.end).count(), 1);
    }
    for i in &found {
        assert!(times.contains(&i.start));
        assert!(times.contains(&i.end));
    }
    for pair in found.windows(2) {
        assert!(pair[1].start - pair[0].end > 5);
    }
}
