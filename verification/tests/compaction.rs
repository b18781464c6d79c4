use chrono::{DateTime, SecondsFormat};
use plant_dashboard::compact::{compact_dated, compact_log, compact_log_at, Stamp};
use plant_dashboard::config::{RAW_WINDOW_SECS, RETAIN_SECS};
use plant_dashboard::hours::{floor_to_hour, hourly_means, HourMean};
use plant_dashboard::session::record_entry_at;
use plant_dashboard::types::{date_log, DatedEntry, Depth, LogEntry, Message, Tally};
use plant_dashboard::written::WrittenBuckets;

/// 2024-05-01T12:00:00Z
const NOON: i64 = 1_714_564_800;

fn stamp(seconds: i64) -> String {
    DateTime::from_timestamp(seconds, 0).unwrap().to_rfc3339_opts(SecondsFormat::Secs, false)
}

fn seconds(stamp: &str) -> i64 {
    DateTime::parse_from_rfc3339(stamp).unwrap().timestamp()
}

fn moisture(at: i64, adc_raw: u16, depth: Depth) -> LogEntry {
    LogEntry::new(stamp(at), Message::Moisture { adc_raw, depth })
}

fn pump(at: i64, duration_s: u16) -> LogEntry {
    LogEntry::new(stamp(at), Message::Pump { duration_s })
}

fn water(at: i64, duration_s: u16) -> LogEntry {
    LogEntry::new(stamp(at), Message::Water { duration_s })
}

fn dated(at: i64, message: Message) -> DatedEntry {
    DatedEntry { entry: LogEntry::new(stamp(at), message), instant: Some((at, 0)) }
}

fn hour_stamp(at: i64) -> Option<Stamp> {
    Some(Stamp { text: stamp(at), instant: Some((at, 0)) })
}

fn undated(log: &[DatedEntry]) -> Vec<(String, Message)> {
    log.iter().map(|e| (e.entry.timestamp.clone(), e.entry.message)).collect()
}

fn plain(log: &[LogEntry]) -> Vec<(String, Message)> {
    log.iter().map(|e| (e.timestamp.clone(), e.message)).collect()
}

fn reading(adc_raw: u16, depth: Depth) -> Message {
    Message::Moisture { adc_raw, depth }
}

#[test]
fn hours_start_on_the_hour() {
    assert_eq!(floor_to_hour(0), 0);
    assert_eq!(floor_to_hour(3599), 0);
    assert_eq!(floor_to_hour(3600), 3600);
    assert_eq!(floor_to_hour(NOON + 1234), NOON);
    assert_eq!(floor_to_hour(-1), -3600);
    assert_eq!(floor_to_hour(-3600), -3600);
    assert_eq!(floor_to_hour(-3601), -7200);
    assert_eq!(floor_to_hour(i64::MIN), i64::MIN);
    assert_eq!(floor_to_hour(i64::MIN + 3600), (i64::MIN + 3600).div_euclid(3600) * 3600);
    assert_eq!(floor_to_hour(i64::MAX), i64::MAX / 3600 * 3600);
}

#[test]
fn older_readings_are_averaged_by_hour_and_sensor() {
    let h = NOON - 2 * 3600;
    let log = vec![
        moisture(h + 3600, 1000, Depth::Deep),
        moisture(h + 10, 3, Depth::Shallow),
        moisture(h + 20, 4, Depth::Shallow),
        moisture(h + 30, 65535, Depth::Deep),
        pump(h + 40, 22),
        moisture(h + 50, 65534, Depth::Deep),
        moisture(NOON - RAW_WINDOW_SECS, 9, Depth::Deep),
        moisture(NOON - RAW_WINDOW_SECS - 1, 7, Depth::Deep),
        moisture(NOON - RETAIN_SECS, 9, Depth::Deep),
        LogEntry::new("yesterday".to_string(), reading(9, Depth::Deep)),
    ];
    assert_eq!(
        hourly_means(&date_log(&log), NOON),
        vec![
            HourMean { hour: h, deep: false, mean: 3, tally: Tally { sum: 7, count: 2 } },
            HourMean { hour: h, deep: true, mean: 65534, tally: Tally { sum: 131_069, count: 2 } },
            HourMean { hour: h + 3600, deep: true, mean: 503, tally: Tally { sum: 1007, count: 2 } },
        ]
    );
    assert_eq!(hourly_means(&Vec::new(), NOON), vec![]);
}

#[test]
fn compaction_keeps_events_and_raw_readings_and_averages_the_rest() {
    let h = NOON - 3 * 3600;
    let log = vec![
        water(NOON - RETAIN_SECS, 5),
        pump(NOON - RETAIN_SECS + 1, 21),
        moisture(h + 60, 100, Depth::Shallow),
        moisture(h + 120, 201, Depth::Shallow),
        moisture(h + 180, 400, Depth::Deep),
        water(h + 200, 22),
        moisture(NOON - 4000, 500, Depth::Deep),
        LogEntry::new("not a stamp".to_string(), Message::Pump { duration_s: 1 }),
        moisture(NOON - 1800, 600, Depth::Deep),
        moisture(NOON, 700, Depth::Deep),
    ];
    let mut log = date_log(&log);
    let mut written = WrittenBuckets::new();
    let stamps = vec![hour_stamp(h), hour_stamp(h), hour_stamp(NOON - 7200)];
    let rows = compact_dated(&mut log, &mut written, NOON, &stamps);
    assert_eq!(
        undated(&log),
        vec![
            (stamp(NOON - RETAIN_SECS + 1), Message::Pump { duration_s: 21 }),
            (stamp(h), reading(150, Depth::Shallow)),
            (stamp(h), reading(400, Depth::Deep)),
            (stamp(h + 200), Message::Water { duration_s: 22 }),
            (stamp(NOON - 7200), reading(500, Depth::Deep)),
            (stamp(NOON - 1800), reading(600, Depth::Deep)),
            (stamp(NOON), reading(700, Depth::Deep)),
        ]
    );
    assert_eq!(
        undated(&rows),
        vec![
            (stamp(h), reading(150, Depth::Shallow)),
            (stamp(h), reading(400, Depth::Deep)),
            (stamp(NOON - 7200), reading(500, Depth::Deep)),
        ]
    );
    assert!(written.contains(h, false) && written.contains(h, true));
    assert!(written.contains(NOON - 7200, true) && !written.contains(NOON - 7200, false));
}

#[test]
fn an_hour_is_sealed_once_its_end_is_older_than_the_raw_window() {
    // The hour from 10:00 to 11:00 is sealed from 11:30:01 on.
    let h = NOON - 7200;
    let edge = h + 3600 + RAW_WINDOW_SECS;
    let mut written = WrittenBuckets::new();
    let mut log = vec![dated(h + 100, reading(8, Depth::Deep))];
    let rows = compact_dated(&mut log, &mut written, edge, &vec![hour_stamp(h)]);
    assert!(rows.is_empty());
    assert!(!written.contains(h, true));
    assert_eq!(undated(&log), vec![(stamp(h), reading(8, Depth::Deep))]);
    let rows = compact_dated(&mut log, &mut written, edge + 1, &vec![hour_stamp(h)]);
    assert_eq!(undated(&rows), vec![(stamp(h), reading(8, Depth::Deep))]);
    assert!(written.contains(h, true));
    let rows = compact_dated(&mut log, &mut written, edge + 1, &vec![hour_stamp(h)]);
    assert!(rows.is_empty());
}

#[test]
fn an_hour_without_a_stamp_is_left_out() {
    let h = NOON - 7200;
    let mut written = WrittenBuckets::new();
    let mut log = vec![dated(h, reading(8, Depth::Deep)), dated(h, reading(4, Depth::Shallow))];
    let rows = compact_dated(&mut log, &mut written, NOON, &vec![None]);
    assert!(rows.is_empty());
    assert!(log.is_empty());
}

#[test]
fn a_stamp_that_cannot_be_read_is_never_sealed() {
    let h = NOON - 7200;
    let mut written = WrittenBuckets::new();
    let mut log = vec![dated(h, reading(8, Depth::Deep))];
    let stamps = vec![Some(Stamp { text: "+10000-01-01T00:00:00+00:00".to_string(), instant: None })];
    let rows = compact_dated(&mut log, &mut written, NOON, &stamps);
    assert!(rows.is_empty());
    assert_eq!(log.len(), 1);
}

#[test]
fn hours_are_stamped_in_the_local_zone() {
    let h = NOON - 4 * 3600;
    let mut log = vec![
        moisture(h + 60, 10, Depth::Deep),
        moisture(h + 61, 13, Depth::Deep),
        moisture(h + 3600, 5, Depth::Shallow),
        pump(h + 62, 22),
    ];
    let mut written = WrittenBuckets::new();
    let rows = compact_log_at(&mut log, &mut written, NOON);
    assert_eq!(rows.len(), 2);
    assert_eq!((seconds(&rows[0].timestamp), rows[0].message), (h, reading(11, Depth::Deep)));
    assert_eq!((seconds(&rows[1].timestamp), rows[1].message), (h + 3600, reading(5, Depth::Shallow)));
    assert_eq!(log.len(), 3);
    assert!(log.iter().any(|e| e.timestamp == stamp(h + 62)));
}

#[test]
fn compacting_again_changes_nothing() {
    let h = NOON - 5 * 3600;
    let mut log = vec![
        moisture(h + 60, 10, Depth::Deep),
        moisture(h + 61, 13, Depth::Deep),
        pump(h + 62, 22),
        moisture(h + 3700, 15, Depth::Deep),
        moisture(NOON - 10, 15, Depth::Deep),
    ];
    let mut written = WrittenBuckets::new();
    let rows = compact_log_at(&mut log, &mut written, NOON);
    assert_eq!(rows.len(), 2);
    let before = plain(&log);
    let rows = compact_log_at(&mut log, &mut written, NOON);
    assert!(rows.is_empty());
    assert_eq!(plain(&log), before);
}

#[test]
fn the_average_of_the_hour_at_the_limit_goes_with_the_next_compaction() {
    // The reading is retained, the start of its hour is not.
    let now = NOON + 1800;
    let mut log = vec![moisture(now - RETAIN_SECS + 1, 10, Depth::Deep)];
    let mut written = WrittenBuckets::new();
    compact_log_at(&mut log, &mut written, now);
    assert_eq!(log.len(), 1);
    assert_eq!(seconds(&log[0].timestamp), NOON - RETAIN_SECS);
    compact_log_at(&mut log, &mut written, now);
    assert!(log.is_empty());
}

#[test]
fn compaction_goes_by_the_clock() {
    let now = chrono::Local::now().timestamp();
    let mut log = vec![
        moisture(now - RETAIN_SECS - 60, 1, Depth::Deep),
        moisture(now - 7 * 3600, 2, Depth::Deep),
        moisture(now - 60, 3, Depth::Deep),
    ];
    let mut written = WrittenBuckets::new();
    let rows = compact_log(&mut log, &mut written);
    assert_eq!(rows.len(), 1);
    assert_eq!(rows[0].message, reading(2, Depth::Deep));
    assert_eq!(seconds(&rows[0].timestamp), (now - 7 * 3600) / 3600 * 3600);
    assert_eq!(log.len(), 2);
}

#[test]
fn times_far_from_the_present_do_no_harm() {
    let mut log = vec![moisture(NOON, 1, Depth::Deep)];
    let mut written = WrittenBuckets::new();
    assert!(compact_log_at(&mut log, &mut written, i64::MIN).is_empty());
    assert_eq!(log.len(), 1);
    assert!(compact_log_at(&mut log, &mut written, i64::MAX).is_empty());
    assert!(log.is_empty());
}

#[test]
fn written_averages_are_told_apart_by_hour_and_sensor() {
    let mut written = WrittenBuckets::new();
    assert!(!written.contains(3600, false));
    assert!(written.insert(3600, false));
    assert!(!written.insert(3600, false));
    assert!(written.contains(3600, false) && !written.contains(3600, true));
    assert!(written.insert(3600, true));
}

#[test]
fn an_hour_that_fills_up_gets_the_mean_of_all_its_readings() {
    // 2023-11-14T20:00:00Z
    let h = 1_699_992_000;
    let mut log = vec![
        moisture(h + 10 * 60, 100, Depth::Shallow),
        moisture(h + 20 * 60, 200, Depth::Shallow),
        moisture(h + 40 * 60, 300, Depth::Shallow),
    ];
    let mut written = WrittenBuckets::new();
    for (minute, mean) in [(45, 100), (55, 150), (75, 200), (91, 200)] {
        let rows = compact_log_at(&mut log, &mut written, h + minute * 60);
        assert_eq!(seconds(&log[0].timestamp), h);
        assert_eq!(log[0].message, reading(mean, Depth::Shallow));
        assert_eq!(rows.len(), if minute == 91 { 1 } else { 0 });
    }
    assert_eq!(log.len(), 1);
    assert_eq!(log[0].tally, Some(Tally { sum: 600, count: 3 }));
}

#[test]
fn a_reading_a_minute_is_averaged_by_the_hour() {
    let h = NOON;
    let mut log: Vec<LogEntry> = Vec::new();
    let mut written = WrittenBuckets::new();
    let mut sealed: Vec<LogEntry> = Vec::new();
    for minute in 0..180 {
        let at = h + minute * 60;
        let entry = moisture(at, minute as u16, Depth::Deep);
        let update = record_entry_at(&mut log, &mut written, entry, at);
        sealed.extend(update.sealed);
    }
    // 0 to 59, and 60 to 119; the third hour is still open.
    let rows: Vec<(i64, Message)> =
        sealed.iter().map(|e| (seconds(&e.timestamp), e.message)).collect();
    assert_eq!(rows, vec![(h, reading(29, Depth::Deep)), (h + 3600, reading(89, Depth::Deep))]);
    let means: Vec<(i64, Message)> = log
        .iter()
        .filter(|e| e.tally.is_some())
        .map(|e| (seconds(&e.timestamp), e.message))
        .collect();
    assert_eq!(
        means,
        vec![
            (h, reading(29, Depth::Deep)),
            (h + 3600, reading(89, Depth::Deep)),
            (h + 7200, reading(134, Depth::Deep)),
        ]
    );
    assert_eq!(log.len(), 3 + 31);
}

#[test]
fn compacting_in_between_changes_no_average() {
    let h = NOON - 2 * 3600;
    let early = [(h + 60, 10), (h + 120, 20), (h + 180, 33)];
    let late = [(h + 2000, 1000), (h + 3000, 2000)];
    let mut written = WrittenBuckets::new();
    let mut log: Vec<LogEntry> =
        early.iter().map(|&(at, value)| moisture(at, value, Depth::Deep)).collect();
    compact_log_at(&mut log, &mut written, h + 2000);
    compact_log_at(&mut log, &mut written, h + 2100);
    assert_eq!(log[0].message, reading(21, Depth::Deep));
    log.extend(late.iter().map(|&(at, value)| moisture(at, value, Depth::Deep)));
    compact_log_at(&mut log, &mut written, NOON);
    let mut other: Vec<LogEntry> =
        early.iter().chain(&late).map(|&(at, value)| moisture(at, value, Depth::Deep)).collect();
    compact_log_at(&mut other, &mut WrittenBuckets::new(), NOON);
    assert_eq!(plain(&log), plain(&other));
    assert_eq!(log[0].message, reading(612, Depth::Deep));
    assert_eq!(log[0].tally, other[0].tally);
}

#[test]
fn a_tally_counts_only_with_its_mean() {
    let h = NOON - 2 * 3600;
    let average = |adc_raw: u16, sum: u64, count: u64| DatedEntry {
        entry: LogEntry {
            timestamp: stamp(h),
            message: reading(adc_raw, Depth::Deep),
            tally: Some(Tally { sum, count }),
        },
        instant: Some((h, 0)),
    };
    let one = dated(h + 60, reading(100, Depth::Deep));
    let mean = |first: DatedEntry| hourly_means(&vec![first, one.clone()], NOON)[0];
    assert_eq!(mean(average(10, 95, 9)).tally, Tally { sum: 195, count: 10 });
    assert_eq!(mean(average(10, 95, 9)).mean, 19);
    assert_eq!(mean(average(11, 95, 9)).tally, Tally { sum: 111, count: 2 });
    assert_eq!(mean(average(10, 95, 0)).tally, Tally { sum: 110, count: 2 });
    // What does not fit is taken for one reading.
    let huge = mean(average(7, u64::MAX, u64::MAX / 7));
    assert_eq!(huge.mean, 7);
    assert_eq!(huge.tally, Tally { sum: 7, count: 1 });
}
