use chrono::{DateTime, SecondsFormat};
use plant_dashboard::compact::compact_log_at;
use plant_dashboard::config::RETAIN_SECS;
use plant_dashboard::csv::{
    append_csv_rows, csv_row, load_csv, load_csv_at, load_dated, parse_csv_row,
};
use plant_dashboard::session::record_message;
use plant_dashboard::types::{DatedEntry, Depth, LogEntry, Message};
use plant_dashboard::written::WrittenBuckets;

/// 2024-05-01T12:00:00Z
const NOON: i64 = 1_714_564_800;

fn stamp(seconds: i64) -> String {
    DateTime::from_timestamp(seconds, 0).unwrap().to_rfc3339_opts(SecondsFormat::Secs, false)
}

fn entry(timestamp: &str, message: Message) -> LogEntry {
    LogEntry::new(timestamp.to_string(), message)
}

fn moisture(adc_raw: u16, depth: Depth) -> Message {
    Message::Moisture { adc_raw, depth }
}

fn plain(log: &[LogEntry]) -> Vec<(String, Message)> {
    log.iter().map(|e| (e.timestamp.clone(), e.message)).collect()
}

fn readable(lines: Vec<String>) -> Vec<Option<String>> {
    lines.into_iter().map(Some).collect()
}

#[test]
fn rows_are_rendered() {
    assert_eq!(
        csv_row(&entry("T", moisture(1234, Depth::Deep))),
        Some("T,moisture,1234,Deep,".to_string())
    );
    assert_eq!(
        csv_row(&entry("T", moisture(0, Depth::Shallow))),
        Some("T,moisture,0,Shallow,".to_string())
    );
    assert_eq!(csv_row(&entry("T", Message::Pump { duration_s: 22 })), Some("T,pump,,,22".to_string()));
    assert_eq!(csv_row(&entry("T", Message::Water { duration_s: 22 })), None);
}

#[test]
fn a_new_file_starts_with_the_header() {
    let entries = vec![
        entry("A", Message::Pump { duration_s: 1 }),
        entry("B", Message::Water { duration_s: 2 }),
        entry("C", moisture(3, Depth::Deep)),
    ];
    assert_eq!(
        append_csv_rows(&entries, true),
        vec!["timestamp,kind,adc_raw,depth,duration_s", "A,pump,,,1", "C,moisture,3,Deep,"]
    );
    assert_eq!(append_csv_rows(&entries, false), vec!["A,pump,,,1", "C,moisture,3,Deep,"]);
    assert_eq!(append_csv_rows(&Vec::new(), false), Vec::<String>::new());
}

#[test]
fn rows_are_read() {
    let read = |line: &str| parse_csv_row(line).map(|e| (e.timestamp, e.message));
    let some = |message: Message| Some(("T".to_string(), message));
    assert_eq!(read("T,moisture,1234,Deep,"), some(moisture(1234, Depth::Deep)));
    assert_eq!(read("T,moisture,1234,Shallow,"), some(moisture(1234, Depth::Shallow)));
    assert_eq!(read("T,moisture,+7,deep,whatever,else"), some(moisture(7, Depth::Shallow)));
    assert_eq!(read("T,pump,,,22"), some(Message::Pump { duration_s: 22 }));
    assert_eq!(read("T,pump,x,y,22"), some(Message::Pump { duration_s: 22 }));
    assert_eq!(read("T,pump,,,22,"), None);
    assert_eq!(read("T,pump,,,"), None);
    assert_eq!(read("T,pump,,,65536"), None);
    assert_eq!(read("T,moisture,,Deep,"), None);
    assert_eq!(read("T,moisture,65536,Deep,"), None);
    assert_eq!(read("T,moisture,1234,Deep"), None);
    assert_eq!(read("T,water,,,22"), None);
    assert_eq!(read("T,Pump,,,22"), None);
    assert_eq!(read(""), None);
    assert_eq!(read(",pump,,,1").map(|e| e.0), Some(String::new()));
}

#[test]
fn loading_passes_over_the_header_and_what_holds_no_entry() {
    let old = stamp(NOON - RETAIN_SECS);
    let recent = stamp(NOON - RETAIN_SECS + 1);
    let lines = vec![
        Some("2024-05-01T11:00:00Z,pump,,,9".to_string()),
        Some(format!("{old},moisture,5,Deep,")),
        None,
        Some("garbage".to_string()),
        Some(format!("{recent},moisture,6,Shallow,")),
        Some("someday,moisture,7,Deep,".to_string()),
        Some(format!("{recent},pump,,,22")),
    ];
    let loaded = load_csv_at(&lines, NOON);
    assert_eq!(loaded.total, 4);
    assert_eq!(
        plain(&loaded.entries),
        vec![
            (recent.clone(), moisture(6, Depth::Shallow)),
            (recent.clone(), Message::Pump { duration_s: 22 }),
        ]
    );
    assert!(loaded.written.contains(NOON - RETAIN_SECS, true));
    assert!(loaded.written.contains(NOON - RETAIN_SECS + 1, false));
    assert!(!loaded.written.contains(NOON - RETAIN_SECS + 1, true));
}

#[test]
fn an_empty_file_holds_nothing() {
    for lines in [vec![], vec![Some("timestamp,kind,adc_raw,depth,duration_s".to_string())], vec![None]] {
        let loaded = load_csv_at(&lines, NOON);
        assert_eq!(loaded.total, 0);
        assert!(loaded.entries.is_empty());
    }
}

#[test]
fn loading_goes_by_the_clock() {
    let now = chrono::Local::now().timestamp();
    let lines = vec![
        None,
        Some(format!("{},pump,,,1", stamp(now - RETAIN_SECS - 60))),
        Some(format!("{},pump,,,2", stamp(now - RETAIN_SECS + 60))),
    ];
    let loaded = load_csv(&lines);
    assert_eq!(loaded.total, 2);
    assert_eq!(loaded.entries.len(), 1);
    assert_eq!(loaded.entries[0].message, Message::Pump { duration_s: 2 });
}

#[test]
fn a_file_is_read_back_as_it_was_written() {
    let first = vec![
        entry(&stamp(NOON - 100), moisture(65535, Depth::Deep)),
        entry(&stamp(NOON - 90), Message::Water { duration_s: 3 }),
    ];
    let second = vec![
        entry(&stamp(NOON - 80), Message::Pump { duration_s: 0 }),
        entry(&stamp(NOON - 70), moisture(10, Depth::Shallow)),
    ];
    let mut lines = append_csv_rows(&first, true);
    lines.extend(append_csv_rows(&second, false));
    let loaded = load_csv_at(&readable(lines), NOON);
    let mut expected = plain(&first[..1]);
    expected.extend(plain(&second));
    assert_eq!(plain(&loaded.entries), expected);
}

#[test]
fn averages_are_not_written_again_after_a_restart() {
    let hour = NOON - 4 * 3600;
    let readings = || {
        vec![
            entry(&stamp(hour + 1), moisture(10, Depth::Deep)),
            entry(&stamp(hour + 3601), moisture(20, Depth::Shallow)),
        ]
    };
    let mut log = readings();
    let mut written = WrittenBuckets::new();
    let rows = compact_log_at(&mut log, &mut written, NOON);
    assert_eq!(rows.len(), 2);
    let mut restarted = load_csv_at(&readable(append_csv_rows(&rows, true)), NOON);
    assert_eq!(plain(&restarted.entries), plain(&rows));
    let mut log = readings();
    assert!(compact_log_at(&mut log, &mut restarted.written, NOON).is_empty());
}

#[test]
fn a_received_pump_event_is_read_back_from_the_file() {
    let mut log: Vec<LogEntry> = Vec::new();
    let mut written = WrittenBuckets::new();
    let update = record_message(&mut log, &mut written, Message::Pump { duration_s: 22 });
    assert_eq!(update.pump.len(), 1);
    let loaded = load_csv(&readable(append_csv_rows(&update.pump, true)));
    assert_eq!(plain(&loaded.entries), plain(&update.pump));
    assert_eq!(plain(&loaded.entries), plain(&log));
    assert_eq!(loaded.entries[0].message, Message::Pump { duration_s: 22 });
}

#[test]
fn loading_goes_by_the_instants_of_the_entries() {
    let dated = |instant: Option<(i64, u32)>, message: Message| DatedEntry {
        entry: entry("some stamp", message),
        instant,
    };
    let all = vec![
        dated(Some((NOON, 5)), moisture(1, Depth::Deep)),
        dated(None, moisture(2, Depth::Deep)),
        dated(Some((NOON - RETAIN_SECS, 0)), moisture(3, Depth::Shallow)),
        dated(Some((NOON - RETAIN_SECS + 1, 0)), Message::Pump { duration_s: 4 }),
    ];
    let (kept, written) = load_dated(&all, NOON);
    let messages: Vec<Message> = kept.iter().map(|e| e.entry.message).collect();
    assert_eq!(messages, vec![moisture(1, Depth::Deep), Message::Pump { duration_s: 4 }]);
    assert!(written.contains(NOON, true) && !written.contains(NOON, false));
    assert!(written.contains(NOON - RETAIN_SECS, false));
    assert!(!written.contains(NOON - RETAIN_SECS + 1, false));
}

#[test]
fn what_an_average_was_made_of_is_not_written() {
    let hour = NOON - 4 * 3600;
    let mut log = vec![
        entry(&stamp(hour + 1), moisture(10, Depth::Deep)),
        entry(&stamp(hour + 2), moisture(20, Depth::Deep)),
    ];
    let rows = compact_log_at(&mut log, &mut WrittenBuckets::new(), NOON);
    assert!(rows[0].tally.is_some());
    let loaded = load_csv_at(&readable(append_csv_rows(&rows, true)), NOON);
    assert!(loaded.entries[0].tally.is_none());
    assert_eq!(loaded.entries[0].message, moisture(15, Depth::Deep));
}
