use chrono::{DateTime, Local, SecondsFormat};
use plant_dashboard::config::{
    from_args, monstera, yucca, ImageLevel, LIVENESS_SECS, RAW_WINDOW_SECS, RETAIN_SECS,
};
use plant_dashboard::clock::{read_stamp, FIRST_SECOND, LAST_SECOND};
use plant_dashboard::dashboard::{
    api_data, get_event_log, get_event_log_at, online_at, online_dated, serve_dashboard,
    serve_plant_image,
};
use plant_dashboard::session::{
    payload_len, record_entry_at, record_message, water_frame, writer_step, WriterAction,
    WriterEvent,
};
use plant_dashboard::types::{DatedEntry, Depth, LogEntry, Message, WaterRequest};
use plant_dashboard::watering::{
    check_auto_water, check_auto_water_at, check_auto_water_since, last_water_reference,
    last_water_reference_dated, post_water_command, server_start, AutoWater, WaterReply,
};
use plant_dashboard::written::WrittenBuckets;

/// 2024-05-01T12:00:00Z
const NOON: i64 = 1_714_564_800;
const DAY: i64 = 86_400;

fn stamp(seconds: i64) -> String {
    DateTime::from_timestamp(seconds, 0).unwrap().to_rfc3339_opts(SecondsFormat::Secs, false)
}

fn seconds(stamp: &str) -> i64 {
    DateTime::parse_from_rfc3339(stamp).unwrap().timestamp()
}

fn pump(timestamp: &str) -> LogEntry {
    LogEntry::new(timestamp.to_string(), Message::Pump { duration_s: 22 })
}

fn moisture(timestamp: &str) -> LogEntry {
    LogEntry::new(
        timestamp.to_string(),
        Message::Moisture { adc_raw: 7, depth: Depth::Shallow },
    )
}

fn args(words: &[&str]) -> Vec<String> {
    words.iter().map(|w| w.to_string()).collect()
}

#[test]
fn plants_are_selected_by_flag() {
    let p = from_args(&args(&["dashboard", "--yucca"])).unwrap();
    assert_eq!((p.name, p.display_name), ("yucca", "Yucca palm"));
    assert_eq!((p.bind_addr, p.http_addr), ("0.0.0.0:5000", "0.0.0.0:8080"));
    assert_eq!((p.csv_path, p.auto_water_interval_secs), ("yucca_log.csv", 14 * DAY));
    assert_eq!(p.auto_water_duration_s, 22);
    let p = from_args(&args(&["dashboard", "--monstera", "--yucca"])).unwrap();
    assert_eq!((p.name, p.display_name), ("monstera", "Monstera"));
    assert_eq!((p.bind_addr, p.http_addr), ("0.0.0.0:5001", "0.0.0.0:8081"));
    assert_eq!((p.csv_path, p.auto_water_interval_secs), ("monstera_log.csv", 10 * DAY));
    assert_eq!(p.auto_water_duration_s, 22);
    assert!(from_args(&args(&[])).is_none());
    assert!(from_args(&args(&["--yucca"])).is_none());
    assert!(from_args(&args(&["dashboard", "yucca"])).is_none());
    assert!(from_args(&args(&["dashboard", "--Yucca"])).is_none());
    assert!(from_args(&args(&["dashboard", "x", "--yucca"])).is_none());
}

#[test]
fn limits_are_as_documented() {
    assert_eq!(LIVENESS_SECS, 600);
    assert_eq!(RAW_WINDOW_SECS, 1800);
    assert_eq!(RETAIN_SECS, 1_209_600);
}

#[test]
fn pictures_are_found_by_name_and_level() {
    assert_eq!(yucca().image_path(ImageLevel::Drenched), "pics/yucca_drenched.png");
    assert_eq!(yucca().image_path(ImageLevel::Wet), "pics/yucca_wet.png");
    assert_eq!(monstera().image_path(ImageLevel::Happy), "pics/monstera_happy.png");
    assert_eq!(monstera().image_path(ImageLevel::Dry), "pics/monstera_dry.png");
    assert_eq!(monstera().image_path(ImageLevel::Parched), "pics/monstera_parched.png");
    assert_eq!(monstera().image_path(ImageLevel::Original), "pics/monstera_original.png");
}

#[test]
fn the_schedule_counts_from_the_latest_pump_event() {
    assert_eq!(last_water_reference(&vec![], 5), 5);
    assert_eq!(last_water_reference(&vec![moisture(&stamp(NOON))], 5), 5);
    let log = vec![pump(&stamp(NOON)), pump("2024-05-01T16:00:00+02:00"), moisture(&stamp(NOON))];
    assert_eq!(last_water_reference(&log, 5), NOON + 7200);
    // A stamp that cannot be read counts as none, whatever stands before it.
    assert_eq!(last_water_reference(&vec![pump(&stamp(NOON)), pump("noon")], 5), 5);
    assert_eq!(last_water_reference(&vec![pump("0000-01-01T00:00:00+23:59")], 5), -62_167_305_540);
    assert_eq!(last_water_reference(&vec![pump("9999-12-31T23:59:60-23:59")], 5), 253_402_387_139);
}

#[test]
fn water_is_due_once_the_interval_has_elapsed() {
    let plant = monstera();
    let log = vec![pump(&stamp(NOON))];
    let due = NOON + 10 * DAY;
    assert_eq!(check_auto_water_at(&log, 0, &plant, due - 1, true), None);
    assert_eq!(
        check_auto_water_at(&log, 0, &plant, due, true),
        Some(AutoWater { duration_s: 22, days: 10 })
    );
    assert_eq!(
        check_auto_water_at(&log, 0, &plant, due + DAY - 1, true),
        Some(AutoWater { duration_s: 22, days: 10 })
    );
    assert_eq!(check_auto_water_at(&log, 0, &plant, due, false), None);
    assert_eq!(check_auto_water_at(&vec![], due, &plant, due, true), None);
    assert_eq!(
        check_auto_water_at(&vec![], i64::MIN, &plant, i64::MAX, true),
        Some(AutoWater { duration_s: 22, days: 213_503_982_334_601 })
    );
}

#[test]
fn the_countdown_shown_matches_the_trigger() {
    let plant = yucca();
    for log in [vec![pump(&stamp(NOON))], vec![pump("?")], vec![]] {
        let data = get_event_log_at(&log, &plant, NOON + 77, NOON, 0);
        let shown = seconds(&data.next_water_at);
        assert_eq!(shown, last_water_reference(&log, NOON + 77) + 14 * DAY);
        assert!(check_auto_water_at(&log, NOON + 77, &plant, shown, true).is_some());
        assert!(check_auto_water_at(&log, NOON + 77, &plant, shown - 1, true).is_none());
    }
}

#[test]
fn automatic_watering_goes_by_the_clock() {
    let now = Local::now().timestamp();
    let plant = yucca();
    let waiting = vec![pump(&stamp(now - 13 * DAY))];
    let thirsty = vec![pump(&stamp(now - 15 * DAY - 100))];
    assert_eq!(check_auto_water(&waiting, 0, &plant, true), None);
    assert_eq!(
        check_auto_water(&thirsty, 0, &plant, true),
        Some(AutoWater { duration_s: 22, days: 15 })
    );
    assert_eq!(check_auto_water(&thirsty, 0, &plant, false), None);
    let start = server_start();
    assert!(now <= start && start <= now + 60);
}

#[test]
fn commands_are_refused_without_a_node() {
    let body = WaterRequest { duration_s: 30 };
    assert_eq!(post_water_command(&body, true), WaterReply { status: 200, send: Some(30) });
    assert_eq!(post_water_command(&body, false), WaterReply { status: 503, send: None });
}

#[test]
fn water_commands_are_framed() {
    let mut expected = vec![0u8, 27];
    expected.extend_from_slice(br#"{"Water":{"duration_s":22}}"#);
    assert_eq!(water_frame(22), expected);
    for duration_s in [0u16, 9, 10, 999, 65535] {
        let frame = water_frame(duration_s);
        assert_eq!(payload_len(&[frame[0], frame[1]]), frame.len() - 2);
        assert_eq!(frame[2..], *format!(r#"{{"Water":{{"duration_s":{duration_s}}}}}"#).as_bytes());
    }
}

#[test]
fn headers_are_big_endian() {
    assert_eq!(payload_len(&[0, 0]), 0);
    assert_eq!(payload_len(&[1, 2]), 258);
    assert_eq!(payload_len(&[255, 255]), 65535);
}

#[test]
fn the_writer_sends_commands_until_the_session_ends() {
    match writer_step(WriterEvent::Command { duration_s: 22 }) {
        WriterAction::Send { frame } => assert_eq!(frame, water_frame(22)),
        other => panic!("{other:?}"),
    }
    assert!(matches!(writer_step(WriterEvent::Timeout), WriterAction::Poll));
    assert!(matches!(writer_step(WriterEvent::Disconnected), WriterAction::Stop));
    assert!(matches!(writer_step(WriterEvent::WriteFailed), WriterAction::Stop));
}

#[test]
fn pump_events_are_flushed_at_once() {
    let mut log = vec![moisture(&stamp(NOON - 4 * 3600))];
    let mut written = WrittenBuckets::new();
    let update = record_entry_at(&mut log, &mut written, pump(&stamp(NOON)), NOON);
    assert_eq!(update.pump.len(), 1);
    assert_eq!(update.pump[0].timestamp, stamp(NOON));
    assert_eq!(update.pump[0].message, Message::Pump { duration_s: 22 });
    assert_eq!(update.sealed.len(), 1);
    assert_eq!(seconds(&update.sealed[0].timestamp), NOON - 4 * 3600);
    assert_eq!(log.len(), 2);
    let update = record_entry_at(&mut log, &mut written, moisture(&stamp(NOON)), NOON);
    assert!(update.pump.is_empty() && update.sealed.is_empty());
    assert_eq!(log.len(), 3);
}

#[test]
fn a_received_pump_event_resets_the_schedule() {
    let mut log = vec![pump(&stamp(NOON - 5 * DAY)), moisture(&stamp(NOON - 20))];
    let mut written = WrittenBuckets::new();
    assert_eq!(last_water_reference(&log, 0), NOON - 5 * DAY);
    record_entry_at(&mut log, &mut written, pump(&stamp(NOON - 10)), NOON);
    assert_eq!(log.len(), 3);
    assert_eq!(last_water_reference(&log, 0), NOON - 10);
    record_entry_at(&mut log, &mut written, moisture(&stamp(NOON)), NOON);
    assert_eq!(last_water_reference(&log, 0), NOON - 10);
}

#[test]
fn messages_are_stamped_with_the_current_time() {
    let mut log = Vec::new();
    let mut written = WrittenBuckets::new();
    let before = Local::now().timestamp();
    let update = record_message(&mut log, &mut written, Message::Water { duration_s: 3 });
    assert!(update.pump.is_empty() && update.sealed.is_empty());
    assert_eq!(log.len(), 1);
    assert_eq!(log[0].message, Message::Water { duration_s: 3 });
    let at = seconds(&log[0].timestamp);
    assert!(before <= at && at <= before + 60);
    assert!(!log[0].timestamp.contains(','));
}

#[test]
fn a_node_is_online_while_its_latest_reading_is_recent() {
    let log = vec![moisture(&stamp(NOON)), pump(&stamp(NOON + 10_000))];
    assert!(online_at(&log, NOON, 0));
    assert!(online_at(&log, NOON + 599, 999_999_999));
    assert!(!online_at(&log, NOON + 600, 0));
    assert!(online_at(&log, NOON - 600, 1));
    assert!(!online_at(&log, NOON - 600, 0));
    let log = vec![moisture("2024-05-01T12:00:00.5Z")];
    assert!(online_at(&log, NOON + 600, 499_999_999));
    assert!(!online_at(&log, NOON + 600, 500_000_000));
    // Only the latest reading counts.
    assert!(!online_at(&vec![moisture(&stamp(NOON)), moisture("?")], NOON, 0));
    assert!(!online_at(&vec![pump(&stamp(NOON))], NOON, 0));
    assert!(!online_at(&vec![], NOON, 0));
    assert!(!online_at(&log, FIRST_SECOND, 0));
    assert!(!online_at(&log, LAST_SECOND, 0));
}

#[test]
fn leap_seconds_count_between_two_times_of_day() {
    // 2016-12-31T12:00:60Z
    let log = vec![moisture("2016-12-31T12:00:60Z")];
    let second = 1_483_185_659;
    assert!(online_at(&log, second + 599, 500_000_000));
    assert!(!online_at(&log, second + 600, 0));
    // Past midnight it counts no longer.
    let log = vec![moisture("2016-12-31T23:59:60Z")];
    let second = 1_483_228_799;
    assert!(online_at(&log, second + 600, 0));
    assert!(!online_at(&log, second + 601, 0));
}

#[test]
fn the_api_hands_out_the_log() {
    let log = vec![moisture(&stamp(NOON)), pump(&stamp(NOON + 1))];
    let data = api_data(&log, true, Some("soon".to_string()));
    assert!(data.online);
    assert_eq!(data.next_water_at, "soon");
    assert_eq!(data.log.len(), 2);
    assert_eq!(data.log[0].message, log[0].message);
    assert_eq!(data.log[1].timestamp, log[1].timestamp);
    assert_eq!(api_data(&vec![], false, None).next_water_at, "");
}

#[test]
fn the_api_goes_by_the_clock() {
    let now = Local::now().timestamp();
    let data = get_event_log(&vec![moisture(&stamp(now - 300))], &monstera(), now);
    assert!(data.online);
    assert_eq!(seconds(&data.next_water_at), now + 10 * DAY);
    assert!(!get_event_log(&vec![moisture(&stamp(now - 700))], &monstera(), now).online);
}

#[test]
fn a_watering_that_no_date_names_has_no_stamp() {
    let interval = yucca().auto_water_interval_secs;
    let next = |start: i64| get_event_log_at(&vec![], &yucca(), start, NOON, 0).next_water_at;
    assert_eq!(next(i64::MAX), "");
    assert_eq!(next(LAST_SECOND - interval + 1), "");
    assert!(!next(LAST_SECOND - interval).is_empty());
    assert!(!next(FIRST_SECOND - interval).is_empty());
    assert_eq!(next(FIRST_SECOND - interval - 1), "");
    assert_eq!(next(i64::MIN), "");
}

#[test]
fn the_page_carries_the_name_of_the_plant() {
    assert_eq!(
        serve_dashboard("<title>{{PLANT}}</title><h1>{{PLANT}}</h1>", &yucca()),
        "<title>Yucca palm</title><h1>Yucca palm</h1>"
    );
    assert_eq!(serve_dashboard("{PLANT}", &yucca()), "{PLANT}");
}

#[test]
fn a_missing_picture_is_not_found() {
    let found = serve_plant_image(Some(vec![1, 2, 3]));
    assert_eq!((found.status, found.body), (200, vec![1, 2, 3]));
    let missing = serve_plant_image(None);
    assert_eq!((missing.status, missing.body), (404, vec![]));
}

#[test]
fn the_schedule_and_the_online_state_go_by_the_instants_of_the_entries() {
    let dated = |entry: LogEntry, instant: Option<(i64, u32)>| DatedEntry { entry, instant };
    let log = vec![
        dated(pump("first"), Some((NOON, 0))),
        dated(moisture("second"), Some((NOON + 5, 0))),
    ];
    assert_eq!(last_water_reference_dated(&log, 3), NOON);
    assert!(online_dated(&log, NOON + 604, 999_999_999));
    assert!(!online_dated(&log, NOON + 605, 0));
    let log = vec![dated(pump("?"), None), dated(moisture("?"), None)];
    assert_eq!(last_water_reference_dated(&log, 3), 3);
    assert!(!online_dated(&log, NOON, 0));
    let interval = monstera().auto_water_interval_secs;
    let order = |now: i64| check_auto_water_since(NOON, &monstera(), now, true);
    assert_eq!(order(NOON + interval - 1), None);
    assert_eq!(order(NOON + interval), Some(AutoWater { duration_s: 22, days: 10 }));
    assert_eq!(check_auto_water_since(NOON, &monstera(), NOON + interval, false), None);
}

#[test]
fn a_run_of_commands_is_split_again_by_the_headers() {
    let commands = [0u16, 22, 65535, 7];
    let mut bytes: Vec<u8> = Vec::new();
    for duration_s in commands {
        match writer_step(WriterEvent::Command { duration_s }) {
            WriterAction::Send { frame } => bytes.extend(frame),
            other => panic!("{other:?}"),
        }
    }
    let mut rest = &bytes[..];
    for duration_s in commands {
        let len = payload_len(&[rest[0], rest[1]]);
        let text = format!("{{\"Water\":{{\"duration_s\":{duration_s}}}}}");
        assert_eq!(len, 25 + duration_s.to_string().len());
        assert_eq!(&rest[2..2 + len], text.as_bytes());
        rest = &rest[2 + len..];
    }
    assert!(rest.is_empty());
}

#[test]
fn stamps_are_read() {
    assert_eq!(read_stamp("2024-05-01T14:00:00.25+02:00"), Some((NOON, 250_000_000)));
    assert_eq!(read_stamp("2016-12-31T23:59:60Z"), Some((1_483_228_799, 1_000_000_000)));
    assert_eq!(read_stamp("0000-01-01T00:00:00+23:59"), Some((-62_167_305_540, 0)));
    assert_eq!(read_stamp("9999-12-31T23:59:59-23:59"), Some((253_402_387_139, 0)));
    assert_eq!(read_stamp("2024-05-01T14:00:00,25+02:00"), None);
    assert_eq!(read_stamp("T"), None);
}
