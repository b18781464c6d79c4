use plant_dashboard::order::{sort_by_stamp, text_at_most};
use plant_dashboard::text::{chars_of, fill_in, parse_u16, push_decimal, same_text, split_line};
use plant_dashboard::types::{DatedEntry, LogEntry, Message};

fn decimal(n: u16) -> String {
    let mut out = String::from("<");
    push_decimal(&mut out, n);
    out
}

#[test]
fn decimals_are_written_without_leading_zeros() {
    assert_eq!(decimal(0), "<0");
    assert_eq!(decimal(7), "<7");
    assert_eq!(decimal(10), "<10");
    assert_eq!(decimal(6089), "<6089");
    assert_eq!(decimal(65535), "<65535");
}

#[test]
fn numbers_are_read_as_the_standard_library_reads_them() {
    for text in [
        "", "+", "-", "0", "-0", "+0", "22", "+22", "++22", "00022", " 22", "22 ", "2 2", "65535",
        "65536", "99999999999999999999", "0000000000065535", "12a", "1,2", "\u{0663}",
    ] {
        assert_eq!(parse_u16(text), text.parse::<u16>().ok(), "{text:?}");
    }
}

#[test]
fn every_number_is_read_back_from_its_decimal() {
    for n in 0..=u16::MAX {
        let mut out = String::new();
        push_decimal(&mut out, n);
        assert_eq!(out, n.to_string());
        assert_eq!(parse_u16(&out), Some(n));
    }
}

#[test]
fn lines_are_split_into_a_limited_number_of_fields() {
    for line in ["", ",", "a", "a,b", "a,b,c,d,e", "a,b,c,d,e,f,g", ",,,,", ",,,,,,", "ü,ö,ä"] {
        for n in [1usize, 2, 5] {
            let expected: Vec<&str> = line.splitn(n, ',').collect();
            assert_eq!(split_line(line, ',', n), expected, "{line:?} {n}");
        }
    }
}

#[test]
fn templates_are_filled_in_from_left_to_right() {
    assert_eq!(fill_in("aaa", "aa", "b"), "ba");
    assert_eq!(fill_in("", "x", "y"), "");
    assert_eq!(fill_in("x", "xx", "y"), "x");
    assert_eq!(fill_in("xüx", "x", ""), "ü");
    assert_eq!(fill_in("abab", "ab", "abab"), "abababab");
    assert_eq!(
        fill_in("{{PLANT}} and {{{PLANT}}}", "{{PLANT}}", "Monstera"),
        "{{PLANT}} and {{{PLANT}}}".replace("{{PLANT}}", "Monstera")
    );
}

#[test]
fn texts_are_taken_apart_and_compared() {
    assert_eq!(chars_of("aü"), vec!['a', 'ü']);
    assert!(same_text("Deep", "Deep"));
    assert!(!same_text("Deep", "deep"));
}

#[test]
fn texts_are_ordered_as_the_standard_library_orders_them() {
    let texts = ["", "a", "ab", "b", "B", "ü", "2024-05-01T00:00:00+02:00", "2024-05-01T00:00:00+00:00", "\u{10000}", "\u{ffff}"];
    for a in texts {
        for b in texts {
            assert_eq!(text_at_most(a, b), a <= b, "{a:?} {b:?}");
        }
    }
}

fn pump(stamp: &str, duration_s: u16) -> DatedEntry {
    let entry = LogEntry::new(stamp.to_string(), Message::Pump { duration_s });
    DatedEntry { entry, instant: None }
}

#[test]
fn sorting_is_by_stamp_and_stable() {
    let stamps = [("b", 1), ("c", 2), ("a", 3), ("b", 4), ("a", 5), ("b", 6)];
    let mut log: Vec<DatedEntry> = stamps.iter().map(|&(t, d)| pump(t, d)).collect();
    sort_by_stamp(&mut log);
    let order: Vec<(String, Message)> =
        log.iter().map(|e| (e.entry.timestamp.clone(), e.entry.message)).collect();
    let expected: Vec<(String, Message)> = [("a", 3), ("a", 5), ("b", 1), ("b", 4), ("b", 6), ("c", 2)]
        .iter()
        .map(|(t, d)| (t.to_string(), Message::Pump { duration_s: *d }))
        .collect();
    assert_eq!(order, expected);
    let mut empty: Vec<DatedEntry> = Vec::new();
    sort_by_stamp(&mut empty);
    assert!(empty.is_empty());
}
