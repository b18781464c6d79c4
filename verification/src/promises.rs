//! What the operations are for, said of their inputs and results alone: of messages, instants
//! and texts, and of how the results for two inputs relate.

use vstd::prelude::*;
use vstd::utf8::encode_utf8;

use crate::clock::{
    local_stamp_of, rendered_at, rfc3339_instant, rfc3339_text, FIRST_SECOND, LAST_SECOND,
};
use crate::compact::{compaction, stamps_view, Stamp, StampView};
use crate::config::{PlantConfig, LIVENESS_SECS, RETAIN_SECS};
use crate::csv::{
    csv_appended, csv_entry, csv_line, file_entries, loaded_from, retained, written_as,
    written_keys, LoadedCsv,
};
use crate::dashboard::{api_data_at, is_online, last_moisture};
use crate::hours::{hour_start, is_retained};
use crate::order::{bytes_le, stable_sort_of, stamped, text_le};
use crate::session::{
    lemma_command_in, length_in, recording, stamp_of_now, water_bytes, CsvUpdate,
};
use crate::text::{
    all_digits, decimal, digits_value, find_char, is_digit, lemma_find_char, lemma_split_first,
    opt_texts, replace_all, split_fields, texts, u16_value, unsigned_part,
};
use crate::types::{
    dated_view, log_view, ApiData, DatedEntry, Depth, EntryView, LogEntry, Message,
};
use crate::watering::{auto_water_at, auto_water_since, due_second, last_pump, water_reference};
use crate::written::HourKey;

verus! {

/// Two filters that agree on the entries of a run let the same through.
pub proof fn lemma_filter_same(
    s: Seq<EntryView>,
    p: spec_fn(EntryView) -> bool,
    q: spec_fn(EntryView) -> bool,
)
    requires
        forall|e: EntryView| s.contains(e) ==> #[trigger] p(e) == q(e),
    ensures
        s.filter(p) == s.filter(q),
    decreases s.len(),
{
    reveal(Seq::filter);
    if s.len() > 0 {
        let rest = s.drop_last();
        assert forall|e: EntryView| rest.contains(e) implies #[trigger] p(e) == q(e) by {
            let i = choose|i: int| 0 <= i < rest.len() && rest[i] == e;
            assert(s[i] == e);
        }
        lemma_filter_same(rest, p, q);
        assert(s.contains(s[s.len() - 1]));
        assert(p(s.last()) == q(s.last()));
    }
}

// The views.

/// The value of a log has each entry's stamp, message and tally in its place, and the instant
/// that the stamp names; a stamp with a comma names none.
pub proof fn law_log_view(log: Seq<LogEntry>)
    ensures
        log_view(log).len() == log.len(),
        forall|i: int|
            0 <= i < log.len() ==> {
                let e = #[trigger] log_view(log)[i];
                &&& e.timestamp == log[i].timestamp@
                &&& e.message == log[i].message
                &&& e.tally == log[i].tally
                &&& e.instant == if log[i].timestamp@.contains(',') {
                    None
                } else {
                    rfc3339_instant(log[i].timestamp@)
                }
                &&& e.is_dated()
            },
{
}

/// The value of a dated log has the given instants.
pub proof fn law_dated_view(log: Seq<DatedEntry>)
    ensures
        dated_view(log).len() == log.len(),
        forall|i: int|
            0 <= i < log.len() ==> {
                let e = #[trigger] dated_view(log)[i];
                &&& e.timestamp == log[i].entry.timestamp@
                &&& e.message == log[i].entry.message
                &&& e.tally == log[i].entry.tally
                &&& e.instant == log[i].instant
            },
{
}

/// An entry is dated if its instant is what its stamp names, and single if it has no tally.
/// A single reading stands for itself alone.
pub proof fn law_entries(e: EntryView)
    ensures
        e.is_dated() <==> e.instant == if e.timestamp.contains(',') {
            None
        } else {
            rfc3339_instant(e.timestamp)
        },
        e.is_single() <==> e.tally is None,
        e.message matches Message::Moisture { adc_raw, .. } ==> {
            &&& e.tally is None ==> e.sum() == adc_raw && e.count() == 1
            &&& e.tally matches Some(t) ==> if t.count > 0 && t.sum / t.count == adc_raw {
                e.sum() == t.sum && e.count() == t.count
            } else {
                e.sum() == adc_raw && e.count() == 1
            }
        },
{
}

/// The texts of strings and of stamps stand in their places.
pub proof fn law_texts(
    strings: Seq<String>,
    optional: Seq<Option<String>>,
    stamps: Seq<Option<Stamp>>,
)
    ensures
        texts(strings).len() == strings.len(),
        forall|i: int| 0 <= i < strings.len() ==> #[trigger] texts(strings)[i] == strings[i]@,
        opt_texts(optional).len() == optional.len(),
        forall|i: int|
            0 <= i < optional.len() ==> match optional[i] {
                Some(text) => #[trigger] opt_texts(optional)[i] == Some(text@),
                None => opt_texts(optional)[i] is None,
            },
        stamps_view(stamps).len() == stamps.len(),
        forall|i: int|
            0 <= i < stamps.len() ==> match stamps[i] {
                Some(s) => {
                    &&& #[trigger] stamps_view(stamps)[i] matches Some(v)
                    &&& v.text == s.text@
                    &&& v.instant == s.instant
                },
                None => stamps_view(stamps)[i] is None,
            },
{
}

// Text.

/// A text in which the pattern does not occur is left as it is.
pub proof fn law_replacing_nothing(s: Seq<char>, pattern: Seq<char>, with: Seq<char>)
    requires
        pattern.len() > 0,
        forall|i: int|
            0 <= i && i + pattern.len() <= s.len() ==> #[trigger] s.subrange(
                i,
                i + pattern.len() as int,
            ) != pattern,
    ensures
        replace_all(s, pattern, with) == s,
    decreases s.len(),
{
    let n = pattern.len() as int;
    if s.len() >= n {
        assert(s.subrange(0, 0 + n) != pattern);
        assert(s.take(n) =~= s.subrange(0, 0 + n));
        let rest = s.skip(1);
        assert forall|i: int| 0 <= i && i + n <= rest.len() implies #[trigger] rest.subrange(
            i,
            i + n,
        ) != pattern by {
            assert(rest.subrange(i, i + n) =~= s.subrange(i + 1, i + 1 + n));
        }
        law_replacing_nothing(rest, pattern, with);
        assert(seq![s[0]] + rest =~= s);
    }
}

/// Every occurrence is replaced, wherever it stands: the first one gives way, what stands
/// before it stays, and the replacement goes on behind it.
pub proof fn law_replacing_the_first(
    a: Seq<char>,
    b: Seq<char>,
    pattern: Seq<char>,
    with: Seq<char>,
)
    requires
        pattern.len() > 0,
        forall|i: int|
            0 <= i < a.len() ==> #[trigger] (a + pattern).subrange(i, i + pattern.len() as int)
                != pattern,
    ensures
        replace_all(a + pattern + b, pattern, with) == a + with + replace_all(b, pattern, with),
    decreases a.len(),
{
    let n = pattern.len() as int;
    let s = a + pattern + b;
    if a.len() == 0 {
        assert(s.take(n) =~= pattern);
        assert(s.skip(n) =~= b);
        assert(a + with =~= with);
    } else {
        let rest = a.skip(1);
        assert((a + pattern).subrange(0, 0 + n) != pattern);
        assert(s.take(n) =~= (a + pattern).subrange(0, 0 + n));
        assert(s.skip(1) =~= rest + pattern + b);
        assert forall|i: int| 0 <= i < rest.len() implies #[trigger] (rest + pattern).subrange(
            i,
            i + n,
        ) != pattern by {
            assert((rest + pattern).subrange(i, i + n) =~= (a + pattern).subrange(
                i + 1,
                i + 1 + n,
            ));
        }
        law_replacing_the_first(rest, b, pattern, with);
        let tail = replace_all(b, pattern, with);
        assert(s[0] == a[0]);
        assert(seq![a[0]] + (rest + with + tail) =~= a + with + tail);
    }
}

/// A number in decimal: one digit up to nine, and one digit more for each power of ten.
pub proof fn law_decimal_digits(n: nat, d: nat)
    requires
        d < 10,
    ensures
        decimal(d) == seq![('0' as int + d) as char],
        n > 0 ==> decimal(10 * n + d) == decimal(n).push(('0' as int + d) as char),
{
    if n > 0 {
        assert((10 * n + d) / 10 == n);
        assert((10 * n + d) % 10 == d);
    }
}

/// Reading a number: a digit alone is its value, a further digit makes it ten times as much
/// and that digit more, up to the greatest 16-bit number. A leading plus sign changes nothing;
/// anything else is no number.
pub proof fn law_reading_numbers(s: Seq<char>, c: char)
    ensures
        u16_value(Seq::<char>::empty()) is None,
        '0' <= c && c <= '9' ==> u16_value(seq![c]) == Some((c as int - '0' as int) as u16),
        s.len() > 0 && s[0] != '+' && '0' <= c && c <= '9' ==> u16_value(s.push(c)) == match
            u16_value(s) {
            Some(n) => if n * 10 + (c as int - '0' as int) <= 65535 {
                Some((n * 10 + (c as int - '0' as int)) as u16)
            } else {
                None
            },
            None => None,
        },
        u16_value(seq!['+'] + s) == if s.len() > 0 && s[0] == '+' {
            None
        } else {
            u16_value(s)
        },
        (exists|i: int|
            0 <= i < s.len() && !('0' <= #[trigger] s[i] && s[i] <= '9') && (i > 0 || s[0] != '+'))
            ==> u16_value(s) is None,
{
    reveal_with_fuel(digits_value, 2);
    if '0' <= c && c <= '9' {
        assert(unsigned_part(seq![c]) =~= seq![c]);
        assert(seq![c].drop_last() =~= Seq::<char>::empty());
        assert(all_digits(seq![c]));
        if s.len() > 0 && s[0] != '+' {
            let t = s.push(c);
            assert(t[0] == s[0]);
            assert(t.drop_last() =~= s);
            assert(all_digits(t) <==> all_digits(s)) by {
                if all_digits(t) {
                    assert forall|i: int| 0 <= i < s.len() implies is_digit(#[trigger] s[i]) by {
                        assert(t[i] == s[i]);
                    }
                }
            }
        }
    }
    assert((seq!['+'] + s).skip(1) =~= s);
    if exists|i: int|
        0 <= i < s.len() && !('0' <= #[trigger] s[i] && s[i] <= '9') && (i > 0 || s[0] != '+') {
        let i = choose|i: int|
            0 <= i < s.len() && !('0' <= #[trigger] s[i] && s[i] <= '9') && (i > 0 || s[0] != '+');
        let digits = unsigned_part(s);
        assert(!is_digit(digits[if s[0] == '+' { i - 1 } else { i }]));
    }
}

/// Splitting takes fields off the front, each up to its separator, until only one may be left
/// or no separator is; that one takes the rest.
pub proof fn law_splitting(field: Seq<char>, rest: Seq<char>, sep: char, n: nat)
    ensures
        n > 1 && !field.contains(sep) ==> split_fields(field.push(sep) + rest, sep, n) == seq![
            field,
        ] + split_fields(rest, sep, (n - 1) as nat),
        !rest.contains(sep) ==> split_fields(rest, sep, n) == seq![rest],
        n <= 1 ==> split_fields(rest, sep, n) == seq![rest],
{
    if n > 1 && !field.contains(sep) {
        lemma_split_first(field, rest, sep, n);
    }
    lemma_find_char(rest, sep);
    if find_char(rest, sep) < rest.len() {
        assert(rest.contains(rest[find_char(rest, sep)]));
    }
}

/// The order of texts is that of their bytes, as in a dictionary: the first byte in which two
/// differ decides, and what ends first comes first.
pub proof fn law_dictionary_order(common: Seq<u8>, a: Seq<u8>, b: Seq<u8>)
    ensures
        bytes_le(common + a, common + b) == bytes_le(a, b),
        bytes_le(Seq::<u8>::empty(), b),
        a.len() > 0 ==> !bytes_le(a, Seq::<u8>::empty()),
        a.len() > 0 && b.len() > 0 && a[0] < b[0] ==> bytes_le(a, b) && !bytes_le(b, a),
        forall|s: Seq<char>, t: Seq<char>| #[trigger]
            text_le(s, t) == bytes_le(encode_utf8(s), encode_utf8(t)),
    decreases common.len(),
{
    if common.len() == 0 {
        assert(common + a =~= a);
        assert(common + b =~= b);
    } else {
        law_dictionary_order(common.skip(1), a, b);
        assert((common + a).skip(1) =~= common.skip(1) + a);
        assert((common + b).skip(1) =~= common.skip(1) + b);
    }
}

/// Sorting puts entries into the order of their stamps; those with one and the same stamp come
/// out as they stood.
pub proof fn law_sorting(before: Seq<EntryView>, after: Seq<EntryView>, t: Seq<char>)
    requires
        stable_sort_of(before, after),
    ensures
        forall|i: int, j: int|
            0 <= i <= j < after.len() ==> bytes_le(
                encode_utf8(#[trigger] after[i].timestamp),
                encode_utf8(#[trigger] after[j].timestamp),
            ),
        after.filter(|e: EntryView| e.timestamp == t) == before.filter(
            |e: EntryView| e.timestamp == t,
        ),
{
    assert forall|i: int, j: int| 0 <= i <= j < after.len() implies bytes_le(
        encode_utf8(#[trigger] after[i].timestamp),
        encode_utf8(#[trigger] after[j].timestamp),
    ) by {
        assert(text_le(after[i].timestamp, after[j].timestamp));
    }
    assert(stamped(after, t) == stamped(before, t));
}

// Watering.

/// The schedule counts from the last pump event of the log, or from the start of the server if
/// there is none or its stamp cannot be read. Nothing else in the log matters.
pub proof fn law_schedule_reference(log: Seq<EntryView>, e: EntryView, start_time: i64)
    ensures
        water_reference(Seq::<EntryView>::empty(), start_time) == start_time,
        e.message is Pump ==> water_reference(log.push(e), start_time) == match e.instant {
            Some((t, _)) => t,
            None => start_time,
        },
        !(e.message is Pump) ==> water_reference(log.push(e), start_time) == water_reference(
            log,
            start_time,
        ),
{
    assert(log.push(e).last() == e);
    assert(log.push(e).drop_last() =~= log);
    assert(last_pump(Seq::<EntryView>::empty()) is None);
}

/// There is an automatic watering exactly if a node is connected and the plant's interval has
/// elapsed. However late it is, its duration is the plant's own, and it says how many whole
/// days have passed.
pub proof fn law_automatic_watering(
    log: Seq<EntryView>,
    start_time: i64,
    reference: i64,
    plant: PlantConfig,
    now: i64,
    connected: bool,
)
    ensures
        auto_water_since(reference, plant, now, connected) is Some <==> connected && now - reference
            >= plant.auto_water_interval_secs,
        auto_water_since(reference, plant, now, connected) matches Some(w) ==> {
            &&& w.duration_s == plant.auto_water_duration_s
            &&& now >= reference ==> w.days * 86_400 <= now - reference < (w.days + 1) * 86_400
            &&& now < reference ==> (w.days - 1) * 86_400 < now - reference <= w.days * 86_400
        },
        auto_water_at(log, start_time, plant, now, connected) == auto_water_since(
            water_reference(log, start_time),
            plant,
            now,
            connected,
        ),
        due_second(log, start_time, plant) == water_reference(log, start_time)
            + plant.auto_water_interval_secs,
{
}

// The dashboard.

/// The latest reading is the last moisture entry of the log, of either sensor.
pub proof fn law_latest_reading(log: Seq<EntryView>, e: EntryView)
    ensures
        last_moisture(Seq::<EntryView>::empty()) is None,
        e.message is Moisture ==> last_moisture(log.push(e)) == Some(e),
        !(e.message is Moisture) ==> last_moisture(log.push(e)) == last_moisture(log),
{
    assert(log.push(e).last() == e);
    assert(log.push(e).drop_last() =~= log);
}

/// A log that ends in a reading, whatever the sensor and the value, is online exactly while
/// that is less than the liveness limit away, either way; one whose stamp cannot be read is
/// offline. Other entries change nothing, and a log without any is offline. A leap second may
/// shift the limit by one second.
pub proof fn law_online(log: Seq<EntryView>, e: EntryView, seconds: i64, nanos: u32)
    ensures
        !is_online(Seq::<EntryView>::empty(), seconds, nanos),
        !(e.message is Moisture) ==> is_online(log.push(e), seconds, nanos) == is_online(
            log,
            seconds,
            nanos,
        ),
        e.message is Moisture && e.instant is None ==> !is_online(log.push(e), seconds, nanos),
        e.message is Moisture ==> (e.instant matches Some((s, n)) ==> {
            let age = (seconds - s) * 1_000_000_000 + nanos - n;
            let limit = LIVENESS_SECS * 1_000_000_000;
            let online = is_online(log.push(e), seconds, nanos);
            &&& nanos < 1_000_000_000 && n < 1_000_000_000 ==> (online <==> -limit < age < limit)
            &&& 1_000_000_000 - limit < age < limit - 1_000_000_000 ==> online
            &&& age >= limit + 1_000_000_000 || age <= -limit - 1_000_000_000 ==> !online
        }),
{
    law_latest_reading(log, e);
}

/// The data behind the dashboard: the log as it is, the online state, and the stamp of the
/// second that lies one interval after the schedule's reference; no text if no date names it.
pub proof fn law_dashboard_data(
    data: ApiData,
    log: Seq<EntryView>,
    plant: PlantConfig,
    start_time: i64,
    now: (i64, u32),
)
    requires
        api_data_at(data, log, plant, start_time, now),
    ensures
        log_view(data.log@) == log,
        data.online == is_online(log, now.0, now.1),
        ({
            let due = water_reference(log, start_time) + plant.auto_water_interval_secs;
            let text = data.next_water_at@;
            if FIRST_SECOND <= due <= LAST_SECOND {
                exists|offset: i32|
                    text == #[trigger] rfc3339_text(due as i64, 0, offset) && -86_400 < offset
                        < 86_400
            } else {
                text == Seq::<char>::empty()
            }
        }),
{
    let due = water_reference(log, start_time) + plant.auto_water_interval_secs;
    let text = data.next_water_at@;
    let stamp = choose|stamp: Option<Seq<char>>|
        #[trigger] local_stamp_of(due, 0, stamp) && text == match stamp {
            Some(t) => t,
            None => Seq::empty(),
        };
    if FIRST_SECOND <= due <= LAST_SECOND {
        let offset = choose|offset: i32| #[trigger] rendered_at(due, 0, offset, text);
        assert(text == rfc3339_text(due as i64, 0, offset));
    }
}

// The CSV file.

/// What is written of an entry: its stamp, its kind, the value and the sensor of a reading,
/// and the duration of a pump event, with commas between. Echoes are not written.
pub proof fn law_written_rows(e: EntryView)
    ensures
        csv_line(e) == match e.message {
            Message::Moisture { adc_raw, depth: Depth::Deep } => Some(
                e.timestamp + ",moisture,"@ + decimal(adc_raw as nat) + ",Deep,"@,
            ),
            Message::Moisture { adc_raw, depth: Depth::Shallow } => Some(
                e.timestamp + ",moisture,"@ + decimal(adc_raw as nat) + ",Shallow,"@,
            ),
            Message::Pump { duration_s } => Some(
                e.timestamp + ",pump,,,"@ + decimal(duration_s as nat),
            ),
            Message::Water { .. } => None,
        },
{
    reveal_strlit(",");
    reveal_strlit("Deep");
    reveal_strlit("Shallow");
    reveal_strlit(",Deep,");
    reveal_strlit(",Shallow,");
    if let Message::Moisture { adc_raw, depth } = e.message {
        let head = e.timestamp + ",moisture,"@ + decimal(adc_raw as nat);
        assert(head + ","@ + "Deep"@ + ","@ =~= head + ",Deep,"@);
        assert(head + ","@ + "Shallow"@ + ","@ =~= head + ",Shallow,"@);
    }
}

/// What is appended to the file: a new file starts with the header, and each entry adds its
/// row, if it has one, at the end.
pub proof fn law_appended_rows(entries: Seq<EntryView>, e: EntryView, needs_header: bool)
    ensures
        csv_appended(Seq::<EntryView>::empty(), false) == Seq::<Seq<char>>::empty(),
        csv_appended(Seq::<EntryView>::empty(), true) == seq![
            "timestamp,kind,adc_raw,depth,duration_s"@,
        ],
        csv_appended(entries.push(e), needs_header) == match csv_line(e) {
            Some(line) => csv_appended(entries, needs_header).push(line),
            None => csv_appended(entries, needs_header),
        },
{
    assert(entries.push(e).drop_last() =~= entries);
    assert(csv_appended(Seq::<EntryView>::empty(), true) =~= seq![
        "timestamp,kind,adc_raw,depth,duration_s"@,
    ]);
    if csv_line(e) is Some {
        assert(csv_appended(entries.push(e), needs_header) =~= csv_appended(
            entries,
            needs_header,
        ).push(csv_line(e)->0));
    }
}

/// What is read from a line of five fields, of which the last may hold commas: a reading has
/// its value in the third and its sensor in the fourth, a pump event its duration in the
/// last. A number that cannot be read, or another kind, makes it no entry.
pub proof fn law_read_rows(
    stamp: Seq<char>,
    kind: Seq<char>,
    value: Seq<char>,
    sensor: Seq<char>,
    rest: Seq<char>,
)
    requires
        !stamp.contains(','),
        !kind.contains(','),
        !value.contains(','),
        !sensor.contains(','),
    ensures
        ({
            let line = stamp.push(',') + (kind.push(',') + (value.push(',') + (sensor.push(',')
                + rest)));
            let message = if kind == "moisture"@ {
                match u16_value(value) {
                    Some(adc_raw) => Some(
                        Message::Moisture {
                            adc_raw,
                            depth: if sensor == "Deep"@ {
                                Depth::Deep
                            } else {
                                Depth::Shallow
                            },
                        },
                    ),
                    None => None,
                }
            } else if kind == "pump"@ {
                match u16_value(rest) {
                    Some(duration_s) => Some(Message::Pump { duration_s }),
                    None => None,
                }
            } else {
                None
            };
            match message {
                Some(m) => {
                    &&& csv_entry(line) matches Some(e)
                    &&& e.timestamp == stamp
                    &&& e.message == m
                    &&& e.tally is None
                    &&& e.instant == rfc3339_instant(stamp)
                },
                None => csv_entry(line) is None,
            }
        }),
{
    let rest4 = sensor.push(',') + rest;
    let rest3 = value.push(',') + rest4;
    let rest2 = kind.push(',') + rest3;
    let line = stamp.push(',') + rest2;
    lemma_split_first(stamp, rest2, ',', 5);
    lemma_split_first(kind, rest3, ',', 4);
    lemma_split_first(value, rest4, ',', 3);
    lemma_split_first(sensor, rest, ',', 2);
    law_splitting(stamp, rest, ',', 1);
    assert(split_fields(line, ',', 5) =~= seq![stamp, kind, value, sensor, rest]);
}

proof fn lemma_fields(s: Seq<char>, sep: char, n: nat)
    ensures
        split_fields(s, sep, n).len() <= s.filter(|c: char| c == sep).len() + 1,
    decreases n,
{
    let p = |c: char| c == sep;
    let at = find_char(s, sep);
    lemma_find_char(s, sep);
    if n > 1 && at < s.len() {
        let rest = s.skip(at + 1);
        lemma_fields(rest, sep, (n - 1) as nat);
        assert(s =~= s.take(at + 1) + rest);
        Seq::filter_distributes_over_add(s.take(at + 1), rest, p);
        s.take(at + 1).lemma_filter_contains(p, at);
        assert(s.take(at + 1).filter(p).len() > 0);
    }
}

/// A line with fewer than four commas holds no entry.
pub proof fn law_short_rows(line: Seq<char>)
    requires
        line.filter(|c: char| c == ',').len() < 4,
    ensures
        csv_entry(line) is None,
{
    lemma_fields(line, ',', 5);
}

/// The entries of a file: the first line holds none, and each further line adds the entry that
/// it holds, if it could be read and holds one, at the end.
pub proof fn law_file_entries(lines: Seq<Option<Seq<char>>>, line: Option<Seq<char>>)
    ensures
        file_entries(Seq::<Option<Seq<char>>>::empty()) == Seq::<EntryView>::empty(),
        file_entries(seq![line]) == Seq::<EntryView>::empty(),
        lines.len() > 0 ==> file_entries(lines.push(line)) == match line {
            Some(text) => match csv_entry(text) {
                Some(e) => file_entries(lines).push(e),
                None => file_entries(lines),
            },
            None => file_entries(lines),
        },
{
    assert(seq![line].skip(1) =~= Seq::<Option<Seq<char>>>::empty());
    if lines.len() > 0 {
        assert(lines.push(line).skip(1) =~= lines.skip(1).push(line));
        assert(lines.skip(1).push(line).drop_last() =~= lines.skip(1));
    }
}

/// Of a run of entries, whatever their kinds, those are retained whose stamp can be read and
/// names a second less than the retention time ago, in the order that they have. A reading
/// counts as written under the second that its stamp names, however old it is.
pub proof fn law_retained_entries(entries: Seq<EntryView>, now: int)
    ensures
        retained(entries, now) == entries.filter(
            |e: EntryView| e.instant matches Some((t, _)) && t > now - RETAIN_SECS,
        ),
        forall|t: i64, deep: bool| #[trigger]
            written_keys(entries).contains((t, deep)) <==> exists|i: int|
                {
                    &&& 0 <= i < entries.len()
                    &&& (#[trigger] entries[i]).message matches Message::Moisture { depth, .. }
                    &&& deep == (depth == Depth::Deep)
                    &&& entries[i].instant matches Some((s, _))
                    &&& s == t
                },
{
    let kept = |e: EntryView| e.instant matches Some((t, _)) && t > now - RETAIN_SECS;
    let p = |e: EntryView| is_retained(e, now);
    assert forall|e: EntryView| entries.contains(e) implies #[trigger] p(e) == kept(e) by {
    }
    lemma_filter_same(entries, p, kept);
    assert forall|t: i64, deep: bool| #[trigger]
        written_keys(entries).contains((t, deep)) <==> exists|i: int|
            {
                &&& 0 <= i < entries.len()
                &&& (#[trigger] entries[i]).message matches Message::Moisture { depth, .. }
                &&& deep == (depth == Depth::Deep)
                &&& entries[i].instant matches Some((s, _))
                &&& s == t
            } by {
        if written_keys(entries).contains((t, deep)) {
            let i = choose|i: int|
                0 <= i < entries.len() && written_as(#[trigger] entries[i], (t, deep));
            assert(written_as(entries[i], (t, deep)));
        }
        if exists|i: int|
            {
                &&& 0 <= i < entries.len()
                &&& (#[trigger] entries[i]).message matches Message::Moisture { depth, .. }
                &&& deep == (depth == Depth::Deep)
                &&& entries[i].instant matches Some((s, _))
                &&& s == t
            } {
            let i = choose|i: int|
                {
                    &&& 0 <= i < entries.len()
                    &&& (#[trigger] entries[i]).message matches Message::Moisture { depth, .. }
                    &&& deep == (depth == Depth::Deep)
                    &&& entries[i].instant matches Some((s, _))
                    &&& s == t
                };
            assert(written_as(entries[i], (t, deep)));
        }
    }
}

/// Loading keeps an entry of the file, whatever its kind, exactly if its stamp can be read and
/// names a second less than the retention time ago, and keeps the order. A reading counts as
/// written under the second that its stamp names, however old it is.
pub proof fn law_loading(loaded: LoadedCsv, lines: Seq<Option<Seq<char>>>, now: int)
    requires
        loaded_from(loaded, lines, now),
    ensures
        log_view(loaded.entries@) == file_entries(lines).filter(
            |e: EntryView| e.instant matches Some((t, _)) && t > now - RETAIN_SECS,
        ),
        forall|t: i64, deep: bool| #[trigger]
            loaded.written@.contains((t, deep)) <==> exists|i: int|
                {
                    &&& 0 <= i < file_entries(lines).len()
                    &&& (#[trigger] file_entries(lines)[i]).message matches Message::Moisture {
                        depth,
                        ..
                    }
                    &&& deep == (depth == Depth::Deep)
                    &&& file_entries(lines)[i].instant matches Some((s, _))
                    &&& s == t
                },
        loaded.total == file_entries(lines).len(),
{
    law_retained_entries(file_entries(lines), now);
}

// The link to the node.

/// A header announces a length with its high byte first.
pub proof fn law_header_bytes(high: u8, low: u8)
    ensures
        length_in(seq![high, low]) == 256 * high + low,
{
}

/// A water command on the wire: two bytes with the length of the text, then the text, in which
/// the duration stands in decimal.
pub proof fn law_command_bytes(duration_s: u16)
    ensures
        ({
            let digits = decimal(duration_s as nat);
            water_bytes(duration_s) == seq![0u8, (25 + digits.len()) as u8] + encode_utf8(
                "{\"Water\":{\"duration_s\":"@ + digits + "}}"@,
            )
        }),
{
    lemma_command_in(duration_s);
    let digits = decimal(duration_s as nat);
    let n = 25 + digits.len();
    assert(n / 256 == 0 && n % 256 == n);
}

/// Receiving an entry puts it at the end of the log and compacts that; the entry itself is
/// handed out for the file exactly if it is a pump event.
pub proof fn law_receiving(
    log: Seq<EntryView>,
    written: Set<HourKey>,
    e: EntryView,
    now: int,
    stamps: Seq<Option<StampView>>,
    new_log: Seq<EntryView>,
    new_written: Set<HourKey>,
    update: CsvUpdate,
)
    requires
        recording(log, written, e, now, stamps, new_log, new_written, update),
    ensures
        e.message is Pump ==> log_view(update.pump@) == seq![e],
        !(e.message is Pump) ==> log_view(update.pump@) == Seq::<EntryView>::empty(),
        compaction(
            log.push(e),
            written,
            now,
            stamps,
            new_log,
            new_written,
            log_view(update.sealed@),
        ),
{
}

/// A received message is stamped with what the clock shows, in the machine's zone.
pub proof fn law_receiving_stamps(clock: (i64, u32), stamp: Seq<char>)
    requires
        stamp_of_now(clock, stamp),
    ensures
        0 <= clock.0 <= LAST_SECOND,
        clock.1 < 1_000_000_000,
        exists|offset: i32|
            stamp == #[trigger] rfc3339_text(clock.0, clock.1, offset) && -86_400 < offset
                < 86_400,
{
    let offset = choose|offset: i32|
        #[trigger] rendered_at(clock.0 as int, clock.1, offset, stamp);
    assert(stamp == rfc3339_text(clock.0, clock.1, offset));
}

/// An hour starts on a full hour, not after any second in it and less than an hour before.
pub proof fn law_hour_start(t: i64)
    requires
        t >= i64::MIN + 3600,
    ensures
        hour_start(t) as int % 3600 == 0,
        hour_start(t) <= t < hour_start(t) + 3600,
{
}

} // verus!
