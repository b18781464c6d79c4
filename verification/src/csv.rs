//! The CSV file that outlives the server: one row per sealed average and pump event.

use vstd::prelude::*;
use vstd::string::*;

use crate::clock::{instant_of, now_instant, LAST_SECOND};
use crate::config::RETAIN_SECS;
use crate::hours::{is_retained, lemma_filter_step, seconds_of};
use crate::text::{
    decimal, opt_text, opt_texts, parse_u16, push_decimal, same_text, split_fields, split_line,
    texts, u16_value,
};
use crate::types::{
    date_log, dated_view, log_view, undate_log, DatedEntry, Depth, EntryView, LogEntry, Message,
};
use crate::written::{HourKey, WrittenBuckets};

verus! {

/// The first line of the file.
pub open spec fn csv_header() -> Seq<char> {
    "timestamp,kind,adc_raw,depth,duration_s"@
}

pub open spec fn depth_name(depth: Depth) -> Seq<char> {
    match depth {
        Depth::Deep => "Deep"@,
        Depth::Shallow => "Shallow"@,
    }
}

/// The line of an entry. Echoes of water commands are not worth storing.
pub open spec fn csv_line(e: EntryView) -> Option<Seq<char>> {
    match e.message {
        Message::Moisture { adc_raw, depth } => Some(
            e.timestamp + ",moisture,"@ + decimal(adc_raw as nat) + ","@ + depth_name(depth)
                + ","@,
        ),
        Message::Pump { duration_s } => Some(
            e.timestamp + ",pump,,,"@ + decimal(duration_s as nat),
        ),
        Message::Water { .. } => None,
    }
}

/// The lines of a run of entries, in order.
pub open spec fn csv_lines(entries: Seq<EntryView>) -> Seq<Seq<char>>
    decreases entries.len(),
{
    if entries.len() == 0 {
        Seq::empty()
    } else {
        let rest = csv_lines(entries.drop_last());
        match csv_line(entries.last()) {
            Some(line) => rest.push(line),
            None => rest,
        }
    }
}

/// The lines that are appended to the file; a new file starts with the header.
pub open spec fn csv_appended(entries: Seq<EntryView>, needs_header: bool) -> Seq<Seq<char>> {
    if needs_header {
        seq![csv_header()] + csv_lines(entries)
    } else {
        csv_lines(entries)
    }
}

/// A single reading or event under the given stamp.
pub open spec fn stored_entry(timestamp: Seq<char>, message: Message) -> EntryView {
    EntryView { timestamp, message, tally: None, instant: instant_of(timestamp) }
}

/// The entry that a line holds. The line must have five fields, the last of which takes
/// whatever is left. A depth other than "Deep" is taken for the shallow sensor.
pub open spec fn csv_entry(line: Seq<char>) -> Option<EntryView> {
    let fields = split_fields(line, ',', 5);
    if fields.len() < 5 {
        None
    } else if fields[1] == "moisture"@ {
        match u16_value(fields[2]) {
            Some(adc_raw) => Some(
                stored_entry(
                    fields[0],
                    Message::Moisture {
                        adc_raw,
                        depth: if fields[3] == "Deep"@ {
                            Depth::Deep
                        } else {
                            Depth::Shallow
                        },
                    },
                ),
            ),
            None => None,
        }
    } else if fields[1] == "pump"@ {
        match u16_value(fields[4]) {
            Some(duration_s) => Some(stored_entry(fields[0], Message::Pump { duration_s })),
            None => None,
        }
    } else {
        None
    }
}

/// The entries of a run of lines, in order. Lines that could not be read (`None`) or hold no
/// entry are passed over.
pub open spec fn csv_entries(lines: Seq<Option<Seq<char>>>) -> Seq<EntryView>
    decreases lines.len(),
{
    if lines.len() == 0 {
        Seq::empty()
    } else {
        let rest = csv_entries(lines.drop_last());
        match lines.last() {
            Some(line) => match csv_entry(line) {
                Some(e) => rest.push(e),
                None => rest,
            },
            None => rest,
        }
    }
}

/// Whether an entry is a reading that stands in the file under the key `k`.
pub open spec fn written_as(e: EntryView, k: HourKey) -> bool {
    e.is_moisture() && e.seconds() == Some(k.0) && e.is_deep() == k.1
}

/// The keys of the averages among a run of entries.
pub open spec fn written_keys(entries: Seq<EntryView>) -> Set<HourKey> {
    Set::new(
        |k: HourKey|
            exists|i: int| 0 <= i < entries.len() && written_as(#[trigger] entries[i], k),
    )
}

/// The entries of a file with the given lines, of which the first is the header.
pub open spec fn file_entries(lines: Seq<Option<Seq<char>>>) -> Seq<EntryView> {
    csv_entries(if lines.len() == 0 { lines } else { lines.skip(1) })
}

/// The entries of a run that are retained, in order.
pub open spec fn retained(entries: Seq<EntryView>, now: int) -> Seq<EntryView> {
    entries.filter(|e: EntryView| is_retained(e, now))
}

/// Renders the line of an entry.
pub fn csv_row(entry: &LogEntry) -> (line: Option<String>)
    ensures
        opt_text(line) == csv_line(entry@),
{
    match &entry.message {
        Message::Moisture { adc_raw, depth } => {
            let mut line = entry.timestamp.clone();
            line.append(",moisture,");
            push_decimal(&mut line, *adc_raw);
            line.append(",");
            match depth {
                Depth::Deep => line.append("Deep"),
                Depth::Shallow => line.append("Shallow"),
            }
            line.append(",");
            Some(line)
        },
        Message::Pump { duration_s } => {
            let mut line = entry.timestamp.clone();
            line.append(",pump,,,");
            push_decimal(&mut line, *duration_s);
            Some(line)
        },
        Message::Water { .. } => None,
    }
}

/// Renders the lines that are to be appended to the file.
pub fn append_csv_rows(entries: &Vec<LogEntry>, needs_header: bool) -> (lines: Vec<String>)
    ensures
        texts(lines@) == csv_appended(log_view(entries@), needs_header),
{
    let ghost view = log_view(entries@);
    let mut lines: Vec<String> = Vec::new();
    if needs_header {
        lines.push("timestamp,kind,adc_raw,depth,duration_s".to_owned());
    }
    let ghost head = texts(lines@);
    assert(head =~= csv_appended(view.take(0), needs_header));
    let mut i: usize = 0;
    while i < entries.len()
        invariant
            i <= entries@.len(),
            view == log_view(entries@),
            texts(lines@) == csv_appended(view.take(i as int), needs_header),
        decreases entries@.len() - i,
    {
        proof {
            assert(view.take(i + 1).drop_last() =~= view.take(i as int));
            assert(view.take(i + 1).last() == entries@[i as int]@);
        }
        if let Some(line) = csv_row(&entries[i]) {
            assert(texts(lines@.push(line)) =~= texts(lines@).push(line@));
            assert(texts(lines@).push(line@) =~= csv_appended(view.take(i + 1), needs_header));
            lines.push(line);
        }
        i = i + 1;
    }
    assert(view.take(i as int) =~= view);
    lines
}

/// Reads the entry that a line holds.
pub fn parse_csv_row(line: &str) -> (entry: Option<LogEntry>)
    ensures
        (match entry {
            Some(e) => Some(e@),
            None => None,
        }) == csv_entry(line@),
{
    let fields = split_line(line, ',', 5);
    let ghost parts = split_fields(line@, ',', 5);
    assert(forall|i: int| 0 <= i < fields@.len() ==> (#[trigger] fields@[i])@ == parts[i]);
    assert(fields@.len() == parts.len());
    if fields.len() < 5 {
        return None;
    }
    if same_text(&fields[1], "moisture") {
        match parse_u16(&fields[2]) {
            Some(adc_raw) => {
                let depth = if same_text(&fields[3], "Deep") {
                    Depth::Deep
                } else {
                    Depth::Shallow
                };
                Some(LogEntry::new(fields[0].clone(), Message::Moisture { adc_raw, depth }))
            },
            None => None,
        }
    } else if same_text(&fields[1], "pump") {
        match parse_u16(&fields[4]) {
            Some(duration_s) => Some(
                LogEntry::new(fields[0].clone(), Message::Pump { duration_s }),
            ),
            None => None,
        }
    } else {
        None
    }
}

/// What a CSV file held.
#[derive(Debug)]
pub struct LoadedCsv {
    /// The retained entries, in order.
    pub entries: Vec<LogEntry>,
    /// The averages that stand in the file, however old.
    pub written: WrittenBuckets,
    /// The number of entries in the file, however old.
    pub total: usize,
}

/// What is read from a file with the given lines at the second `now`.
pub open spec fn loaded_from(
    loaded: LoadedCsv,
    lines: Seq<Option<Seq<char>>>,
    now: int,
) -> bool {
    &&& log_view(loaded.entries@) == retained(file_entries(lines), now)
    &&& loaded.written@ == written_keys(file_entries(lines))
    &&& loaded.total == file_entries(lines).len()
}

proof fn lemma_written_push(entries: Seq<EntryView>, e: EntryView)
    ensures
        written_keys(entries.push(e)) == if e.is_moisture() && e.seconds() is Some {
            written_keys(entries).insert((seconds_of(e), e.is_deep()))
        } else {
            written_keys(entries)
        },
{
    let new = entries.push(e);
    assert forall|k: HourKey| #[trigger]
        written_keys(new).contains(k) <==> written_keys(entries).contains(k) || written_as(
            e,
            k,
        ) by {
        if written_keys(entries).contains(k) {
            let i = choose|i: int| 0 <= i < entries.len() && written_as(#[trigger] entries[i], k);
            assert(written_as(new[i], k));
        }
        if written_as(e, k) {
            assert(written_as(new[entries.len() as int], k));
        }
        if written_keys(new).contains(k) {
            let i = choose|i: int| 0 <= i < new.len() && written_as(#[trigger] new[i], k);
            if i < entries.len() {
                assert(written_as(entries[i], k));
            }
        }
    }
    if e.is_moisture() && e.seconds() is Some {
        assert(written_keys(new) =~= written_keys(entries).insert((seconds_of(e), e.is_deep())));
    } else {
        assert(written_keys(new) =~= written_keys(entries));
    }
}

/// Takes the entries of a file at the second `now`: those that are retained, and the keys of
/// all averages.
pub fn load_dated(all: &Vec<DatedEntry>, now: i64) -> (loaded: (Vec<DatedEntry>, WrittenBuckets))
    ensures
        dated_view(loaded.0@) == retained(dated_view(all@), now as int),
        loaded.1@ == written_keys(dated_view(all@)),
{
    let ghost view = dated_view(all@);
    let ghost pred = |e: EntryView| is_retained(e, now as int);
    let mut kept: Vec<DatedEntry> = Vec::new();
    let mut written = WrittenBuckets::new();
    let mut i: usize = 0;
    proof {
        reveal(Seq::filter);
        assert(dated_view(kept@) =~= view.take(0).filter(pred));
        assert(written_keys(view.take(0)) =~= Set::<HourKey>::empty());
    }
    while i < all.len()
        invariant
            i <= all@.len(),
            view == dated_view(all@),
            pred == |e: EntryView| is_retained(e, now as int),
            dated_view(kept@) == view.take(i as int).filter(pred),
            written@ == written_keys(view.take(i as int)),
        decreases all@.len() - i,
    {
        let one = &all[i];
        proof {
            lemma_filter_step(view, pred, i as int);
            assert(view[i as int] == one@);
            assert(view.take(i + 1) =~= view.take(i as int).push(one@));
            lemma_written_push(view.take(i as int), one@);
        }
        if let Some((t, _)) = one.instant {
            if let Message::Moisture { depth, .. } = &one.entry.message {
                let _ = written.insert(t, *depth == Depth::Deep);
            }
            if t as i128 > now as i128 - RETAIN_SECS as i128 {
                let copy = one.clone();
                assert(dated_view(kept@.push(copy)) =~= dated_view(kept@).push(one@));
                kept.push(copy);
            }
        }
        i = i + 1;
    }
    assert(view.take(i as int) =~= view);
    (kept, written)
}

/// Reads the entries that a file's lines hold, the first line left out.
fn read_entries(lines: &Vec<Option<String>>) -> (all: Vec<LogEntry>)
    ensures
        log_view(all@) == file_entries(opt_texts(lines@)),
{
    let mut all: Vec<LogEntry> = Vec::new();
    let ghost body = if lines@.len() == 0 {
        opt_texts(lines@)
    } else {
        opt_texts(lines@).skip(1)
    };
    proof {
        assert(log_view(all@) =~= Seq::<EntryView>::empty());
        assert(body.take(0) =~= Seq::<Option<Seq<char>>>::empty());
    }
    let mut i: usize = 1;
    while i < lines.len()
        invariant
            1 <= i,
            i <= lines@.len() || (i == 1 && lines@.len() == 0),
            body == if lines@.len() == 0 {
                opt_texts(lines@)
            } else {
                opt_texts(lines@).skip(1)
            },
            log_view(all@) == csv_entries(body.take(i - 1)),
        decreases lines@.len() - i,
    {
        proof {
            assert(body.take(i as int).drop_last() =~= body.take(i - 1));
            assert(body.take(i as int).last() == opt_text(lines@[i as int]));
        }
        if let Some(line) = &lines[i] {
            if let Some(entry) = parse_csv_row(line) {
                assert(log_view(all@.push(entry)) =~= log_view(all@).push(entry@));
                all.push(entry);
            }
        }
        i = i + 1;
    }
    assert(body.take(i - 1) =~= body);
    all
}

/// Reads a file's lines at the second `now`. Only what is retained is kept in memory; the
/// file holds everything. A line that could not be read is given as `None`.
pub fn load_csv_at(lines: &Vec<Option<String>>, now: i64) -> (loaded: LoadedCsv)
    ensures
        loaded_from(loaded, opt_texts(lines@), now as int),
{
    let all = read_entries(lines);
    let dated = date_log(&all);
    let (kept, written) = load_dated(&dated, now);
    proof {
        let pred = |e: EntryView| is_retained(e, now as int);
        let view = log_view(all@);
        assert forall|i: int| 0 <= i < kept@.len() implies (#[trigger] kept@[i])@.is_dated() by {
            let e = dated_view(kept@)[i];
            assert(view.filter(pred).contains(e));
            view.lemma_filter_contains_rev(pred, e);
            let j = choose|j: int| 0 <= j < view.len() && view[j] == e;
            assert(view[j] == all@[j]@);
        }
    }
    LoadedCsv { entries: undate_log(kept), written, total: all.len() }
}

/// Reads a file's lines at the current time.
pub fn load_csv(lines: &Vec<Option<String>>) -> (loaded: LoadedCsv)
    ensures
        exists|now: i64|
            0 <= now <= LAST_SECOND && #[trigger] loaded_from(
                loaded,
                opt_texts(lines@),
                now as int,
            ),
{
    let (now, _) = now_instant();
    load_csv_at(lines, now)
}

} // verus!
