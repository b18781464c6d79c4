//! Log compaction.
//!
//! Compaction follows every new entry. It keeps
//!   - all events (pump and water) verbatim: they are sparse and always useful;
//!   - the moisture readings of the raw window verbatim;
//!   - older moisture readings as one average per hour and sensor;
//!   - nothing that is older than the retention time, but for the average of the hour that the
//!     limit falls into, which starts before the limit and goes with the next compaction.

use vstd::prelude::*;

use crate::clock::{instant_of, local_rfc3339, local_stamp_of, now_instant, read_stamp, LAST_SECOND};
use crate::config::{RAW_WINDOW_SECS, RETAIN_SECS};
use crate::hours::{
    hour_means, hourly_means, is_retained, lemma_filter_step, older_readings, seconds_of, HourMean,
};
use crate::laws::lemma_compaction_is_dated;
use crate::order::{sort_by_stamp, stable_sort_of};
use crate::types::{
    date_log, dated_view, log_view, undate_log, DatedEntry, Depth, EntryView, LogEntry, Message,
};
use crate::written::{HourKey, WrittenBuckets};

verus! {

/// Retained readings of the raw window.
pub open spec fn is_raw(e: EntryView, now: int) -> bool {
    is_retained(e, now) && e.is_moisture() && seconds_of(e) >= now - RAW_WINDOW_SECS
}

/// Retained entries that are no readings.
pub open spec fn is_event(e: EntryView, now: int) -> bool {
    is_retained(e, now) && !e.is_moisture()
}

/// The readings of the raw window, in order.
pub open spec fn raw_readings(log: Seq<EntryView>, now: int) -> Seq<EntryView> {
    log.filter(|e: EntryView| is_raw(e, now))
}

/// The retained events, in order.
pub open spec fn events(log: Seq<EntryView>, now: int) -> Seq<EntryView> {
    log.filter(|e: EntryView| is_event(e, now))
}

/// A stamp together with the instant that it is taken to name.
#[derive(Debug)]
pub struct Stamp {
    pub text: String,
    pub instant: Option<(i64, u32)>,
}

/// The mathematical value of a [`Stamp`].
pub struct StampView {
    pub text: Seq<char>,
    pub instant: Option<(i64, u32)>,
}

impl View for Stamp {
    type V = StampView;

    open spec fn view(&self) -> StampView {
        StampView { text: self.text@, instant: self.instant }
    }
}

/// The values of a run of stamps, some of which may be missing.
pub open spec fn stamps_view(stamps: Seq<Option<Stamp>>) -> Seq<Option<StampView>> {
    stamps.map_values(
        |stamp: Option<Stamp>|
            match stamp {
                Some(s) => Some(s@),
                None => None,
            },
    )
}

/// An average as a log entry under the given stamp, with the readings it was made of.
pub open spec fn mean_entry(m: HourMean, stamp: StampView) -> EntryView {
    EntryView {
        timestamp: stamp.text,
        message: Message::Moisture {
            adc_raw: m.mean,
            depth: if m.deep {
                Depth::Deep
            } else {
                Depth::Shallow
            },
        },
        tally: Some(m.tally),
        instant: stamp.instant,
    }
}

/// The averages as log entries, each under its own stamp; one without a stamp is left out.
pub open spec fn mean_entries(
    means: Seq<HourMean>,
    stamps: Seq<Option<StampView>>,
) -> Seq<EntryView>
    decreases means.len(),
{
    if means.len() == 0 {
        Seq::empty()
    } else {
        let rest = mean_entries(means.drop_last(), stamps);
        let i = means.len() - 1;
        if i < stamps.len() && stamps[i] is Some {
            rest.push(mean_entry(means[i], stamps[i]->0))
        } else {
            rest
        }
    }
}

/// The key under which an average is noted as written.
pub open spec fn row_key(e: EntryView) -> HourKey {
    (seconds_of(e), e.is_deep())
}

/// An average is sealed once its stamp can be read and lies before `edge`.
pub open spec fn is_sealed(e: EntryView, edge: int) -> bool {
    e.is_moisture() && e.seconds() is Some && seconds_of(e) < edge
}

/// Goes through the averages in order: the sealed ones that had not been written, and the
/// set of what is written once they are.
pub open spec fn seal(entries: Seq<EntryView>, written: Set<HourKey>, edge: int) -> (
    Seq<EntryView>,
    Set<HourKey>,
)
    decreases entries.len(),
{
    if entries.len() == 0 {
        (Seq::empty(), written)
    } else {
        let (rows, known) = seal(entries.drop_last(), written, edge);
        let e = entries.last();
        if is_sealed(e, edge) && !known.contains(row_key(e)) {
            (rows.push(e), known.insert(row_key(e)))
        } else {
            (rows, known)
        }
    }
}

/// The second before which an hour must start to lie outside the raw window as a whole.
pub open spec fn seal_edge(now: int) -> int {
    now - RAW_WINDOW_SECS - 3600
}

/// The averages that compaction makes of a log.
pub open spec fn averages(
    log: Seq<EntryView>,
    now: int,
    stamps: Seq<Option<StampView>>,
) -> Seq<EntryView> {
    mean_entries(hour_means(older_readings(log, now)), stamps)
}

/// What compaction does at the second `now`, given the stamps of the averaged hours: the
/// log before and after, the written averages before and after, and the rows that are to be
/// written now.
pub open spec fn compaction(
    log: Seq<EntryView>,
    written: Set<HourKey>,
    now: int,
    stamps: Seq<Option<StampView>>,
    new_log: Seq<EntryView>,
    new_written: Set<HourKey>,
    rows: Seq<EntryView>,
) -> bool {
    let means = averages(log, now, stamps);
    &&& stable_sort_of(means + events(log, now) + raw_readings(log, now), new_log)
    &&& (rows, new_written) == seal(means, written, seal_edge(now))
}

/// The stamps are those of the averaged hours, in the machine's zone.
pub open spec fn stamps_of_hours(
    log: Seq<EntryView>,
    now: int,
    stamps: Seq<Option<StampView>>,
) -> bool {
    let means = hour_means(older_readings(log, now));
    &&& stamps.len() == means.len()
    &&& forall|i: int|
        0 <= i < means.len() ==> stamp_of_hour((#[trigger] means[i]).hour, stamps[i])
}

/// What is known of the stamp of an hour that starts at the given second.
pub open spec fn stamp_of_hour(hour: i64, stamp: Option<StampView>) -> bool {
    match stamp {
        Some(s) => local_stamp_of(hour as int, 0, Some(s.text)) && s.instant == instant_of(s.text),
        None => local_stamp_of(hour as int, 0, None),
    }
}

/// The log's events and raw readings.
fn verbatim_entries(log: &Vec<DatedEntry>, now: i64) -> (kept: (Vec<DatedEntry>, Vec<DatedEntry>))
    ensures
        dated_view(kept.0@) == events(dated_view(log@), now as int),
        dated_view(kept.1@) == raw_readings(dated_view(log@), now as int),
{
    let ghost view = dated_view(log@);
    let ghost event = |e: EntryView| is_event(e, now as int);
    let ghost raw = |e: EntryView| is_raw(e, now as int);
    let mut event_entries: Vec<DatedEntry> = Vec::new();
    let mut raw_entries: Vec<DatedEntry> = Vec::new();
    let mut i: usize = 0;
    proof {
        reveal(Seq::filter);
        assert(dated_view(event_entries@) =~= view.take(0).filter(event));
        assert(dated_view(raw_entries@) =~= view.take(0).filter(raw));
    }
    while i < log.len()
        invariant
            i <= log@.len(),
            view == dated_view(log@),
            event == |e: EntryView| is_event(e, now as int),
            raw == |e: EntryView| is_raw(e, now as int),
            dated_view(event_entries@) == view.take(i as int).filter(event),
            dated_view(raw_entries@) == view.take(i as int).filter(raw),
        decreases log@.len() - i,
    {
        let entry = &log[i];
        proof {
            lemma_filter_step(view, event, i as int);
            lemma_filter_step(view, raw, i as int);
            assert(view[i as int] == entry@);
        }
        if let Some((t, _)) = entry.instant {
            if t as i128 > now as i128 - RETAIN_SECS as i128 {
                match &entry.entry.message {
                    Message::Moisture { .. } => {
                        if t as i128 >= now as i128 - RAW_WINDOW_SECS as i128 {
                            let copy = entry.clone();
                            assert(dated_view(raw_entries@.push(copy)) =~= dated_view(
                                raw_entries@,
                            ).push(entry@));
                            raw_entries.push(copy);
                        }
                    },
                    _ => {
                        let copy = entry.clone();
                        assert(dated_view(event_entries@.push(copy)) =~= dated_view(
                            event_entries@,
                        ).push(entry@));
                        event_entries.push(copy);
                    },
                }
            }
        }
        i = i + 1;
    }
    assert(view.take(i as int) =~= view);
    (event_entries, raw_entries)
}

fn stamped_means(means: &Vec<HourMean>, stamps: &Vec<Option<Stamp>>) -> (entries: Vec<
    DatedEntry,
>)
    ensures
        dated_view(entries@) == mean_entries(means@, stamps_view(stamps@)),
{
    let mut entries: Vec<DatedEntry> = Vec::new();
    let mut i: usize = 0;
    assert(dated_view(entries@) =~= mean_entries(means@.take(0), stamps_view(stamps@)));
    while i < means.len()
        invariant
            i <= means@.len(),
            dated_view(entries@) == mean_entries(means@.take(i as int), stamps_view(stamps@)),
        decreases means@.len() - i,
    {
        assert(means@.take(i + 1).drop_last() =~= means@.take(i as int));
        if i < stamps.len() {
            if let Some(stamp) = &stamps[i] {
                let depth = if means[i].deep {
                    Depth::Deep
                } else {
                    Depth::Shallow
                };
                let entry = LogEntry {
                    timestamp: stamp.text.clone(),
                    message: Message::Moisture { adc_raw: means[i].mean, depth },
                    tally: Some(means[i].tally),
                };
                let entry = DatedEntry { entry, instant: stamp.instant };
                assert(dated_view(entries@.push(entry)) =~= dated_view(entries@).push(entry@));
                entries.push(entry);
            }
        }
        i = i + 1;
    }
    assert(means@.take(i as int) =~= means@);
    entries
}

fn seal_entries(entries: &Vec<DatedEntry>, written: &mut WrittenBuckets, now: i64) -> (rows: Vec<
    DatedEntry,
>)
    ensures
        (dated_view(rows@), final(written)@) == seal(
            dated_view(entries@),
            old(written)@,
            seal_edge(now as int),
        ),
{
    let ghost view = dated_view(entries@);
    let ghost edge = seal_edge(now as int);
    let ghost start = written@;
    let mut rows: Vec<DatedEntry> = Vec::new();
    let mut i: usize = 0;
    assert(dated_view(rows@) =~= Seq::<EntryView>::empty());
    while i < entries.len()
        invariant
            i <= entries@.len(),
            view == dated_view(entries@),
            edge == seal_edge(now as int),
            (dated_view(rows@), written@) == seal(view.take(i as int), start, edge),
        decreases entries@.len() - i,
    {
        let entry = &entries[i];
        let ghost known = written@;
        proof {
            assert(view.take(i + 1).drop_last() =~= view.take(i as int));
            assert(view.take(i + 1).last() == entry@);
        }
        if let Message::Moisture { depth, .. } = &entry.entry.message {
            if let Some((t, _)) = entry.instant {
                let deep = *depth == Depth::Deep;
                if (t as i128) < now as i128 - RAW_WINDOW_SECS as i128 - 3600 && written.insert(
                    t,
                    deep,
                ) {
                    let copy = entry.clone();
                    assert(dated_view(rows@.push(copy)) =~= dated_view(rows@).push(entry@));
                    rows.push(copy);
                } else {
                    assert(written@ =~= known);
                }
            }
        }
        i = i + 1;
    }
    assert(view.take(i as int) =~= view);
    rows
}

/// Compacts a dated log at the second `now`, with the given stamps for the averaged hours (see
/// [`hourly_means`]). Returns the averages that are to be appended to the CSV file.
pub fn compact_dated(
    log: &mut Vec<DatedEntry>,
    written: &mut WrittenBuckets,
    now: i64,
    stamps: &Vec<Option<Stamp>>,
) -> (rows: Vec<DatedEntry>)
    ensures
        compaction(
            dated_view(old(log)@),
            old(written)@,
            now as int,
            stamps_view(stamps@),
            dated_view(final(log)@),
            final(written)@,
            dated_view(rows@),
        ),
{
    let means = hourly_means(log, now);
    let mut entries = stamped_means(&means, stamps);
    let rows = seal_entries(&entries, written, now);
    let (mut event_entries, mut raw_entries) = verbatim_entries(log, now);
    let ghost (a, b, c) = (entries@, event_entries@, raw_entries@);
    entries.append(&mut event_entries);
    entries.append(&mut raw_entries);
    assert(dated_view(entries@) =~= dated_view(a) + dated_view(b) + dated_view(c));
    sort_by_stamp(&mut entries);
    *log = entries;
    rows
}

/// The stamps of the given averages, in the machine's zone.
fn stamps_for(means: &Vec<HourMean>) -> (stamps: Vec<Option<Stamp>>)
    ensures
        stamps@.len() == means@.len(),
        forall|i: int|
            0 <= i < means@.len() ==> stamp_of_hour(
                (#[trigger] means@[i]).hour,
                stamps_view(stamps@)[i],
            ),
{
    let mut stamps: Vec<Option<Stamp>> = Vec::new();
    let mut i: usize = 0;
    while i < means.len()
        invariant
            i <= means@.len(),
            stamps@.len() == i,
            forall|j: int|
                0 <= j < i ==> stamp_of_hour(
                    (#[trigger] means@[j]).hour,
                    stamps_view(stamps@)[j],
                ),
        decreases means@.len() - i,
    {
        let ghost before = stamps@;
        let stamp = match local_rfc3339(means[i].hour, 0) {
            Some(text) => {
                let instant = read_stamp(&text);
                Some(Stamp { text, instant })
            },
            None => None,
        };
        stamps.push(stamp);
        assert(stamps_view(stamps@).drop_last() =~= stamps_view(before));
        i = i + 1;
    }
    stamps
}

/// Compacts the log at the second `now`. The averaged hours are stamped in the machine's
/// zone.
pub fn compact_log_at(log: &mut Vec<LogEntry>, written: &mut WrittenBuckets, now: i64) -> (rows:
    Vec<LogEntry>)
    ensures
        exists|stamps: Seq<Option<StampView>>|
            stamps_of_hours(log_view(old(log)@), now as int, stamps) && #[trigger] compaction(
                log_view(old(log)@),
                old(written)@,
                now as int,
                stamps,
                log_view(final(log)@),
                final(written)@,
                log_view(rows@),
            ),
{
    let ghost view = log_view(log@);
    let ghost known = written@;
    let mut dated = date_log(log);
    let stamps = stamps_for(&hourly_means(&dated, now));
    let rows = compact_dated(&mut dated, written, now, &stamps);
    let ghost stamps_seen = stamps_view(stamps@);
    proof {
        lemma_compaction_is_dated(
            view,
            known,
            now as int,
            stamps_seen,
            dated_view(dated@),
            written@,
            dated_view(rows@),
        );
        assert forall|i: int| 0 <= i < dated@.len() implies (#[trigger] dated@[i])@.is_dated() by {
            assert(dated_view(dated@)[i].is_dated());
        }
        assert forall|i: int| 0 <= i < rows@.len() implies (#[trigger] rows@[i])@.is_dated() by {
            assert(dated_view(rows@)[i].is_dated());
        }
    }
    *log = undate_log(dated);
    undate_log(rows)
}

/// Compacts the log at the current time. Returns the newly sealed hourly averages, which
/// are to be appended to the CSV file.
pub fn compact_log(log: &mut Vec<LogEntry>, written: &mut WrittenBuckets) -> (rows: Vec<LogEntry>)
    ensures
        exists|now: i64, stamps: Seq<Option<StampView>>|
            0 <= now <= LAST_SECOND && stamps_of_hours(log_view(old(log)@), now as int, stamps)
                && #[trigger] compaction(
                log_view(old(log)@),
                old(written)@,
                now as int,
                stamps,
                log_view(final(log)@),
                final(written)@,
                log_view(rows@),
            ),
{
    let (now, _) = now_instant();
    compact_log_at(log, written, now)
}

} // verus!
