//! What compaction and the CSV file promise together.

use vstd::prelude::*;

use crate::clock::{
    law_stamps_are_read_back, lemma_stamp_has_no_comma, minute_stamp, readable_stamp,
};
use crate::compact::{
    averages, compaction, events, is_event, is_raw, is_sealed, mean_entries, mean_entry,
    raw_readings, row_key, seal, seal_edge, stamp_of_hour, stamps_of_hours, StampView,
};
use crate::config::{RAW_WINDOW_SECS, RETAIN_SECS};
use crate::csv::{
    csv_appended, csv_entries, csv_entry, csv_line, csv_lines, depth_name, file_entries,
    loaded_from, retained, stored_entry, written_as, written_keys, LoadedCsv,
};
use crate::hours::{
    hour_count, hour_key, hour_keys, hour_mean, hour_means, hour_start, hour_sum, is_older,
    is_retained, law_mean_within_readings, law_one_mean_per_hour, lemma_key_counted,
    older_readings, seconds_of, tally_fits, tally_of, HourMean,
};
use crate::order::{law_sort_permutes, stable_sort_of, text_le};
use crate::session::{recording, stamp_of_now, CsvUpdate};
use crate::text::{
    all_digits, decimal, is_digit, law_decimal_round_trip, lemma_decimal, lemma_split_first,
    split_fields,
};
use crate::types::{log_view, EntryView, LogEntry, Message};
use crate::watering::{last_pump, water_reference};
use crate::written::HourKey;

verus! {

/// Each averaged hour has a stamp that is read back as the start of that hour.
pub open spec fn faithful(means: Seq<HourMean>, stamps: Seq<Option<StampView>>) -> bool {
    &&& stamps.len() == means.len()
    &&& forall|i: int|
        0 <= i < means.len() ==> {
            &&& #[trigger] stamps[i] is Some
            &&& stamps[i]->0.instant matches Some((t, _))
            &&& t == means[i].hour
        }
}

/// In a zone whose offset is a whole number of minutes, the stamps of the averaged hours are
/// faithful.
pub proof fn law_minute_zones_are_faithful(
    log: Seq<EntryView>,
    now: int,
    stamps: Seq<Option<StampView>>,
)
    requires
        stamps_of_hours(log, now, stamps),
        forall|i: int|
            0 <= i < stamps.len() ==> {
                &&& #[trigger] stamps[i] matches Some(s)
                &&& minute_stamp(hour_means(older_readings(log, now))[i].hour as int, 0, s.text)
            },
    ensures
        faithful(hour_means(older_readings(log, now)), stamps),
{
    let means = hour_means(older_readings(log, now));
    assert forall|i: int| 0 <= i < means.len() implies {
        &&& #[trigger] stamps[i] is Some
        &&& stamps[i]->0.instant matches Some((t, _))
        &&& t == means[i].hour
    } by {
        assert(stamp_of_hour(means[i].hour, stamps[i]));
        law_stamps_are_read_back(means[i].hour, 0, stamps[i]->0.text);
    }
}

pub proof fn lemma_filter_count(log: Seq<EntryView>, pred: spec_fn(EntryView) -> bool, e: EntryView)
    ensures
        log.filter(pred).to_multiset().count(e) == if pred(e) {
            log.to_multiset().count(e)
        } else {
            0
        },
    decreases log.len(),
{
    broadcast use vstd::seq_lib::group_to_multiset_ensures;

    reveal(Seq::filter);
    if log.len() > 0 {
        lemma_filter_count(log.drop_last(), pred, e);
        assert(log =~= log.drop_last().push(log.last()));
    }
}

pub proof fn lemma_filter_all(s: Seq<EntryView>, p: spec_fn(EntryView) -> bool)
    requires
        forall|i: int| 0 <= i < s.len() ==> p(#[trigger] s[i]),
    ensures
        s.filter(p) == s,
    decreases s.len(),
{
    reveal(Seq::filter);
    if s.len() > 0 {
        let rest = s.drop_last();
        assert forall|i: int| 0 <= i < rest.len() implies p(#[trigger] rest[i]) by {
            assert(p(s[i]));
        }
        lemma_filter_all(rest, p);
        assert(p(s[s.len() - 1]));
        assert(rest.push(s.last()) =~= s);
    }
}

pub proof fn lemma_filter_none(s: Seq<EntryView>, p: spec_fn(EntryView) -> bool)
    requires
        forall|i: int| 0 <= i < s.len() ==> !p(#[trigger] s[i]),
    ensures
        s.filter(p) == Seq::<EntryView>::empty(),
{
    s.lemma_all_neg_filter_empty(p);
    assert(s.filter(p) =~= Seq::<EntryView>::empty());
}

/// Averages are readings.
proof fn lemma_means_are_moisture(means: Seq<HourMean>, stamps: Seq<Option<StampView>>)
    ensures
        forall|i: int|
            0 <= i < mean_entries(means, stamps).len() ==> (#[trigger] mean_entries(
                means,
                stamps,
            )[i]).is_moisture(),
    decreases means.len(),
{
    if means.len() > 0 {
        let rest = mean_entries(means.drop_last(), stamps);
        let all = mean_entries(means, stamps);
        lemma_means_are_moisture(means.drop_last(), stamps);
        assert forall|i: int| 0 <= i < all.len() implies (#[trigger] all[i]).is_moisture() by {
            if i < rest.len() {
                assert(rest[i].is_moisture());
            }
        }
    }
}

/// With faithful stamps there is one entry per average, in the same order.
pub proof fn lemma_faithful_entries(means: Seq<HourMean>, stamps: Seq<Option<StampView>>, n: int)
    requires
        faithful(means, stamps),
        0 <= n <= means.len(),
    ensures
        mean_entries(means.take(n), stamps).len() == n,
        forall|i: int|
            0 <= i < n ==> #[trigger] mean_entries(means.take(n), stamps)[i] == mean_entry(
                means[i],
                stamps[i]->0,
            ),
    decreases n,
{
    if n > 0 {
        lemma_faithful_entries(means, stamps, n - 1);
        assert(means.take(n).drop_last() =~= means.take(n - 1));
        assert(stamps[n - 1] is Some);
    }
}

proof fn lemma_count_absent(log: Seq<EntryView>, e: EntryView)
    requires
        forall|i: int| 0 <= i < log.len() ==> #[trigger] log[i] != e,
    ensures
        log.to_multiset().count(e) == 0,
{
    broadcast use vstd::seq_lib::group_to_multiset_ensures;

    if log.to_multiset().count(e) > 0 {
        assert(log.contains(e));
    }
}

/// How often an entry is in a compacted log.
pub proof fn lemma_compacted_count(
    log: Seq<EntryView>,
    now: int,
    stamps: Seq<Option<StampView>>,
    new_log: Seq<EntryView>,
    e: EntryView,
)
    requires
        stable_sort_of(
            averages(log, now, stamps) + events(log, now) + raw_readings(log, now),
            new_log,
        ),
    ensures
        new_log.to_multiset().count(e) == averages(log, now, stamps).to_multiset().count(e)
            + events(log, now).to_multiset().count(e) + raw_readings(
            log,
            now,
        ).to_multiset().count(e),
{
    broadcast use vstd::seq_lib::group_to_multiset_ensures;

    let (a, b, c) = (averages(log, now, stamps), events(log, now), raw_readings(log, now));
    law_sort_permutes(a + b + c, new_log);
    vstd::seq_lib::lemma_multiset_commutative(a, b);
    vstd::seq_lib::lemma_multiset_commutative(a + b, c);
}

/// Compaction keeps events verbatim: a retained event is in the log as often as before, and
/// one that is not retained is gone.
pub proof fn law_events_are_kept(
    log: Seq<EntryView>,
    written: Set<HourKey>,
    now: int,
    stamps: Seq<Option<StampView>>,
    new_log: Seq<EntryView>,
    new_written: Set<HourKey>,
    rows: Seq<EntryView>,
    e: EntryView,
)
    requires
        compaction(log, written, now, stamps, new_log, new_written, rows),
        !e.is_moisture(),
    ensures
        new_log.to_multiset().count(e) == if is_retained(e, now) {
            log.to_multiset().count(e)
        } else {
            0
        },
{
    lemma_compacted_count(log, now, stamps, new_log, e);
    lemma_filter_count(log, |x: EntryView| is_event(x, now), e);
    lemma_filter_count(log, |x: EntryView| is_raw(x, now), e);
    let means = hour_means(older_readings(log, now));
    lemma_means_are_moisture(means, stamps);
    lemma_count_absent(averages(log, now, stamps), e);
}

/// Compaction keeps the raw window verbatim: none of its readings is lost.
pub proof fn law_raw_readings_are_kept(
    log: Seq<EntryView>,
    written: Set<HourKey>,
    now: int,
    stamps: Seq<Option<StampView>>,
    new_log: Seq<EntryView>,
    new_written: Set<HourKey>,
    rows: Seq<EntryView>,
    e: EntryView,
)
    requires
        compaction(log, written, now, stamps, new_log, new_written, rows),
        is_raw(e, now),
    ensures
        new_log.to_multiset().count(e) >= log.to_multiset().count(e),
{
    lemma_compacted_count(log, now, stamps, new_log, e);
    lemma_filter_count(log, |x: EntryView| is_raw(x, now), e);
}

/// An hour starts less than an hour before any second in it, and not after it.
pub proof fn lemma_hour_start(t: i64)
    ensures
        t - 3600 < hour_start(t) <= t,
        hour_start(hour_start(t)) == hour_start(t),
{
}

/// The averages of a log, one by one: each stands for an hour of an older reading.
pub proof fn lemma_average_origin(
    log: Seq<EntryView>,
    now: int,
    stamps: Seq<Option<StampView>>,
    e: EntryView,
) -> (r: EntryView)
    requires
        faithful(hour_means(older_readings(log, now)), stamps),
        averages(log, now, stamps).contains(e),
    ensures
        is_older(r, now),
        log.contains(r),
        e.is_moisture(),
        e.seconds() == Some(hour_start(seconds_of(r))),
        e.is_deep() == r.is_deep(),
{
    let readings = older_readings(log, now);
    let means = hour_means(readings);
    let entries = averages(log, now, stamps);
    assert(means.take(means.len() as int) =~= means);
    lemma_faithful_entries(means, stamps, means.len() as int);
    let i = choose|i: int| 0 <= i < entries.len() && entries[i] == e;
    assert(e == mean_entry(means[i], stamps[i]->0));
    law_one_mean_per_hour(readings);
    assert(hour_keys(readings).contains(hour_keys(readings)[i]));
    let x = choose|x: int|
        0 <= x < readings.len() && hour_key(#[trigger] readings[x]) == hour_keys(readings)[i];
    let r = readings[x];
    log.lemma_filter_pred(|y: EntryView| is_older(y, now), x);
    assert(readings.contains(r));
    log.lemma_filter_contains_rev(|y: EntryView| is_older(y, now), r);
    assert(means[i].key() == hour_keys(readings)[i]);
    r
}

/// In a compacted log nothing is older than the retention time, but for the average of the
/// hour that the limit falls into, which is less than an hour older. If no averaged hour
/// starts at the limit or before it, nothing is.
pub proof fn law_nothing_outlives_retention(
    log: Seq<EntryView>,
    written: Set<HourKey>,
    now: int,
    stamps: Seq<Option<StampView>>,
    new_log: Seq<EntryView>,
    new_written: Set<HourKey>,
    rows: Seq<EntryView>,
    e: EntryView,
)
    requires
        compaction(log, written, now, stamps, new_log, new_written, rows),
        faithful(hour_means(older_readings(log, now)), stamps),
        new_log.contains(e),
    ensures
        e.seconds() is Some,
        seconds_of(e) > now - RETAIN_SECS - 3600,
        !e.is_moisture() ==> is_retained(e, now),
        (forall|k: HourKey|
            hour_keys(older_readings(log, now)).contains(k) ==> #[trigger] k.0 > now - RETAIN_SECS)
            ==> is_retained(e, now),
{
    broadcast use vstd::seq_lib::group_to_multiset_ensures;

    lemma_compacted_count(log, now, stamps, new_log, e);
    lemma_filter_count(log, |x: EntryView| is_event(x, now), e);
    lemma_filter_count(log, |x: EntryView| is_raw(x, now), e);
    assert(new_log.to_multiset().count(e) > 0);
    if !is_event(e, now) && !is_raw(e, now) {
        assert(averages(log, now, stamps).contains(e));
        let r = lemma_average_origin(log, now, stamps, e);
        lemma_hour_start(seconds_of(r));
        let readings = older_readings(log, now);
        law_one_mean_per_hour(readings);
        log.lemma_filter_contains(
            |y: EntryView| is_older(y, now),
            choose|i: int| 0 <= i < log.len() && log[i] == r,
        );
        let x = choose|x: int| 0 <= x < readings.len() && readings[x] == r;
        assert(hour_key(readings[x]) == hour_key(r));
        assert(hour_keys(readings).contains(hour_key(r)));
        let k = hour_key(r);
        assert(k.0 == seconds_of(e));
    }
}

/// The raw window and the averages do not mix: the log holds a reading of the raw window
/// exactly as often as before.
pub proof fn law_raw_readings_are_verbatim(
    log: Seq<EntryView>,
    written: Set<HourKey>,
    now: int,
    stamps: Seq<Option<StampView>>,
    new_log: Seq<EntryView>,
    new_written: Set<HourKey>,
    rows: Seq<EntryView>,
    e: EntryView,
)
    requires
        compaction(log, written, now, stamps, new_log, new_written, rows),
        faithful(hour_means(older_readings(log, now)), stamps),
        is_raw(e, now),
    ensures
        new_log.to_multiset().count(e) == log.to_multiset().count(e),
{
    broadcast use vstd::seq_lib::group_to_multiset_ensures;

    lemma_compacted_count(log, now, stamps, new_log, e);
    lemma_filter_count(log, |x: EntryView| is_event(x, now), e);
    lemma_filter_count(log, |x: EntryView| is_raw(x, now), e);
    if averages(log, now, stamps).contains(e) {
        let r = lemma_average_origin(log, now, stamps, e);
        lemma_hour_start(seconds_of(r));
    }
    if averages(log, now, stamps).to_multiset().count(e) > 0 {
        assert(averages(log, now, stamps).contains(e));
    }
}

/// A received entry is in the log afterwards, if it is an event that is retained or a reading
/// of the raw window. A pump event is handed out for the CSV file at once.
pub proof fn law_received_entries_are_logged(
    log: Seq<EntryView>,
    written: Set<HourKey>,
    e: EntryView,
    now: int,
    stamps: Seq<Option<StampView>>,
    new_log: Seq<EntryView>,
    new_written: Set<HourKey>,
    update: CsvUpdate,
)
    requires
        recording(log, written, e, now, stamps, new_log, new_written, update),
        is_event(e, now) || is_raw(e, now),
    ensures
        new_log.contains(e),
        e.is_pump() ==> log_view(update.pump@) == seq![e],
{
    broadcast use vstd::seq_lib::group_to_multiset_ensures;

    let rows = log_view(update.sealed@);
    let all = log.push(e);
    assert(all[log.len() as int] == e);
    assert(all.to_multiset().count(e) > 0);
    if is_event(e, now) {
        law_events_are_kept(all, written, now, stamps, new_log, new_written, rows, e);
    } else {
        law_raw_readings_are_kept(all, written, now, stamps, new_log, new_written, rows, e);
    }
}

/// A received message is in the log afterwards, whatever it is: if the clock does not jump
/// between its stamp and the compaction, and the machine's zone does not round to a full day,
/// the message is recent enough to be kept verbatim.
pub proof fn law_received_messages_are_logged(
    log: Seq<EntryView>,
    written: Set<HourKey>,
    clock: (i64, u32),
    e: EntryView,
    now: int,
    stamps: Seq<Option<StampView>>,
    new_log: Seq<EntryView>,
    new_written: Set<HourKey>,
    update: CsvUpdate,
)
    requires
        stamp_of_now(clock, e.timestamp),
        readable_stamp(clock.0 as int, clock.1, e.timestamp),
        e.is_dated(),
        now - clock.0 <= RAW_WINDOW_SECS - 30,
        recording(log, written, e, now, stamps, new_log, new_written, update),
    ensures
        e.seconds() matches Some(t) && -30 <= t - clock.0 <= 30,
        new_log.contains(e),
        e.is_pump() ==> log_view(update.pump@) == seq![e],
{
    law_stamps_are_read_back(clock.0, clock.1, e.timestamp);
    law_received_entries_are_logged(log, written, e, now, stamps, new_log, new_written, update);
}

/// The latest pump event of a log, and where it stands.
proof fn lemma_last_pump(log: Seq<EntryView>, x: int) -> (y: int)
    requires
        0 <= x < log.len(),
        log[x].is_pump(),
    ensures
        x <= y < log.len(),
        log[y].is_pump(),
        last_pump(log) == Some(log[y]),
    decreases log.len(),
{
    if log.last().is_pump() {
        log.len() - 1
    } else {
        lemma_last_pump(log.drop_last(), x)
    }
}

/// Receiving a pump event sets the schedule back: once it is in the log, the next watering
/// counts from it. Its stamp must be greater, as a text, than that of every other pump
/// event, since that is how the log is ordered.
pub proof fn law_received_pump_resets_schedule(
    log: Seq<EntryView>,
    written: Set<HourKey>,
    e: EntryView,
    now: int,
    stamps: Seq<Option<StampView>>,
    new_log: Seq<EntryView>,
    new_written: Set<HourKey>,
    update: CsvUpdate,
    start_time: i64,
)
    requires
        recording(log, written, e, now, stamps, new_log, new_written, update),
        e.is_pump(),
        is_retained(e, now),
        forall|i: int|
            0 <= i < log.len() && (#[trigger] log[i]).is_pump() ==> !text_le(
                e.timestamp,
                log[i].timestamp,
            ),
    ensures
        water_reference(new_log, start_time) == seconds_of(e),
{
    broadcast use vstd::seq_lib::group_to_multiset_ensures;

    law_received_entries_are_logged(log, written, e, now, stamps, new_log, new_written, update);
    let x = choose|x: int| 0 <= x < new_log.len() && new_log[x] == e;
    let y = lemma_last_pump(new_log, x);
    let p = new_log[y];
    let all = log.push(e);
    let rows = log_view(update.sealed@);
    law_events_are_kept(all, written, now, stamps, new_log, new_written, rows, p);
    assert(new_log.contains(p));
    assert(all.contains(p));
    let z = choose|z: int| 0 <= z < all.len() && all[z] == p;
    assert(text_le(new_log[x].timestamp, new_log[y].timestamp));
    if z < log.len() {
        assert(log[z].is_pump());
    }
}

/// Sealing goes through the averages once: it hands out sealed averages only, none that was
/// written before and no two with the same key. Afterwards they count as written, with all
/// that did before and nothing else; no sealed average is left unwritten.
pub proof fn law_sealing(entries: Seq<EntryView>, written: Set<HourKey>, edge: int)
    ensures
        ({
            let (rows, known) = seal(entries, written, edge);
            &&& forall|i: int|
                0 <= i < rows.len() ==> {
                    let e = #[trigger] rows[i];
                    &&& is_sealed(e, edge)
                    &&& entries.contains(e)
                    &&& !written.contains(row_key(e))
                }
            &&& forall|i: int, j: int|
                0 <= i < j < rows.len() ==> row_key(#[trigger] rows[i]) != row_key(
                    #[trigger] rows[j],
                )
            &&& forall|k: HourKey| #[trigger]
                known.contains(k) <==> written.contains(k) || exists|i: int|
                    0 <= i < rows.len() && row_key(#[trigger] rows[i]) == k
            &&& forall|i: int|
                0 <= i < entries.len() && is_sealed(#[trigger] entries[i], edge)
                    ==> known.contains(row_key(entries[i]))
        }),
    decreases entries.len(),
{
    if entries.len() > 0 {
        let rest = entries.drop_last();
        let e = entries.last();
        law_sealing(rest, written, edge);
        let (rows, known) = seal(rest, written, edge);
        let (new_rows, new_known) = seal(entries, written, edge);
        assert(entries[entries.len() - 1] == e);
        assert forall|i: int| 0 <= i < new_rows.len() implies {
            let r = #[trigger] new_rows[i];
            &&& is_sealed(r, edge)
            &&& entries.contains(r)
            &&& !written.contains(row_key(r))
        } by {
            if i < rows.len() {
                assert(new_rows[i] == rows[i]);
                let j = choose|j: int| 0 <= j < rest.len() && rest[j] == rows[i];
                assert(entries[j] == rows[i]);
            } else {
                assert(!known.contains(row_key(e)));
            }
        }
        assert forall|i: int, j: int| 0 <= i < j < new_rows.len() implies row_key(
            #[trigger] new_rows[i],
        ) != row_key(#[trigger] new_rows[j]) by {
            assert(new_rows[i] == rows[i]);
            if j == rows.len() {
                assert(known.contains(row_key(rows[i])));
            } else {
                assert(new_rows[j] == rows[j]);
            }
        }
        assert forall|k: HourKey| #[trigger]
            new_known.contains(k) <==> written.contains(k) || exists|i: int|
                0 <= i < new_rows.len() && row_key(#[trigger] new_rows[i]) == k by {
            if known.contains(k) && !written.contains(k) {
                let i = choose|i: int| 0 <= i < rows.len() && row_key(#[trigger] rows[i]) == k;
                assert(row_key(new_rows[i]) == k);
            }
            if new_known.contains(k) && !known.contains(k) {
                assert(row_key(new_rows[rows.len() as int]) == k);
            }
            if exists|i: int| 0 <= i < new_rows.len() && row_key(#[trigger] new_rows[i]) == k {
                let i = choose|i: int|
                    0 <= i < new_rows.len() && row_key(#[trigger] new_rows[i]) == k;
                if i < rows.len() {
                    assert(row_key(rows[i]) == k);
                }
            }
        }
        assert forall|i: int|
            0 <= i < entries.len() && is_sealed(
                #[trigger] entries[i],
                edge,
            ) implies new_known.contains(row_key(entries[i])) by {
            if i < rest.len() {
                assert(rest[i] == entries[i]);
            }
        }
    }
}

/// Across compactions an average is handed out for the CSV file at most once: what one of
/// them returns, none returns that starts from a set that holds all it left as written.
pub proof fn law_rows_are_written_once(
    log1: Seq<EntryView>,
    written1: Set<HourKey>,
    now1: int,
    stamps1: Seq<Option<StampView>>,
    new_log1: Seq<EntryView>,
    new_written1: Set<HourKey>,
    rows1: Seq<EntryView>,
    log2: Seq<EntryView>,
    written2: Set<HourKey>,
    now2: int,
    stamps2: Seq<Option<StampView>>,
    new_log2: Seq<EntryView>,
    new_written2: Set<HourKey>,
    rows2: Seq<EntryView>,
)
    requires
        compaction(log1, written1, now1, stamps1, new_log1, new_written1, rows1),
        compaction(log2, written2, now2, stamps2, new_log2, new_written2, rows2),
        new_written1.subset_of(written2),
    ensures
        new_written1.subset_of(new_written2),
        forall|i: int, j: int|
            0 <= i < rows1.len() && 0 <= j < rows2.len() ==> row_key(#[trigger] rows1[i])
                != row_key(#[trigger] rows2[j]),
{
    law_sealing(averages(log1, now1, stamps1), written1, seal_edge(now1));
    law_sealing(averages(log2, now2, stamps2), written2, seal_edge(now2));
    assert forall|k: HourKey| new_written1.contains(k) implies new_written2.contains(k) by {
        assert(written2.contains(k));
    }
    assert forall|i: int, j: int| 0 <= i < rows1.len() && 0 <= j < rows2.len() implies row_key(
        #[trigger] rows1[i],
    ) != row_key(#[trigger] rows2[j]) by {
        assert(new_written1.contains(row_key(rows1[i])));
        assert(written2.contains(row_key(rows1[i])));
    }
}

/// An hour is sealed once its end lies before the raw window. From then on no reading of the
/// raw window, then or later, belongs to that hour any more.
pub proof fn law_sealed_hours_are_complete(
    e: EntryView,
    now: int,
    reading: EntryView,
    later: int,
)
    requires
        e.is_moisture(),
        e.seconds() is Some,
    ensures
        is_sealed(e, seal_edge(now)) <==> seconds_of(e) + 3600 < now - RAW_WINDOW_SECS,
        is_sealed(e, seal_edge(now)) && now <= later ==> is_sealed(e, seal_edge(later)),
        is_sealed(e, seal_edge(now)) && now <= later && is_raw(reading, later) ==> hour_key(
            reading,
        ).0 > seconds_of(e),
{
    lemma_hour_start(seconds_of(reading));
}

/// An entry as the file holds it: its stamp and its message. What an average was made of is
/// not written.
pub open spec fn as_stored(e: EntryView) -> EntryView {
    stored_entry(e.timestamp, e.message)
}

/// A row is read back from the file with the stamp and the message that were written, if the
/// stamp holds no comma.
pub proof fn law_csv_row_round_trip(e: EntryView)
    requires
        csv_line(e) is Some,
        !e.timestamp.contains(','),
    ensures
        csv_entry(csv_line(e)->0) == Some(as_stored(e)),
{
    let line = csv_line(e)->0;
    reveal_strlit(",moisture,");
    reveal_strlit("moisture");
    reveal_strlit(",pump,,,");
    reveal_strlit("pump");
    reveal_strlit(",");
    reveal_strlit("Deep");
    reveal_strlit("Shallow");
    let none = Seq::<char>::empty();
    match e.message {
        Message::Moisture { adc_raw, depth } => {
            let kind = "moisture"@;
            let digits = decimal(adc_raw as nat);
            let name = depth_name(depth);
            lemma_decimal(adc_raw as nat);
            law_decimal_round_trip(adc_raw);
            lemma_no_comma(digits);
            let rest4 = name.push(',') + none;
            let rest3 = digits.push(',') + rest4;
            let rest2 = kind.push(',') + rest3;
            assert(line =~= e.timestamp.push(',') + rest2);
            lemma_split_first(e.timestamp, rest2, ',', 5);
            lemma_split_first(kind, rest3, ',', 4);
            lemma_split_first(digits, rest4, ',', 3);
            lemma_split_first(name, none, ',', 2);
            assert(split_fields(line, ',', 5) =~= seq![e.timestamp, kind, digits, name, none]);
            assert("Deep"@.len() != "Shallow"@.len());
        },
        Message::Pump { duration_s } => {
            let kind = "pump"@;
            let digits = decimal(duration_s as nat);
            lemma_decimal(duration_s as nat);
            law_decimal_round_trip(duration_s);
            let rest4 = none.push(',') + digits;
            let rest3 = none.push(',') + rest4;
            let rest2 = kind.push(',') + rest3;
            assert(line =~= e.timestamp.push(',') + rest2);
            lemma_split_first(e.timestamp, rest2, ',', 5);
            lemma_split_first(kind, rest3, ',', 4);
            lemma_split_first(none, rest4, ',', 3);
            lemma_split_first(none, digits, ',', 2);
            assert(split_fields(line, ',', 5) =~= seq![e.timestamp, kind, none, none, digits]);
            assert("moisture"@.len() != kind.len());
        },
        Message::Water { .. } => {},
    }
}

proof fn lemma_no_comma(s: Seq<char>)
    requires
        all_digits(s),
    ensures
        !s.contains(','),
{
    if s.contains(',') {
        let i = choose|i: int| 0 <= i < s.len() && s[i] == ',';
        assert(is_digit(s[i]));
    }
}

/// Lines as they come back from a file that could be read.
pub open spec fn read_back(lines: Seq<Seq<char>>) -> Seq<Option<Seq<char>>> {
    lines.map_values(|line: Seq<char>| Some(line))
}

/// The entries of a run that are written to the file, in order.
pub open spec fn stored(entries: Seq<EntryView>) -> Seq<EntryView> {
    entries.filter(|e: EntryView| !(e.message is Water)).map_values(|e: EntryView| as_stored(e))
}

proof fn lemma_csv_lines_round_trip(entries: Seq<EntryView>)
    requires
        forall|i: int| 0 <= i < entries.len() ==> !(#[trigger] entries[i]).timestamp.contains(','),
    ensures
        csv_entries(read_back(csv_lines(entries))) == stored(entries),
    decreases entries.len(),
{
    reveal(Seq::filter);
    if entries.len() > 0 {
        let rest = entries.drop_last();
        let e = entries.last();
        assert forall|i: int| 0 <= i < rest.len() implies !(#[trigger] rest[i]).timestamp.contains(
            ',',
        ) by {
            assert(rest[i] == entries[i]);
        }
        lemma_csv_lines_round_trip(rest);
        if csv_line(e) is Some {
            assert(!entries[entries.len() - 1].timestamp.contains(','));
            law_csv_row_round_trip(e);
            let lines = read_back(csv_lines(entries));
            assert(lines.drop_last() =~= read_back(csv_lines(rest)));
        }
    }
}

/// What is appended to a new file is what is read from it: the same entries in the same
/// order, echoes of water commands left out. The stamps must hold no comma.
pub proof fn law_csv_file_round_trip(entries: Seq<EntryView>)
    requires
        forall|i: int| 0 <= i < entries.len() ==> !(#[trigger] entries[i]).timestamp.contains(','),
    ensures
        file_entries(read_back(csv_appended(entries, true))) == stored(entries),
{
    lemma_csv_lines_round_trip(entries);
    let lines = read_back(csv_appended(entries, true));
    assert(lines.skip(1) =~= read_back(csv_lines(entries)));
}

/// A new file to which entries with valid stamps are appended is loaded as these entries:
/// with the same stamps and messages in the same order, echoes of water commands and what is
/// no longer retained left out, and with the keys of all their readings as written.
pub proof fn law_file_is_loaded_back(entries: Seq<LogEntry>, loaded: LoadedCsv, now: int)
    requires
        forall|i: int| 0 <= i < entries.len() ==> (#[trigger] entries[i])@.instant is Some,
        loaded_from(loaded, read_back(csv_appended(log_view(entries), true)), now),
    ensures
        log_view(loaded.entries@) == retained(stored(log_view(entries)), now),
        loaded.written@ == written_keys(log_view(entries)),
        loaded.total == stored(log_view(entries)).len(),
{
    let view = log_view(entries);
    assert forall|i: int| 0 <= i < view.len() implies !(#[trigger] view[i]).timestamp.contains(
        ',',
    ) by {
        assert(entries[i]@.instant is Some);
    }
    law_csv_file_round_trip(view);
    let kept = view.filter(|e: EntryView| !(e.message is Water));
    assert forall|k: HourKey| #[trigger]
        written_keys(stored(view)).contains(k) <==> written_keys(view).contains(k) by {
        if written_keys(stored(view)).contains(k) {
            let x = choose|x: int|
                0 <= x < stored(view).len() && written_as(#[trigger] stored(view)[x], k);
            assert(kept.contains(kept[x]));
            view.lemma_filter_contains_rev(|e: EntryView| !(e.message is Water), kept[x]);
            let i = choose|i: int| 0 <= i < view.len() && view[i] == kept[x];
            assert(view[i] == entries[i]@);
            assert(written_as(view[i], k));
        }
        if written_keys(view).contains(k) {
            let i = choose|i: int| 0 <= i < view.len() && written_as(#[trigger] view[i], k);
            assert(view[i] == entries[i]@);
            view.lemma_filter_contains(|e: EntryView| !(e.message is Water), i);
            let x = choose|x: int| 0 <= x < kept.len() && kept[x] == view[i];
            assert(written_as(stored(view)[x], k));
        }
    }
    assert(written_keys(stored(view)) =~= written_keys(view));
}

/// It makes no difference whether entries are appended to a file at once or in two goes.
pub proof fn law_csv_appends_add_up(a: Seq<EntryView>, b: Seq<EntryView>, needs_header: bool)
    ensures
        csv_appended(a, needs_header) + csv_appended(b, false) == csv_appended(a + b, needs_header),
{
    lemma_csv_lines_add(a, b);
    assert(csv_appended(a, needs_header) + csv_appended(b, false) =~= csv_appended(
        a + b,
        needs_header,
    ));
}

proof fn lemma_csv_lines_add(a: Seq<EntryView>, b: Seq<EntryView>)
    ensures
        csv_lines(a + b) == csv_lines(a) + csv_lines(b),
    decreases b.len(),
{
    if b.len() == 0 {
        assert(a + b =~= a);
    } else {
        lemma_csv_lines_add(a, b.drop_last());
        assert((a + b).drop_last() =~= a + b.drop_last());
    }
    assert(csv_lines(a + b) =~= csv_lines(a) + csv_lines(b));
}

/// The entry of an average stands for the readings that the average was made of, as far as
/// their sum and number fit; in any case it is its own average.
pub proof fn lemma_mean_entry(readings: Seq<EntryView>, k: HourKey, stamp: StampView)
    requires
        hour_keys(readings).contains(k),
    ensures
        ({
            let m = hour_mean(readings, k);
            let e = mean_entry(m, stamp);
            &&& tally_fits(hour_sum(readings, k), hour_count(readings, k)) ==> e.sum() == hour_sum(
                readings,
                k,
            ) && e.count() == hour_count(readings, k)
            &&& e.sum() / e.count() == m.mean
            &&& tally_of(e.sum(), e.count()) == m.tally
        }),
{
    law_mean_within_readings(readings, k, 0, u16::MAX);
    lemma_key_counted(readings, k);
}

/// An entry made of an average carries one of the given stamps.
proof fn lemma_mean_stamp(
    means: Seq<HourMean>,
    stamps: Seq<Option<StampView>>,
    e: EntryView,
) -> (i: int)
    requires
        mean_entries(means, stamps).contains(e),
    ensures
        0 <= i < means.len(),
        i < stamps.len(),
        stamps[i] == Some(StampView { text: e.timestamp, instant: e.instant }),
        e == mean_entry(means[i], stamps[i]->0),
    decreases means.len(),
{
    let all = mean_entries(means, stamps);
    let rest = mean_entries(means.drop_last(), stamps);
    let x = choose|x: int| 0 <= x < all.len() && all[x] == e;
    if x < rest.len() {
        assert(rest[x] == e);
        lemma_mean_stamp(means.drop_last(), stamps, e)
    } else {
        means.len() - 1
    }
}

/// Where all instants are those that the stamps name, they still are after compaction.
pub proof fn lemma_compaction_is_dated(
    log: Seq<EntryView>,
    written: Set<HourKey>,
    now: int,
    stamps: Seq<Option<StampView>>,
    new_log: Seq<EntryView>,
    new_written: Set<HourKey>,
    rows: Seq<EntryView>,
)
    requires
        compaction(log, written, now, stamps, new_log, new_written, rows),
        stamps_of_hours(log, now, stamps),
        forall|i: int| 0 <= i < log.len() ==> (#[trigger] log[i]).is_dated(),
    ensures
        forall|i: int| 0 <= i < new_log.len() ==> (#[trigger] new_log[i]).is_dated(),
        forall|i: int| 0 <= i < rows.len() ==> (#[trigger] rows[i]).is_dated(),
{
    broadcast use vstd::seq_lib::group_to_multiset_ensures;

    let means = hour_means(older_readings(log, now));
    let entries = averages(log, now, stamps);
    assert forall|e: EntryView| #[trigger] entries.contains(e) implies e.is_dated() by {
        let x = lemma_mean_stamp(means, stamps, e);
        assert(stamp_of_hour(means[x].hour, stamps[x]));
    }
    law_sealing(entries, written, seal_edge(now));
    assert forall|i: int| 0 <= i < new_log.len() implies (#[trigger] new_log[i]).is_dated() by {
        let e = new_log[i];
        assert(new_log.contains(e));
        lemma_compacted_count(log, now, stamps, new_log, e);
        lemma_filter_count(log, |x: EntryView| is_event(x, now), e);
        lemma_filter_count(log, |x: EntryView| is_raw(x, now), e);
        assert(entries.contains(e) || log.contains(e));
        if log.contains(e) {
            let j = choose|j: int| 0 <= j < log.len() && log[j] == e;
            assert(log[j].is_dated());
        }
    }
    assert forall|i: int| 0 <= i < rows.len() implies (#[trigger] rows[i]).is_dated() by {
        assert(entries.contains(rows[i]));
    }
}

/// A received pump event fits the file: whatever the clock and the machine's zone, its row
/// is read back as that event.
pub proof fn law_received_pump_fits_the_file(clock: (i64, u32), e: EntryView)
    requires
        stamp_of_now(clock, e.timestamp),
        e.is_pump(),
    ensures
        csv_line(e) is Some,
        !e.timestamp.contains(','),
        csv_entry(csv_line(e)->0) == Some(as_stored(e)),
{
    lemma_stamp_has_no_comma(e.timestamp);
    law_csv_row_round_trip(e);
}

/// The rows that compaction hands out fit the file: whatever the machine's zone, a new file
/// to which they are appended is read back as these rows.
pub proof fn law_rows_fit_the_file(
    log: Seq<EntryView>,
    written: Set<HourKey>,
    now: int,
    stamps: Seq<Option<StampView>>,
    new_log: Seq<EntryView>,
    new_written: Set<HourKey>,
    rows: Seq<EntryView>,
)
    requires
        compaction(log, written, now, stamps, new_log, new_written, rows),
        stamps_of_hours(log, now, stamps),
    ensures
        forall|i: int| 0 <= i < rows.len() ==> !(#[trigger] rows[i]).timestamp.contains(','),
        file_entries(read_back(csv_appended(rows, true))) == rows.map_values(
            |e: EntryView| as_stored(e),
        ),
{
    let means = hour_means(older_readings(log, now));
    let entries = averages(log, now, stamps);
    law_sealing(entries, written, seal_edge(now));
    assert forall|i: int| 0 <= i < rows.len() implies !(#[trigger] rows[i]).timestamp.contains(
        ',',
    ) by {
        let e = rows[i];
        let x = lemma_mean_stamp(means, stamps, e);
        assert(stamp_of_hour(means[x].hour, stamps[x]));
        lemma_stamp_has_no_comma(e.timestamp);
    }
    law_csv_file_round_trip(rows);
    lemma_filter_all(rows, |e: EntryView| !(e.message is Water));
}

/// Averages survive a restart: one that was appended to the file counts as written once the
/// file has been read, so no compaction after the restart hands it out again.
pub proof fn law_restart_remembers_rows(
    entries: Seq<EntryView>,
    log: Seq<EntryView>,
    now: int,
    stamps: Seq<Option<StampView>>,
    new_log: Seq<EntryView>,
    new_written: Set<HourKey>,
    rows: Seq<EntryView>,
)
    requires
        forall|i: int|
            0 <= i < entries.len() ==> (#[trigger] entries[i]).is_dated()
                && !entries[i].timestamp.contains(','),
        compaction(
            log,
            written_keys(file_entries(read_back(csv_appended(entries, true)))),
            now,
            stamps,
            new_log,
            new_written,
            rows,
        ),
    ensures
        forall|i: int, j: int|
            0 <= i < entries.len() && (#[trigger] entries[i]).is_moisture()
                && entries[i].seconds() is Some && 0 <= j < rows.len() ==> row_key(entries[i])
                != row_key(#[trigger] rows[j]),
{
    law_csv_file_round_trip(entries);
    let known = written_keys(stored(entries));
    law_sealing(averages(log, now, stamps), known, seal_edge(now));
    assert forall|i: int, j: int|
        0 <= i < entries.len() && (#[trigger] entries[i]).is_moisture()
            && entries[i].seconds() is Some && 0 <= j < rows.len() implies row_key(entries[i])
        != row_key(#[trigger] rows[j]) by {
        let e = entries[i];
        let kept = entries.filter(|x: EntryView| !(x.message is Water));
        entries.lemma_filter_contains(|x: EntryView| !(x.message is Water), i);
        let x = choose|x: int| 0 <= x < kept.len() && kept[x] == e;
        assert(stored(entries)[x] == as_stored(e));
        assert(written_as(stored(entries)[x], row_key(e)));
        assert(known.contains(row_key(e)));
    }
}

} // verus!
