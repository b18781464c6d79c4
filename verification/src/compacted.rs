//! What a compacted log holds, said of the messages, stamps and instants of the log before it.

use vstd::prelude::*;

use crate::clock::{
    lemma_stamp_has_no_comma, rendered_at, rfc3339_instant, rfc3339_text, FIRST_SECOND, LAST_SECOND,
};
use crate::compact::{
    averages, compaction, events, is_event, is_raw, is_sealed, mean_entries, mean_entry,
    raw_readings, row_key, seal_edge, stamp_of_hour, stamps_of_hours, StampView,
};
use crate::config::{RAW_WINDOW_SECS, RETAIN_SECS};
use crate::growing::{
    averages_hour, is_new_row, law_compacting_in_between_changes_no_average,
    law_one_average_per_hour, lemma_averages, lemma_filter_one, lemma_filter_twice,
    lemma_filtered_parts,
};
use crate::hours::{
    ascending, hour_count, hour_key, hour_keys, hour_mean, hour_means, hour_sum, is_older, key_lt,
    law_mean_within_readings, law_one_mean_per_hour, lemma_key_counted, older_readings,
    seconds_of, HourMean,
};
use crate::laws::{
    faithful, law_events_are_kept, law_raw_readings_are_kept, law_raw_readings_are_verbatim,
    law_sealing, lemma_compacted_count, lemma_filter_count, lemma_filter_none, lemma_hour_start,
};
use crate::order::{law_sort_permutes, stamped, text_le};
use crate::promises::lemma_filter_same;
use crate::settle::lemma_ascending_unique;
use crate::types::{Depth, EntryView, Message, Tally};
use crate::written::HourKey;

verus! {

/// The entry's stamp can be read and is less than the retention time old.
pub open spec fn is_recent(e: EntryView, now: int) -> bool {
    e.instant matches Some((t, _)) && t > now - RETAIN_SECS
}

/// A reading that is retained and lies in the raw window.
pub open spec fn in_raw_window(e: EntryView, now: int) -> bool {
    &&& e.message is Moisture
    &&& e.instant matches Some((t, _))
    &&& t > now - RETAIN_SECS
    &&& t >= now - RAW_WINDOW_SECS
}

/// A reading of one sensor in the hour that starts at the full hour `hour`, before the raw
/// window.
pub open spec fn in_hour(e: EntryView, now: int, hour: i64, deep: bool) -> bool {
    &&& e.message matches Message::Moisture { depth, .. }
    &&& deep == (depth == Depth::Deep)
    &&& e.instant matches Some((t, _))
    &&& t < now - RAW_WINDOW_SECS
    &&& hour as int % 3600 == 0
    &&& hour <= t < hour + 3600
}

/// A retained one of these: it is collapsed into the hour's average.
pub open spec fn is_collapsed(e: EntryView, now: int, hour: i64, deep: bool) -> bool {
    in_hour(e, now, hour, deep) && is_recent(e, now)
}

/// The hours and sensors of which the log holds readings to be collapsed, ascending by hour and
/// with the shallow sensor first.
pub open spec fn are_hours_of(log: Seq<EntryView>, now: int, hours: Seq<(i64, bool)>) -> bool {
    &&& forall|i: int, j: int|
        0 <= i < j < hours.len() ==> {
            let (a, b) = (#[trigger] hours[i], #[trigger] hours[j]);
            a.0 < b.0 || (a.0 == b.0 && !a.1 && b.1)
        }
    &&& forall|hour: i64, deep: bool| #[trigger]
        hours.contains((hour, deep)) <==> exists|i: int|
            0 <= i < log.len() && is_collapsed(#[trigger] log[i], now, hour, deep)
}

/// Each hour has a stamp that is read back as the start of the hour.
pub open spec fn name_hours(stamps: Seq<Option<StampView>>, hours: Seq<(i64, bool)>) -> bool {
    &&& stamps.len() == hours.len()
    &&& forall|i: int|
        0 <= i < hours.len() ==> {
            &&& #[trigger] stamps[i] matches Some(s)
            &&& s.instant matches Some((t, _))
            &&& t == hours[i].0
        }
}

/// The readings that an entry stands for, as sum and number: those of its tally, if its value
/// is their mean, else the one.
pub open spec fn stands_for(e: EntryView) -> (int, int) {
    match (e.message, e.tally) {
        (Message::Moisture { adc_raw, .. }, Some(t)) if t.count > 0 && t.sum / t.count
            == adc_raw => (t.sum as int, t.count as int),
        (Message::Moisture { adc_raw, .. }, _) => (adc_raw as int, 1),
        _ => (0, 1),
    }
}

proof fn lemma_collapsed(e: EntryView, now: int, hour: i64, deep: bool)
    requires
        now - RETAIN_SECS >= i64::MIN + 3600,
    ensures
        is_collapsed(e, now, hour, deep) <==> is_older(e, now) && hour_key(e) == (hour, deep),
        in_hour(e, now, hour, deep) && is_recent(e, now) ==> averages_hour(e, now, (hour, deep)),
{
    if e.instant is Some {
        lemma_hour_start(seconds_of(e));
    }
}

/// The hours that are averaged are those of the log.
proof fn lemma_hours(log: Seq<EntryView>, now: int, hours: Seq<(i64, bool)>)
    requires
        now - RETAIN_SECS >= i64::MIN + 3600,
        are_hours_of(log, now, hours),
    ensures
        hours == hour_keys(older_readings(log, now)),
{
    let older = |e: EntryView| is_older(e, now);
    let readings = older_readings(log, now);
    let keys = hour_keys(readings);
    law_one_mean_per_hour(readings);
    assert forall|k: HourKey| #[trigger] hours.contains(k) <==> keys.contains(k) by {
        assert(k == (k.0, k.1));
        if hours.contains((k.0, k.1)) {
            let i = choose|i: int|
                0 <= i < log.len() && is_collapsed(#[trigger] log[i], now, k.0, k.1);
            lemma_collapsed(log[i], now, k.0, k.1);
            log.lemma_filter_contains(older, i);
            let x = choose|x: int| 0 <= x < readings.len() && readings[x] == log[i];
            assert(hour_key(readings[x]) == k);
        }
        if keys.contains(k) {
            let x = choose|x: int| 0 <= x < readings.len() && hour_key(#[trigger] readings[x]) == k;
            log.lemma_filter_pred(older, x);
            assert(readings.contains(readings[x]));
            log.lemma_filter_contains_rev(older, readings[x]);
            let i = choose|i: int| 0 <= i < log.len() && log[i] == readings[x];
            lemma_collapsed(log[i], now, k.0, k.1);
            assert(is_collapsed(log[i], now, k.0, k.1));
        }
    }
    assert(ascending(hours));
    lemma_ascending_unique(hours, keys);
}

proof fn lemma_faithful(
    log: Seq<EntryView>,
    now: int,
    hours: Seq<(i64, bool)>,
    stamps: Seq<Option<StampView>>,
)
    requires
        now - RETAIN_SECS >= i64::MIN + 3600,
        are_hours_of(log, now, hours),
        name_hours(stamps, hours),
    ensures
        hours == hour_keys(older_readings(log, now)),
        faithful(hour_means(older_readings(log, now)), stamps),
{
    lemma_hours(log, now, hours);
    let means = hour_means(older_readings(log, now));
    law_one_mean_per_hour(older_readings(log, now));
    assert forall|i: int| 0 <= i < means.len() implies {
        &&& #[trigger] stamps[i] is Some
        &&& stamps[i]->0.instant matches Some((t, _))
        &&& t == means[i].hour
    } by {
        assert(means[i].key() == hours[i]);
    }
}

/// An event of the log survives compaction, as often as it was there, exactly if its stamp can
/// be read and names a second less than the retention time ago.
pub proof fn law_events_survive(
    log: Seq<EntryView>,
    written: Set<HourKey>,
    now: int,
    stamps: Seq<Option<StampView>>,
    new_log: Seq<EntryView>,
    new_written: Set<HourKey>,
    rows: Seq<EntryView>,
    e: EntryView,
)
    requires
        compaction(log, written, now, stamps, new_log, new_written, rows),
        e.message is Pump || e.message is Water,
    ensures
        new_log.to_multiset().count(e) == match e.instant {
            Some((t, _)) => if t > now - RETAIN_SECS {
                log.to_multiset().count(e)
            } else {
                0
            },
            None => 0,
        },
{
    law_events_are_kept(log, written, now, stamps, new_log, new_written, rows, e);
}

/// A reading of the raw window is in the compacted log as often as it was there before.
pub proof fn law_raw_readings_survive(
    log: Seq<EntryView>,
    written: Set<HourKey>,
    now: int,
    stamps: Seq<Option<StampView>>,
    new_log: Seq<EntryView>,
    new_written: Set<HourKey>,
    rows: Seq<EntryView>,
    hours: Seq<(i64, bool)>,
    e: EntryView,
)
    requires
        compaction(log, written, now, stamps, new_log, new_written, rows),
        now - RETAIN_SECS >= i64::MIN + 3600,
        are_hours_of(log, now, hours),
        name_hours(stamps, hours),
        in_raw_window(e, now),
    ensures
        new_log.to_multiset().count(e) == log.to_multiset().count(e),
{
    lemma_faithful(log, now, hours, stamps);
    law_raw_readings_are_verbatim(log, written, now, stamps, new_log, new_written, rows, e);
}

/// Sums over the older readings of one hour, as folds over the log.
proof fn lemma_folds(
    log: Seq<EntryView>,
    now: int,
    hour: i64,
    deep: bool,
    sum: spec_fn(int, EntryView) -> int,
    count: spec_fn(int, EntryView) -> int,
)
    requires
        now - RETAIN_SECS >= i64::MIN + 3600,
        forall|n: int, e: EntryView|
            log.contains(e) && is_collapsed(e, now, hour, deep) ==> #[trigger] sum(n, e) == n
                + e.sum(),
        forall|n: int, e: EntryView|
            log.contains(e) && is_collapsed(e, now, hour, deep) ==> #[trigger] count(n, e) == n
                + e.count(),
    ensures
        ({
            let group = log.filter(|e: EntryView| is_collapsed(e, now, hour, deep));
            let readings = older_readings(log, now);
            &&& group.fold_left(0, sum) == hour_sum(readings, (hour, deep))
            &&& group.fold_left(0, count) == hour_count(readings, (hour, deep))
        }),
    decreases log.len(),
{
    let p = |e: EntryView| is_collapsed(e, now, hour, deep);
    let older = |e: EntryView| is_older(e, now);
    reveal(Seq::filter);
    if log.len() > 0 {
        let rest = log.drop_last();
        let e = log.last();
        assert(log.contains(log[log.len() - 1]));
        assert forall|x: EntryView| rest.contains(x) implies #[trigger] log.contains(x) by {
            let i = choose|i: int| 0 <= i < rest.len() && rest[i] == x;
            assert(log[i] == x);
        }
        assert forall|n: int, x: EntryView|
            rest.contains(x) && is_collapsed(x, now, hour, deep) implies #[trigger] sum(n, x) == n
            + x.sum() by {
            assert(log.contains(x));
        }
        assert forall|n: int, x: EntryView|
            rest.contains(x) && is_collapsed(x, now, hour, deep) implies #[trigger] count(n, x) == n
            + x.count() by {
            assert(log.contains(x));
        }
        lemma_folds(rest, now, hour, deep, sum, count);
        lemma_collapsed(e, now, hour, deep);
        if p(e) {
            assert(rest.filter(p).push(e).drop_last() =~= rest.filter(p));
            let (a, b) = (rest.filter(p).fold_left(0, sum), rest.filter(p).fold_left(0, count));
            assert(sum(a, e) == a + e.sum());
            assert(count(b, e) == b + e.count());
        }
        if older(e) {
            assert(rest.filter(older).push(e).drop_last() =~= rest.filter(older));
        }
    }
}

/// A compacted log has exactly one entry for each hour and sensor of which there were readings
/// before the raw window. It stands under the stamp of the hour, and its value is the sum of
/// these readings divided by their number, rounded down. Readings that are averages
/// themselves stand for what they were made of; so does the new one, if that fits in 64 bits.
pub proof fn law_hours_are_averaged(
    log: Seq<EntryView>,
    written: Set<HourKey>,
    now: int,
    stamps: Seq<Option<StampView>>,
    new_log: Seq<EntryView>,
    new_written: Set<HourKey>,
    rows: Seq<EntryView>,
    hours: Seq<(i64, bool)>,
    i: int,
)
    requires
        compaction(log, written, now, stamps, new_log, new_written, rows),
        now - RETAIN_SECS >= i64::MIN + 3600,
        are_hours_of(log, now, hours),
        name_hours(stamps, hours),
        0 <= i < hours.len(),
    ensures
        ({
            let (hour, deep) = hours[i];
            let group = log.filter(|e: EntryView| is_collapsed(e, now, hour, deep));
            let sum = group.fold_left(0int, |n: int, e: EntryView| n + stands_for(e).0);
            let count = group.fold_left(0int, |n: int, e: EntryView| n + stands_for(e).1);
            let found = new_log.filter(|e: EntryView| in_hour(e, now, hour, deep));
            let mean = hour_means(older_readings(log, now))[i];
            &&& count > 0
            &&& found.len() == 1
            &&& found[0].timestamp == stamps[i]->0.text
            &&& found[0].instant == stamps[i]->0.instant
            &&& found[0].message == Message::Moisture {
                adc_raw: (sum / count) as u16,
                depth: if deep {
                    Depth::Deep
                } else {
                    Depth::Shallow
                },
            }
            &&& 0 <= sum / count <= u16::MAX
            &&& sum <= u64::MAX && count <= u64::MAX ==> found[0].tally == Some(
                Tally { sum: sum as u64, count: count as u64 },
            )
            &&& sum > u64::MAX || count > u64::MAX ==> found[0].tally == Some(
                Tally { sum: (sum / count) as u64, count: 1 },
            )
            &&& mean.hour == hour && mean.deep == deep && mean.mean == sum / count
        }),
{
    let (hour, deep) = hours[i];
    let k: HourKey = (hour, deep);
    let readings = older_readings(log, now);
    let f = |n: int, e: EntryView| n + stands_for(e).0;
    let g = |n: int, e: EntryView| n + stands_for(e).1;
    lemma_faithful(log, now, hours, stamps);
    lemma_folds(log, now, hour, deep, f, g);
    assert(hours.contains(hours[i]));
    lemma_key_counted(readings, k);
    law_mean_within_readings(readings, k, 0, u16::MAX);
    law_one_mean_per_hour(readings);
    lemma_found(log, written, now, stamps, new_log, new_written, rows, hours, i);
    assert(hour_means(readings)[i] == hour_mean(readings, k));
}

/// The one entry of an hour in the compacted log.
proof fn lemma_found(
    log: Seq<EntryView>,
    written: Set<HourKey>,
    now: int,
    stamps: Seq<Option<StampView>>,
    new_log: Seq<EntryView>,
    new_written: Set<HourKey>,
    rows: Seq<EntryView>,
    hours: Seq<(i64, bool)>,
    i: int,
)
    requires
        compaction(log, written, now, stamps, new_log, new_written, rows),
        now - RETAIN_SECS >= i64::MIN + 3600,
        are_hours_of(log, now, hours),
        name_hours(stamps, hours),
        0 <= i < hours.len(),
    ensures
        new_log.filter(|e: EntryView| in_hour(e, now, hours[i].0, hours[i].1)) == seq![
            mean_entry(hour_mean(older_readings(log, now), hours[i]), stamps[i]->0),
        ],
        averages(log, now, stamps)[i] == mean_entry(
            hour_mean(older_readings(log, now), hours[i]),
            stamps[i]->0,
        ),
{
    broadcast use vstd::seq_lib::group_to_multiset_ensures;

    let (hour, deep) = hours[i];
    let p = |e: EntryView| in_hour(e, now, hour, deep);
    let (a, b, c) = (averages(log, now, stamps), events(log, now), raw_readings(log, now));
    let found = new_log.filter(p);
    lemma_faithful(log, now, hours, stamps);
    lemma_averages(log, now, stamps);
    lemma_full_hour(log, now, hours, i);
    lemma_filtered_parts(log, written, now, stamps, new_log, new_written, rows, p);
    assert forall|j: int| 0 <= j < b.len() implies !p(#[trigger] b[j]) by {
        log.lemma_filter_pred(|e: EntryView| is_event(e, now), j);
    }
    assert forall|j: int| 0 <= j < c.len() implies !p(#[trigger] c[j]) by {
        log.lemma_filter_pred(|e: EntryView| is_raw(e, now), j);
    }
    lemma_filter_none(b, p);
    lemma_filter_none(c, p);
    assert(a.filter(p) + b.filter(p) + c.filter(p) =~= a.filter(p));
    assert(p(a[i]));
    assert forall|j: int| 0 <= j < a.len() && j != i implies !p(#[trigger] a[j]) by {
        lemma_full_hour(log, now, hours, j);
        if j < i {
            assert(key_lt(hours[j], hours[i]));
        } else {
            assert(key_lt(hours[i], hours[j]));
        }
    }
    lemma_filter_one(a, p, i);
    assert(found.to_multiset().len() == a.filter(p).to_multiset().len());
    assert(found.len() == 1);
    assert(found.contains(found[0]));
    assert(found.to_multiset().count(found[0]) > 0);
    assert(a.filter(p).to_multiset().count(found[0]) > 0);
    assert(a.filter(p).contains(found[0]));
    assert(found =~= seq![a[i]]);
}

proof fn lemma_full_hour(log: Seq<EntryView>, now: int, hours: Seq<(i64, bool)>, i: int)
    requires
        are_hours_of(log, now, hours),
        0 <= i < hours.len(),
    ensures
        hours[i].0 as int % 3600 == 0,
        hours[i].0 < now - RAW_WINDOW_SECS,
{
    let (hour, deep) = hours[i];
    assert(hours.contains((hour, deep)));
    let x = choose|x: int| 0 <= x < log.len() && is_collapsed(#[trigger] log[x], now, hour, deep);
    assert(is_collapsed(log[x], now, hour, deep));
}

/// An hour of which all entries are single readings: the average is the plain sum of their
/// values divided by how many of them there are.
pub proof fn law_single_readings_are_averaged(
    log: Seq<EntryView>,
    written: Set<HourKey>,
    now: int,
    stamps: Seq<Option<StampView>>,
    new_log: Seq<EntryView>,
    new_written: Set<HourKey>,
    rows: Seq<EntryView>,
    hours: Seq<(i64, bool)>,
    i: int,
)
    requires
        compaction(log, written, now, stamps, new_log, new_written, rows),
        now - RETAIN_SECS >= i64::MIN + 3600,
        are_hours_of(log, now, hours),
        name_hours(stamps, hours),
        0 <= i < hours.len(),
        forall|x: int|
            0 <= x < log.len() && is_collapsed(#[trigger] log[x], now, hours[i].0, hours[i].1)
                ==> log[x].tally is None,
    ensures
        ({
            let (hour, deep) = hours[i];
            let group = log.filter(|e: EntryView| is_collapsed(e, now, hour, deep));
            let sum = group.fold_left(
                0int,
                |n: int, e: EntryView| n + e.message->Moisture_adc_raw,
            );
            let found = new_log.filter(|e: EntryView| in_hour(e, now, hour, deep));
            &&& group.len() > 0
            &&& found.len() == 1
            &&& found[0].message matches Message::Moisture { adc_raw, .. }
            &&& adc_raw == sum / (group.len() as int)
        }),
{
    let (hour, deep) = hours[i];
    let k: HourKey = (hour, deep);
    let readings = older_readings(log, now);
    lemma_faithful(log, now, hours, stamps);
    lemma_single_folds(log, now, hour, deep);
    assert(hours.contains(hours[i]));
    lemma_key_counted(readings, k);
    law_mean_within_readings(readings, k, 0, u16::MAX);
    lemma_found(log, written, now, stamps, new_log, new_written, rows, hours, i);
}

proof fn lemma_count_fold(s: Seq<EntryView>, one: spec_fn(int, EntryView) -> int)
    requires
        forall|n: int, e: EntryView| #[trigger] one(n, e) == n + 1,
    ensures
        s.fold_left(0, one) == s.len(),
    decreases s.len(),
{
    if s.len() > 0 {
        lemma_count_fold(s.drop_last(), one);
    }
}

/// Of single readings, the sum and the number are plain.
proof fn lemma_single_folds(log: Seq<EntryView>, now: int, hour: i64, deep: bool)
    requires
        now - RETAIN_SECS >= i64::MIN + 3600,
        forall|x: int|
            0 <= x < log.len() && is_collapsed(#[trigger] log[x], now, hour, deep)
                ==> log[x].tally is None,
    ensures
        ({
            let group = log.filter(|e: EntryView| is_collapsed(e, now, hour, deep));
            let readings = older_readings(log, now);
            &&& hour_sum(readings, (hour, deep)) == group.fold_left(
                0int,
                |n: int, e: EntryView| n + e.message->Moisture_adc_raw,
            )
            &&& hour_count(readings, (hour, deep)) == group.len()
        }),
{
    let group = log.filter(|e: EntryView| is_collapsed(e, now, hour, deep));
    let f = |n: int, e: EntryView| n + e.message->Moisture_adc_raw;
    let g = |n: int, e: EntryView| n + 1;
    assert forall|e: EntryView| #[trigger]
        log.contains(e) && is_collapsed(e, now, hour, deep) implies e.tally is None by {
        let x = choose|x: int| 0 <= x < log.len() && log[x] == e;
        assert(is_collapsed(log[x], now, hour, deep));
    }
    lemma_folds(log, now, hour, deep, f, g);
    lemma_count_fold(group, g);
}

/// A compacted log holds nothing but recent events and readings of the raw window that were in
/// the log, and the entries of the averaged hours.
pub proof fn law_nothing_is_made_up(
    log: Seq<EntryView>,
    written: Set<HourKey>,
    now: int,
    stamps: Seq<Option<StampView>>,
    new_log: Seq<EntryView>,
    new_written: Set<HourKey>,
    rows: Seq<EntryView>,
    hours: Seq<(i64, bool)>,
    e: EntryView,
)
    requires
        compaction(log, written, now, stamps, new_log, new_written, rows),
        now - RETAIN_SECS >= i64::MIN + 3600,
        are_hours_of(log, now, hours),
        name_hours(stamps, hours),
        new_log.contains(e),
    ensures
        ({
            ||| log.contains(e) && !(e.message is Moisture) && is_recent(e, now)
            ||| log.contains(e) && in_raw_window(e, now)
            ||| exists|i: int|
                0 <= i < hours.len() && in_hour(e, now, (#[trigger] hours[i]).0, hours[i].1)
        }),
{
    broadcast use vstd::seq_lib::group_to_multiset_ensures;

    lemma_faithful(log, now, hours, stamps);
    lemma_averages(log, now, stamps);
    lemma_compacted_count(log, now, stamps, new_log, e);
    lemma_filter_count(log, |x: EntryView| is_event(x, now), e);
    lemma_filter_count(log, |x: EntryView| is_raw(x, now), e);
    let a = averages(log, now, stamps);
    assert(new_log.to_multiset().count(e) > 0);
    if a.to_multiset().count(e) > 0 {
        assert(a.contains(e));
        let i = choose|i: int| 0 <= i < a.len() && a[i] == e;
        lemma_full_hour(log, now, hours, i);
        assert(in_hour(e, now, hours[i].0, hours[i].1));
    }
}

/// The hour is over and out of the raw window as a whole.
pub open spec fn is_over(hour: i64, now: int) -> bool {
    hour + 3600 < now - RAW_WINDOW_SECS
}

/// The rows for the file are the entries of the averaged hours that are over and had not been
/// written, ascending by hour and with the shallow sensor first. What counts as written
/// afterwards is what did before, and these hours.
pub proof fn law_rows_of_hours(
    log: Seq<EntryView>,
    written: Set<HourKey>,
    now: int,
    stamps: Seq<Option<StampView>>,
    new_log: Seq<EntryView>,
    new_written: Set<HourKey>,
    rows: Seq<EntryView>,
    hours: Seq<(i64, bool)>,
)
    requires
        compaction(log, written, now, stamps, new_log, new_written, rows),
        now - RETAIN_SECS >= i64::MIN + 3600,
        are_hours_of(log, now, hours),
        name_hours(stamps, hours),
    ensures
        forall|e: EntryView| #[trigger]
            rows.contains(e) <==> new_log.contains(e) && exists|i: int|
                {
                    &&& 0 <= i < hours.len()
                    &&& in_hour(e, now, (#[trigger] hours[i]).0, hours[i].1)
                    &&& is_over(hours[i].0, now)
                    &&& !written.contains(hours[i])
                },
        forall|x: int, y: int|
            0 <= x < y < rows.len() ==> {
                &&& (#[trigger] rows[x]).instant matches Some((s, _))
                &&& (#[trigger] rows[y]).instant matches Some((t, _))
                &&& s < t || (s == t && rows[x].message->Moisture_depth == Depth::Shallow
                    && rows[y].message->Moisture_depth == Depth::Deep)
            },
        forall|hour: i64, deep: bool| #[trigger]
            new_written.contains((hour, deep)) <==> written.contains((hour, deep)) || (
            hours.contains((hour, deep)) && is_over(hour, now)),
{
    broadcast use vstd::seq_lib::group_to_multiset_ensures;

    let a = averages(log, now, stamps);
    let edge = seal_edge(now);
    lemma_faithful(log, now, hours, stamps);
    lemma_averages(log, now, stamps);
    law_sealing(a, written, edge);
    law_one_average_per_hour(
        log,
        written,
        now,
        stamps,
        new_log,
        new_written,
        rows,
        (0i64, false),
    );
    assert forall|e: EntryView| #[trigger]
        rows.contains(e) <==> new_log.contains(e) && exists|i: int|
            {
                &&& 0 <= i < hours.len()
                &&& in_hour(e, now, (#[trigger] hours[i]).0, hours[i].1)
                &&& is_over(hours[i].0, now)
                &&& !written.contains(hours[i])
            } by {
        if rows.contains(e) {
            let x = choose|x: int| 0 <= x < rows.len() && rows[x] == e;
            assert(a.contains(rows[x]));
            let i = choose|i: int| 0 <= i < a.len() && a[i] == e;
            lemma_full_hour(log, now, hours, i);
            assert(in_hour(e, now, hours[i].0, hours[i].1));
            lemma_compacted_count(log, now, stamps, new_log, e);
            assert(a.to_multiset().count(e) > 0);
            assert(new_log.to_multiset().count(e) > 0);
        }
        if new_log.contains(e) && exists|i: int|
            {
                &&& 0 <= i < hours.len()
                &&& in_hour(e, now, (#[trigger] hours[i]).0, hours[i].1)
                &&& is_over(hours[i].0, now)
                &&& !written.contains(hours[i])
            } {
            let i = choose|i: int|
                {
                    &&& 0 <= i < hours.len()
                    &&& in_hour(e, now, (#[trigger] hours[i]).0, hours[i].1)
                    &&& is_over(hours[i].0, now)
                    &&& !written.contains(hours[i])
                };
            lemma_found(log, written, now, stamps, new_log, new_written, rows, hours, i);
            let p = |x: EntryView| in_hour(x, now, hours[i].0, hours[i].1);
            let x = choose|x: int| 0 <= x < new_log.len() && new_log[x] == e;
            new_log.lemma_filter_contains(p, x);
            assert(new_log.filter(p).contains(e));
            assert(e == a[i]);
            assert(is_sealed(a[i], edge));
            lemma_row(a, written, now, rows, i);
        }
    }
    assert forall|x: int, y: int| 0 <= x < y < rows.len() implies {
        &&& (#[trigger] rows[x]).instant matches Some((s, _))
        &&& (#[trigger] rows[y]).instant matches Some((t, _))
        &&& s < t || (s == t && rows[x].message->Moisture_depth == Depth::Shallow
            && rows[y].message->Moisture_depth == Depth::Deep)
    } by {
        assert(is_sealed(rows[x], edge) && is_sealed(rows[y], edge));
        assert(key_lt(row_key(rows[x]), row_key(rows[y])));
    }
    assert forall|hour: i64, deep: bool| #[trigger]
        new_written.contains((hour, deep)) <==> written.contains((hour, deep)) || (hours.contains(
            (hour, deep),
        ) && is_over(hour, now)) by {
        let k: HourKey = (hour, deep);
        if new_written.contains(k) && !written.contains(k) {
            let x = choose|x: int| 0 <= x < rows.len() && row_key(#[trigger] rows[x]) == k;
            assert(a.contains(rows[x]));
            let i = choose|i: int| 0 <= i < a.len() && a[i] == rows[x];
            assert(hours[i] == k);
        }
        if hours.contains(k) && is_over(hour, now) {
            let i = choose|i: int| 0 <= i < hours.len() && hours[i] == k;
            assert(is_sealed(a[i], edge));
        }
    }
}

/// A sealed average that was not written is among the rows.
proof fn lemma_row(
    a: Seq<EntryView>,
    written: Set<HourKey>,
    now: int,
    rows: Seq<EntryView>,
    i: int,
)
    requires
        0 <= i < a.len(),
        is_sealed(a[i], seal_edge(now)),
        !written.contains(row_key(a[i])),
        rows == a.filter(|e: EntryView| is_new_row(e, written, now)),
    ensures
        rows.contains(a[i]),
{
    a.lemma_filter_contains(|e: EntryView| is_new_row(e, written, now), i);
}

/// The stamps of the averaged hours are those of the full hours in the machine's zone, each
/// with the instant that it names. An hour has one exactly if a date can name its start.
pub proof fn law_hours_are_stamped(
    log: Seq<EntryView>,
    now: int,
    stamps: Seq<Option<StampView>>,
    hours: Seq<(i64, bool)>,
    i: int,
)
    requires
        now - RETAIN_SECS >= i64::MIN + 3600,
        are_hours_of(log, now, hours),
        stamps_of_hours(log, now, stamps),
        0 <= i < hours.len(),
    ensures
        stamps.len() == hours.len(),
        stamps[i] is Some <==> FIRST_SECOND <= hours[i].0 <= LAST_SECOND,
        stamps[i] matches Some(s) ==> {
            &&& exists|offset: i32|
                s.text == #[trigger] rfc3339_text(hours[i].0, 0, offset) && -86_400 < offset
                    < 86_400
            &&& s.instant == rfc3339_instant(s.text)
            &&& !s.text.contains(',')
        },
{
    lemma_hours(log, now, hours);
    let means = hour_means(older_readings(log, now));
    law_one_mean_per_hour(older_readings(log, now));
    assert(means[i].key() == hours[i]);
    assert(stamp_of_hour(means[i].hour, stamps[i]));
    if let Some(s) = stamps[i] {
        let hour = hours[i].0;
        let offset = choose|offset: i32| #[trigger] rendered_at(hour as int, 0, offset, s.text);
        assert(s.text == rfc3339_text(hour, 0, offset));
        lemma_stamp_has_no_comma(s.text);
    }
}

/// What stands in a run behind one another passes a filter in the same order.
proof fn lemma_filter_order(s: Seq<EntryView>, p: spec_fn(EntryView) -> bool, i: int, j: int) -> (r:
    (int, int))
    requires
        0 <= i < j < s.len(),
        p(s[i]),
        p(s[j]),
    ensures
        0 <= r.0 < r.1 < s.filter(p).len(),
        s.filter(p)[r.0] == s[i],
        s.filter(p)[r.1] == s[j],
    decreases s.len(),
{
    reveal(Seq::filter);
    let rest = s.drop_last();
    if j < rest.len() {
        lemma_filter_order(rest, p, i, j)
    } else {
        rest.lemma_filter_contains(p, i);
        let x = choose|x: int| 0 <= x < rest.filter(p).len() && rest.filter(p)[x] == s[i];
        (x, rest.filter(p).len() as int)
    }
}

/// What comes out of a filter behind one another stood in that order before.
proof fn lemma_filter_order_back(
    s: Seq<EntryView>,
    p: spec_fn(EntryView) -> bool,
    x: int,
    y: int,
) -> (r: (int, int))
    requires
        0 <= x < y < s.filter(p).len(),
    ensures
        0 <= r.0 < r.1 < s.len(),
        s[r.0] == s.filter(p)[x],
        s[r.1] == s.filter(p)[y],
    decreases s.len(),
{
    reveal(Seq::filter);
    let rest = s.drop_last();
    if y < rest.filter(p).len() {
        lemma_filter_order_back(rest, p, x, y)
    } else {
        let e = rest.filter(p)[x];
        assert(rest.filter(p).contains(e));
        rest.lemma_filter_contains_rev(p, e);
        let i = choose|i: int| 0 <= i < rest.len() && rest[i] == e;
        (i, s.len() - 1)
    }
}

/// Where an entry comes among those with its stamp: averages first, then events, then the
/// readings of the raw window.
pub open spec fn rank(e: EntryView, now: int) -> int {
    if !(e.message is Moisture) {
        1
    } else if in_raw_window(e, now) {
        2
    } else {
        0
    }
}

/// A compacted log is in the order of its stamps. Entries with one and the same stamp come in
/// the order of their ranks, averages in the order of their hours and sensors.
pub proof fn law_compacted_logs_are_sorted(
    log: Seq<EntryView>,
    written: Set<HourKey>,
    now: int,
    stamps: Seq<Option<StampView>>,
    new_log: Seq<EntryView>,
    new_written: Set<HourKey>,
    rows: Seq<EntryView>,
    hours: Seq<(i64, bool)>,
    i: int,
    j: int,
)
    requires
        compaction(log, written, now, stamps, new_log, new_written, rows),
        now - RETAIN_SECS >= i64::MIN + 3600,
        are_hours_of(log, now, hours),
        name_hours(stamps, hours),
        0 <= i < j < new_log.len(),
    ensures
        text_le(new_log[i].timestamp, new_log[j].timestamp),
        new_log[i].timestamp == new_log[j].timestamp ==> {
            &&& rank(new_log[i], now) <= rank(new_log[j], now)
            &&& forall|x: int, y: int|
                {
                    &&& 0 <= x < hours.len()
                    &&& 0 <= y < hours.len()
                    &&& in_hour(new_log[i], now, (#[trigger] hours[x]).0, hours[x].1)
                    &&& in_hour(new_log[j], now, (#[trigger] hours[y]).0, hours[y].1)
                } ==> x < y
        },
{
    let (a, b, c) = (averages(log, now, stamps), events(log, now), raw_readings(log, now));
    let all = a + b + c;
    let t = new_log[i].timestamp;
    assert(text_le(new_log[i].timestamp, new_log[j].timestamp));
    if new_log[j].timestamp == t {
        let p = |e: EntryView| e.timestamp == t;
        let (x, y) = lemma_filter_order(new_log, p, i, j);
        assert(stamped(new_log, t) == stamped(all, t));
        let (u, v) = lemma_filter_order_back(all, p, x, y);
        lemma_faithful(log, now, hours, stamps);
        lemma_averages(log, now, stamps);
        assert forall|z: int| 0 <= z < a.len() implies rank(#[trigger] a[z], now) == 0 by {
        }
        assert forall|z: int| 0 <= z < b.len() implies rank(#[trigger] b[z], now) == 1 by {
            log.lemma_filter_pred(|e: EntryView| is_event(e, now), z);
        }
        assert forall|z: int| 0 <= z < c.len() implies rank(#[trigger] c[z], now) == 2 by {
            log.lemma_filter_pred(|e: EntryView| is_raw(e, now), z);
        }
        assert(u < a.len() ==> all[u] == a[u]);
        assert(a.len() <= u < a.len() + b.len() ==> all[u] == b[u - a.len()]);
        assert(a.len() + b.len() <= u ==> all[u] == c[u - a.len() - b.len()]);
        assert(v < a.len() ==> all[v] == a[v]);
        assert(a.len() <= v < a.len() + b.len() ==> all[v] == b[v - a.len()]);
        assert(a.len() + b.len() <= v ==> all[v] == c[v - a.len() - b.len()]);
        assert forall|m: int, n: int|
            {
                &&& 0 <= m < hours.len()
                &&& 0 <= n < hours.len()
                &&& in_hour(new_log[i], now, (#[trigger] hours[m]).0, hours[m].1)
                &&& in_hour(new_log[j], now, (#[trigger] hours[n]).0, hours[n].1)
            } implies m < n by {
            assert(rank(all[u], now) == 0);
            assert(rank(all[v], now) == 0);
            lemma_full_hour(log, now, hours, u);
            lemma_full_hour(log, now, hours, v);
            assert(hours[m] == hours[u]);
            assert(hours[n] == hours[v]);
            if m < u {
                assert(key_lt(hours[m], hours[u]));
            }
            if u < m {
                assert(key_lt(hours[u], hours[m]));
            }
            if n < v {
                assert(key_lt(hours[n], hours[v]));
            }
            if v < n {
                assert(key_lt(hours[v], hours[n]));
            }
        }
    }
}

/// Events, and readings of the raw window, that have one and the same stamp keep the order that
/// they had.
pub proof fn law_ties_keep_their_order(
    log: Seq<EntryView>,
    written: Set<HourKey>,
    now: int,
    stamps: Seq<Option<StampView>>,
    new_log: Seq<EntryView>,
    new_written: Set<HourKey>,
    rows: Seq<EntryView>,
    hours: Seq<(i64, bool)>,
    t: Seq<char>,
)
    requires
        compaction(log, written, now, stamps, new_log, new_written, rows),
        now - RETAIN_SECS >= i64::MIN + 3600,
        are_hours_of(log, now, hours),
        name_hours(stamps, hours),
    ensures
        new_log.filter(|e: EntryView| e.timestamp == t && !(e.message is Moisture)) == log.filter(
            |e: EntryView| e.timestamp == t && !(e.message is Moisture) && is_recent(e, now),
        ),
        new_log.filter(|e: EntryView| e.timestamp == t && in_raw_window(e, now)) == log.filter(
            |e: EntryView| e.timestamp == t && in_raw_window(e, now),
        ),
{
    let (a, b, c) = (averages(log, now, stamps), events(log, now), raw_readings(log, now));
    let all = a + b + c;
    let p = |e: EntryView| e.timestamp == t;
    let event = |e: EntryView| !(e.message is Moisture);
    let raw = |e: EntryView| in_raw_window(e, now);
    let kept_event = |e: EntryView| is_event(e, now);
    let kept_raw = |e: EntryView| is_raw(e, now);
    lemma_faithful(log, now, hours, stamps);
    lemma_averages(log, now, stamps);
    assert(stamped(new_log, t) == stamped(all, t));
    assert forall|i: int| 0 <= i < b.len() implies is_event(#[trigger] b[i], now) by {
        log.lemma_filter_pred(kept_event, i);
    }
    assert forall|i: int| 0 <= i < c.len() implies is_raw(#[trigger] c[i], now) by {
        log.lemma_filter_pred(kept_raw, i);
    }

    let t_event = |e: EntryView| e.timestamp == t && !(e.message is Moisture);
    let t_kept_event = |e: EntryView| e.timestamp == t && is_event(e, now);
    let t_recent_event = |e: EntryView|
        e.timestamp == t && !(e.message is Moisture) && is_recent(e, now);
    lemma_filter_twice(new_log, p, event, t_event);
    lemma_filter_twice(all, p, event, t_event);
    Seq::filter_distributes_over_add(a + b, c, t_event);
    Seq::filter_distributes_over_add(a, b, t_event);
    lemma_filter_none(a, t_event);
    lemma_filter_none(c, t_event);
    assert(all.filter(t_event) =~= b.filter(t_event));
    lemma_filter_twice(log, kept_event, t_event, t_kept_event);
    lemma_filter_same(log, t_kept_event, t_recent_event);

    let t_raw = |e: EntryView| e.timestamp == t && in_raw_window(e, now);
    let t_kept_raw = |e: EntryView| e.timestamp == t && is_raw(e, now);
    lemma_filter_twice(new_log, p, raw, t_raw);
    lemma_filter_twice(all, p, raw, t_raw);
    Seq::filter_distributes_over_add(a + b, c, t_raw);
    Seq::filter_distributes_over_add(a, b, t_raw);
    lemma_filter_none(a, t_raw);
    lemma_filter_none(b, t_raw);
    assert(all.filter(t_raw) =~= c.filter(t_raw));
    lemma_filter_twice(log, kept_raw, t_raw, t_kept_raw);
    lemma_filter_same(log, t_kept_raw, t_raw);
}

/// The readings of an hour that is compacted while it fills up, and again after more entries
/// have come: its one entry in the log has the plain mean of all of them, those from before
/// the first compaction and those from after it. The hour must start late enough to be
/// retained, and the sum must fit in 64 bits.
pub proof fn law_filling_hours_are_averaged(
    log: Seq<EntryView>,
    written1: Set<HourKey>,
    now1: int,
    stamps1: Seq<Option<StampView>>,
    log1: Seq<EntryView>,
    new_written1: Set<HourKey>,
    rows1: Seq<EntryView>,
    hours1: Seq<(i64, bool)>,
    pushed: Seq<EntryView>,
    written2: Set<HourKey>,
    now2: int,
    stamps2: Seq<Option<StampView>>,
    log2: Seq<EntryView>,
    new_written2: Set<HourKey>,
    rows2: Seq<EntryView>,
    hours2: Seq<(i64, bool)>,
    hour: i64,
    deep: bool,
)
    requires
        compaction(log, written1, now1, stamps1, log1, new_written1, rows1),
        compaction(log1 + pushed, written2, now2, stamps2, log2, new_written2, rows2),
        i64::MIN + 3600 <= now1 - RETAIN_SECS <= now2 - RETAIN_SECS < hour,
        are_hours_of(log, now1, hours1),
        name_hours(stamps1, hours1),
        are_hours_of(log1 + pushed, now2, hours2),
        name_hours(stamps2, hours2),
        forall|x: int| 0 <= x < log.len() ==> (#[trigger] log[x]).tally is None,
        forall|x: int| 0 <= x < pushed.len() ==> (#[trigger] pushed[x]).tally is None,
        log.len() * 65536 <= u64::MAX,
        exists|x: int|
            0 <= x < (log + pushed).len() && is_collapsed(
                #[trigger] (log + pushed)[x],
                now2,
                hour,
                deep,
            ),
    ensures
        ({
            let group = (log + pushed).filter(
                |e: EntryView| is_collapsed(e, now2, hour, deep),
            );
            let sum = group.fold_left(
                0int,
                |n: int, e: EntryView| n + e.message->Moisture_adc_raw,
            );
            let found = log2.filter(|e: EntryView| in_hour(e, now2, hour, deep));
            &&& group.len() > 0
            &&& found.len() == 1
            &&& found[0].message matches Message::Moisture { adc_raw, .. }
            &&& adc_raw == sum / (group.len() as int)
        }),
{
    let k: HourKey = (hour, deep);
    let both = log + pushed;
    let readings1 = older_readings(log, now1);
    let readings = older_readings(both, now2);
    let readings2 = older_readings(log1 + pushed, now2);
    lemma_faithful(log, now1, hours1, stamps1);
    lemma_faithful(log1 + pushed, now2, hours2, stamps2);
    assert forall|x: int| 0 <= x < both.len() implies (#[trigger] both[x]).tally is None by {
        if x < log.len() {
            assert(both[x] == log[x]);
        } else {
            assert(both[x] == pushed[x - log.len()]);
        }
    }
    lemma_single_folds(both, now2, hour, deep);
    let x = choose|x: int|
        0 <= x < both.len() && is_collapsed(#[trigger] both[x], now2, hour, deep);
    let p = |e: EntryView| is_collapsed(e, now2, hour, deep);
    both.lemma_filter_contains(p, x);
    lemma_key_counted(readings, k);

    // The first compaction's sums fit.
    lemma_single_folds(log, now1, hour, deep);
    let part = log.filter(|e: EntryView| is_collapsed(e, now1, hour, deep));
    log.lemma_filter_len(|e: EntryView| is_collapsed(e, now1, hour, deep));
    lemma_fold_bound(part, |n: int, e: EntryView| n + e.message->Moisture_adc_raw);

    law_compacting_in_between_changes_no_average(
        log,
        written1,
        now1,
        stamps1,
        log1,
        new_written1,
        rows1,
        pushed,
        now2,
        k,
    );
    assert(hours2.contains(k));
    let i = choose|i: int| 0 <= i < hours2.len() && hours2[i] == k;
    lemma_found(log1 + pushed, written2, now2, stamps2, log2, new_written2, rows2, hours2, i);
    law_mean_within_readings(readings2, k, 0, u16::MAX);
}

proof fn lemma_fold_bound(s: Seq<EntryView>, sum: spec_fn(int, EntryView) -> int)
    requires
        sum == |n: int, e: EntryView| n + e.message->Moisture_adc_raw,
    ensures
        0 <= s.fold_left(0, sum) <= s.len() * 65536,
    decreases s.len(),
{
    if s.len() > 0 {
        lemma_fold_bound(s.drop_last(), sum);
    }
}

/// The entry of an hour under the given stamp: the sum of what its readings stand for, divided
/// by their number.
pub open spec fn hour_entry(
    log: Seq<EntryView>,
    now: int,
    hour: i64,
    deep: bool,
    stamp: StampView,
) -> EntryView {
    let group = log.filter(|e: EntryView| is_collapsed(e, now, hour, deep));
    let sum = group.fold_left(0int, |n: int, e: EntryView| n + stands_for(e).0);
    let count = group.fold_left(0int, |n: int, e: EntryView| n + stands_for(e).1);
    EntryView {
        timestamp: stamp.text,
        message: Message::Moisture {
            adc_raw: (sum / count) as u16,
            depth: if deep {
                Depth::Deep
            } else {
                Depth::Shallow
            },
        },
        tally: if sum <= u64::MAX && count <= u64::MAX {
            Some(Tally { sum: sum as u64, count: count as u64 })
        } else {
            Some(Tally { sum: (sum / count) as u64, count: 1 })
        },
        instant: stamp.instant,
    }
}

proof fn lemma_hour_entry(
    log: Seq<EntryView>,
    now: int,
    hours: Seq<(i64, bool)>,
    stamp: StampView,
    i: int,
)
    requires
        now - RETAIN_SECS >= i64::MIN + 3600,
        are_hours_of(log, now, hours),
        0 <= i < hours.len(),
    ensures
        hours == hour_keys(older_readings(log, now)),
        hour_entry(log, now, hours[i].0, hours[i].1, stamp) == mean_entry(
            hour_means(older_readings(log, now))[i],
            stamp,
        ),
{
    let (hour, deep) = hours[i];
    let readings = older_readings(log, now);
    lemma_hours(log, now, hours);
    lemma_folds(
        log,
        now,
        hour,
        deep,
        |n: int, e: EntryView| n + stands_for(e).0,
        |n: int, e: EntryView| n + stands_for(e).1,
    );
    assert(hours.contains(hours[i]));
    lemma_key_counted(readings, hours[i]);
    law_mean_within_readings(readings, hours[i], 0, u16::MAX);
    assert(hour_means(readings)[i] == hour_mean(readings, hours[i]));
}

/// An average with a stamp becomes an entry, and no other does.
proof fn lemma_mean_entries(means: Seq<HourMean>, stamps: Seq<Option<StampView>>, n: int)
    requires
        0 <= n <= means.len(),
        stamps.len() == means.len(),
    ensures
        mean_entries(means.take(n), stamps).len() == stamps.take(n).filter(
            |s: Option<StampView>| s is Some,
        ).len(),
        forall|i: int|
            0 <= i < n && (#[trigger] stamps[i]) is Some ==> mean_entries(
                means.take(n),
                stamps,
            ).contains(mean_entry(means[i], stamps[i]->0)),
    decreases n,
{
    reveal(Seq::filter);
    if n > 0 {
        lemma_mean_entries(means, stamps, n - 1);
        assert(means.take(n).drop_last() =~= means.take(n - 1));
        assert(stamps.take(n).drop_last() =~= stamps.take(n - 1));
        let before = mean_entries(means.take(n - 1), stamps);
        let after = mean_entries(means.take(n), stamps);
        assert forall|i: int| 0 <= i < n && (#[trigger] stamps[i]) is Some implies after.contains(
            mean_entry(means[i], stamps[i]->0),
        ) by {
            let e = mean_entry(means[i], stamps[i]->0);
            if i < n - 1 {
                let x = choose|x: int| 0 <= x < before.len() && before[x] == e;
                assert(after[x] == e);
            } else {
                assert(after[before.len() as int] == e);
            }
        }
    } else {
        assert(means.take(0) =~= Seq::<HourMean>::empty());
        assert(stamps.take(0) =~= Seq::<Option<StampView>>::empty());
    }
}

/// Whatever the stamps are: a compacted log holds the recent events, the readings of the raw
/// window and the entries of those hours that have a stamp, and nothing beside, in the order
/// of the stamps. Rows for the file are such entries of hours whose stamp can be read and that
/// are over: each key that the stamps give is written once, none that was written before, and
/// all of them are written afterwards.
pub proof fn law_compacted_entries(
    log: Seq<EntryView>,
    written: Set<HourKey>,
    now: int,
    stamps: Seq<Option<StampView>>,
    new_log: Seq<EntryView>,
    new_written: Set<HourKey>,
    rows: Seq<EntryView>,
    hours: Seq<(i64, bool)>,
)
    requires
        compaction(log, written, now, stamps, new_log, new_written, rows),
        now - RETAIN_SECS >= i64::MIN + 3600,
        are_hours_of(log, now, hours),
        stamps.len() == hours.len(),
    ensures
        new_log.len() == log.filter(
            |e: EntryView| !(e.message is Moisture) && is_recent(e, now),
        ).len() + log.filter(|e: EntryView| in_raw_window(e, now)).len() + stamps.filter(
            |s: Option<StampView>| s is Some,
        ).len(),
        forall|i: int, j: int|
            0 <= i <= j < new_log.len() ==> text_le(
                #[trigger] new_log[i].timestamp,
                #[trigger] new_log[j].timestamp,
            ),
        forall|e: EntryView|
            in_raw_window(e, now) ==> #[trigger] new_log.to_multiset().count(e)
                >= log.to_multiset().count(e),
        forall|i: int|
            0 <= i < hours.len() && (#[trigger] stamps[i]) is Some ==> {
                let e = hour_entry(log, now, hours[i].0, hours[i].1, stamps[i]->0);
                &&& new_log.contains(e)
                &&& e.instant matches Some((t, _)) ==> (is_over(t, now) ==> new_written.contains(
                    (t, hours[i].1),
                ))
            },
        forall|x: int|
            0 <= x < rows.len() ==> {
                let e = #[trigger] rows[x];
                &&& new_log.contains(e)
                &&& e.message matches Message::Moisture { depth, .. }
                &&& e.instant matches Some((t, _))
                &&& is_over(t, now)
                &&& !written.contains((t, depth == Depth::Deep))
            },
        forall|x: int, y: int|
            0 <= x < y < rows.len() ==> ((#[trigger] rows[x]).instant->0).0 != ((
            #[trigger] rows[y]).instant->0).0 || rows[x].message->Moisture_depth
                != rows[y].message->Moisture_depth,
        forall|t: i64, deep: bool| #[trigger]
            new_written.contains((t, deep)) <==> written.contains((t, deep)) || exists|x: int|
                {
                    &&& 0 <= x < rows.len()
                    &&& ((#[trigger] rows[x]).instant->0).0 == t
                    &&& (rows[x].message->Moisture_depth == Depth::Deep) == deep
                },
{
    broadcast use vstd::seq_lib::group_to_multiset_ensures;

    let readings = older_readings(log, now);
    let means = hour_means(readings);
    let edge = seal_edge(now);
    let (a, b, c) = (averages(log, now, stamps), events(log, now), raw_readings(log, now));
    lemma_hours(log, now, hours);
    law_sealing(a, written, edge);
    law_sort_permutes(a + b + c, new_log);
    assert(new_log.to_multiset().len() == (a + b + c).to_multiset().len());
    lemma_filter_same(
        log,
        |e: EntryView| is_event(e, now),
        |e: EntryView| !(e.message is Moisture) && is_recent(e, now),
    );
    lemma_filter_same(
        log,
        |e: EntryView| is_raw(e, now),
        |e: EntryView| in_raw_window(e, now),
    );
    assert forall|e: EntryView|
        in_raw_window(e, now) implies #[trigger] new_log.to_multiset().count(e)
        >= log.to_multiset().count(e) by {
        law_raw_readings_are_kept(log, written, now, stamps, new_log, new_written, rows, e);
    }
    lemma_mean_entries(means, stamps, means.len() as int);
    assert(means.take(means.len() as int) =~= means);
    assert(stamps.take(means.len() as int) =~= stamps);
    assert forall|e: EntryView| a.contains(e) implies #[trigger] new_log.contains(e) by {
        lemma_compacted_count(log, now, stamps, new_log, e);
        assert(a.to_multiset().count(e) > 0);
        assert(new_log.to_multiset().count(e) > 0);
    }
    assert forall|i: int| 0 <= i < hours.len() && (#[trigger] stamps[i]) is Some implies {
        let e = hour_entry(log, now, hours[i].0, hours[i].1, stamps[i]->0);
        &&& new_log.contains(e)
        &&& e.instant matches Some((t, _)) ==> (is_over(t, now) ==> new_written.contains(
            (t, hours[i].1),
        ))
    } by {
        let e = hour_entry(log, now, hours[i].0, hours[i].1, stamps[i]->0);
        lemma_hour_entry(log, now, hours, stamps[i]->0, i);
        assert(a.contains(e));
        let x = choose|x: int| 0 <= x < a.len() && a[x] == e;
        if e.instant is Some && is_over((e.instant->0).0, now) {
            assert(is_sealed(a[x], edge));
        }
    }
    assert forall|x: int| 0 <= x < rows.len() implies {
        let e = #[trigger] rows[x];
        &&& new_log.contains(e)
        &&& e.message matches Message::Moisture { depth, .. }
        &&& e.instant matches Some((t, _))
        &&& is_over(t, now)
        &&& !written.contains((t, depth == Depth::Deep))
    } by {
        assert(a.contains(rows[x]));
    }
    assert forall|x: int, y: int| 0 <= x < y < rows.len() implies ((
    #[trigger] rows[x]).instant->0).0 != ((#[trigger] rows[y]).instant->0).0
        || rows[x].message->Moisture_depth != rows[y].message->Moisture_depth by {
        assert(row_key(rows[x]) != row_key(rows[y]));
        assert(is_sealed(rows[x], edge) && is_sealed(rows[y], edge));
    }
    assert forall|t: i64, deep: bool| #[trigger]
        new_written.contains((t, deep)) <==> written.contains((t, deep)) || exists|x: int|
            {
                &&& 0 <= x < rows.len()
                &&& ((#[trigger] rows[x]).instant->0).0 == t
                &&& (rows[x].message->Moisture_depth == Depth::Deep) == deep
            } by {
        if new_written.contains((t, deep)) && !written.contains((t, deep)) {
            let x = choose|x: int| 0 <= x < rows.len() && row_key(#[trigger] rows[x]) == (t, deep);
            assert(is_sealed(rows[x], edge));
            assert((rows[x].instant->0).0 == t);
        }
        if exists|x: int|
            {
                &&& 0 <= x < rows.len()
                &&& ((#[trigger] rows[x]).instant->0).0 == t
                &&& (rows[x].message->Moisture_depth == Depth::Deep) == deep
            } {
            let x = choose|x: int|
                {
                    &&& 0 <= x < rows.len()
                    &&& ((#[trigger] rows[x]).instant->0).0 == t
                    &&& (rows[x].message->Moisture_depth == Depth::Deep) == deep
                };
            assert(is_sealed(rows[x], edge));
            assert(row_key(rows[x]) == (t, deep));
        }
    }
}

} // verus!
