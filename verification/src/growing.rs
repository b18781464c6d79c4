//! What the averages are worth: an hour that is compacted again and again, while it is still
//! filling up, ends up with the mean of all its readings.

use vstd::prelude::*;

use crate::compact::{
    averages, compaction, events, is_event, is_raw, is_sealed, mean_entry, raw_readings, row_key,
    seal, seal_edge, StampView,
};
use crate::config::{RAW_WINDOW_SECS, RETAIN_SECS};
use crate::hours::{
    hour_count, hour_key, hour_keys, hour_mean, hour_means, hour_sum, is_older, key_lt,
    law_mean_within_readings, law_one_mean_per_hour, lemma_absent, lemma_key_counted,
    lemma_no_reading, older_readings, seconds_of, tally_fits,
};
use crate::laws::{
    faithful, law_sealing, lemma_average_origin, lemma_faithful_entries, lemma_filter_count,
    lemma_filter_none, lemma_hour_start, lemma_mean_entry,
};
use crate::order::law_sort_permutes;
use crate::types::EntryView;
use crate::written::HourKey;

verus! {

proof fn lemma_sum_add(a: Seq<EntryView>, b: Seq<EntryView>, k: HourKey)
    ensures
        hour_sum(a + b, k) == hour_sum(a, k) + hour_sum(b, k),
        hour_count(a + b, k) == hour_count(a, k) + hour_count(b, k),
    decreases b.len(),
{
    if b.len() == 0 {
        assert(a + b =~= a);
    } else {
        lemma_sum_add(a, b.drop_last(), k);
        assert((a + b).drop_last() =~= a + b.drop_last());
        assert((a + b).last() == b.last());
    }
}

/// The part that one entry has in a sum.
proof fn lemma_sum_remove(s: Seq<EntryView>, i: int, k: HourKey)
    requires
        0 <= i < s.len(),
    ensures
        hour_sum(s, k) == hour_sum(s.remove(i), k) + hour_sum(seq![s[i]], k),
        hour_count(s, k) == hour_count(s.remove(i), k) + hour_count(seq![s[i]], k),
{
    let (a, b) = (s.take(i), s.skip(i + 1));
    assert(s =~= a + seq![s[i]] + b);
    assert(s.remove(i) =~= a + b);
    lemma_sum_add(a + seq![s[i]], b, k);
    lemma_sum_add(a, seq![s[i]], k);
    lemma_sum_add(a, b, k);
}

/// The order of the readings does not matter.
proof fn lemma_sum_permuted(a: Seq<EntryView>, b: Seq<EntryView>, k: HourKey)
    requires
        a.to_multiset() == b.to_multiset(),
    ensures
        hour_sum(a, k) == hour_sum(b, k),
        hour_count(a, k) == hour_count(b, k),
    decreases a.len(),
{
    broadcast use vstd::seq_lib::group_to_multiset_ensures;

    assert(a.len() == a.to_multiset().len());
    assert(b.len() == b.to_multiset().len());
    if a.len() > 0 {
        let n = a.len() - 1;
        assert(a.contains(a[n]));
        assert(b.to_multiset().count(a[n]) > 0);
        assert(b.contains(a[n]));
        let j = choose|j: int| 0 <= j < b.len() && b[j] == a[n];
        lemma_sum_remove(a, n, k);
        lemma_sum_remove(b, j, k);
        assert(a.remove(n).to_multiset() =~= a.to_multiset().remove(a[n]));
        assert(b.remove(j).to_multiset() =~= b.to_multiset().remove(b[j]));
        lemma_sum_permuted(a.remove(n), b.remove(j), k);
    }
}

/// A sum over the entries that one filter lets through, split over two others that part
/// those of the hour between them.
proof fn lemma_sum_split(
    log: Seq<EntryView>,
    p: spec_fn(EntryView) -> bool,
    q: spec_fn(EntryView) -> bool,
    r: spec_fn(EntryView) -> bool,
    k: HourKey,
)
    requires
        forall|e: EntryView|
            hour_key(e) == k ==> (#[trigger] p(e) <==> q(e) || r(e)) && !(q(e) && r(e)),
    ensures
        hour_sum(log.filter(p), k) == hour_sum(log.filter(q), k) + hour_sum(log.filter(r), k),
        hour_count(log.filter(p), k) == hour_count(log.filter(q), k) + hour_count(
            log.filter(r),
            k,
        ),
    decreases log.len(),
{
    reveal(Seq::filter);
    if log.len() > 0 {
        let rest = log.drop_last();
        let e = log.last();
        lemma_sum_split(rest, p, q, r, k);
        assert(p(e) || !p(e));
        if p(e) {
            assert(rest.filter(p).push(e).drop_last() =~= rest.filter(p));
        }
        if q(e) {
            assert(rest.filter(q).push(e).drop_last() =~= rest.filter(q));
        }
        if r(e) {
            assert(rest.filter(r).push(e).drop_last() =~= rest.filter(r));
        }
    }
}

pub proof fn lemma_filter_twice(
    s: Seq<EntryView>,
    p: spec_fn(EntryView) -> bool,
    q: spec_fn(EntryView) -> bool,
    both: spec_fn(EntryView) -> bool,
)
    requires
        forall|e: EntryView| #[trigger] both(e) <==> p(e) && q(e),
    ensures
        s.filter(p).filter(q) == s.filter(both),
    decreases s.len(),
{
    reveal(Seq::filter);
    if s.len() > 0 {
        let rest = s.drop_last();
        let x = s.last();
        lemma_filter_twice(rest, p, q, both);
        assert(both(x) <==> p(x) && q(x));
        if p(x) {
            assert(rest.filter(p).push(x).drop_last() =~= rest.filter(p));
        }
    }
}

/// One entry of a run passes a filter and no other does.
pub proof fn lemma_filter_one(s: Seq<EntryView>, p: spec_fn(EntryView) -> bool, i: int)
    requires
        0 <= i < s.len(),
        p(s[i]),
        forall|j: int| 0 <= j < s.len() && j != i ==> !p(#[trigger] s[j]),
    ensures
        s.filter(p) == seq![s[i]],
    decreases s.len(),
{
    reveal(Seq::filter);
    let rest = s.drop_last();
    if i == s.len() - 1 {
        assert forall|j: int| 0 <= j < rest.len() implies !p(#[trigger] rest[j]) by {
            assert(!p(s[j]));
        }
        lemma_filter_none(rest, p);
        assert(s.filter(p) =~= seq![s[i]]);
    } else {
        assert forall|j: int| 0 <= j < rest.len() && j != i implies !p(#[trigger] rest[j]) by {
            assert(!p(s[j]));
        }
        lemma_filter_one(rest, p, i);
        assert(!p(s[s.len() - 1]));
    }
}

/// A filtered compacted log holds what the filter lets through of its three parts.
pub proof fn lemma_filtered_parts(
    log: Seq<EntryView>,
    written: Set<HourKey>,
    now: int,
    stamps: Seq<Option<StampView>>,
    new_log: Seq<EntryView>,
    new_written: Set<HourKey>,
    rows: Seq<EntryView>,
    p: spec_fn(EntryView) -> bool,
)
    requires
        compaction(log, written, now, stamps, new_log, new_written, rows),
    ensures
        new_log.filter(p).to_multiset() == (averages(log, now, stamps).filter(p) + events(
            log,
            now,
        ).filter(p) + raw_readings(log, now).filter(p)).to_multiset(),
{
    let (a, b, c) = (averages(log, now, stamps), events(log, now), raw_readings(log, now));
    let all = a + b + c;
    law_sort_permutes(all, new_log);
    Seq::filter_distributes_over_add(a + b, c, p);
    Seq::filter_distributes_over_add(a, b, p);
    assert forall|e: EntryView|
        #[trigger] new_log.filter(p).to_multiset().count(e) == all.filter(p).to_multiset().count(
            e,
        ) by {
        lemma_filter_count(new_log, p, e);
        lemma_filter_count(all, p, e);
    }
    assert(new_log.filter(p).to_multiset() =~= all.filter(p).to_multiset());
}

/// The averages of a log sum up to what they were made of.
proof fn lemma_averages_sum(
    log: Seq<EntryView>,
    now: int,
    stamps: Seq<Option<StampView>>,
    k: HourKey,
)
    requires
        faithful(hour_means(older_readings(log, now)), stamps),
        tally_fits(
            hour_sum(older_readings(log, now), k),
            hour_count(older_readings(log, now), k),
        ),
    ensures
        hour_sum(averages(log, now, stamps), k) == hour_sum(older_readings(log, now), k),
        hour_count(averages(log, now, stamps), k) == hour_count(older_readings(log, now), k),
{
    let readings = older_readings(log, now);
    let keys = hour_keys(readings);
    let a = averages(log, now, stamps);
    lemma_averages(log, now, stamps);
    law_one_mean_per_hour(readings);
    lemma_key_counted(readings, k);
    if keys.contains(k) {
        let i = choose|i: int| 0 <= i < keys.len() && keys[i] == k;
        assert(hour_key(a[i]) == k);
        lemma_sum_remove(a, i, k);
        let rest = a.remove(i);
        assert forall|j: int| 0 <= j < rest.len() implies hour_key(#[trigger] rest[j]) != k by {
            let x = if j < i { j } else { j + 1 };
            assert(rest[j] == a[x]);
            if x < i {
                assert(key_lt(keys[x], keys[i]));
            } else {
                assert(key_lt(keys[i], keys[x]));
            }
        }
        lemma_no_reading(rest, k);
        lemma_mean_entry(readings, k, stamps[i]->0);
        reveal_with_fuel(hour_sum, 2);
        reveal_with_fuel(hour_count, 2);
        assert(seq![a[i]].drop_last() =~= Seq::<EntryView>::empty());
    } else {
        assert forall|j: int| 0 <= j < a.len() implies hour_key(#[trigger] a[j]) != k by {
            assert(keys.contains(keys[j]));
        }
        lemma_no_reading(a, k);
        lemma_absent(readings, k);
    }
}

/// With faithful stamps the averages stand under the keys of the hours, one by one, and each
/// lies before the raw window.
pub proof fn lemma_averages(log: Seq<EntryView>, now: int, stamps: Seq<Option<StampView>>)
    requires
        faithful(hour_means(older_readings(log, now)), stamps),
    ensures
        ({
            let readings = older_readings(log, now);
            let a = averages(log, now, stamps);
            &&& a.len() == hour_keys(readings).len()
            &&& forall|i: int|
                0 <= i < a.len() ==> {
                    let k = hour_keys(readings)[i];
                    &&& #[trigger] a[i] == mean_entry(hour_mean(readings, k), stamps[i]->0)
                    &&& a[i].is_moisture()
                    &&& a[i].seconds() == Some(k.0)
                    &&& hour_key(a[i]) == k
                    &&& row_key(a[i]) == k
                    &&& k.0 < now - RAW_WINDOW_SECS
                }
        }),
{
    let readings = older_readings(log, now);
    let means = hour_means(readings);
    let keys = hour_keys(readings);
    let a = averages(log, now, stamps);
    assert(means.take(means.len() as int) =~= means);
    lemma_faithful_entries(means, stamps, means.len() as int);
    assert forall|i: int| 0 <= i < a.len() implies {
        let k = keys[i];
        &&& #[trigger] a[i] == mean_entry(hour_mean(readings, k), stamps[i]->0)
        &&& a[i].is_moisture()
        &&& a[i].seconds() == Some(k.0)
        &&& hour_key(a[i]) == k
        &&& row_key(a[i]) == k
        &&& k.0 < now - RAW_WINDOW_SECS
    } by {
        assert(a.contains(a[i]));
        let r = lemma_average_origin(log, now, stamps, a[i]);
        lemma_hour_start(seconds_of(r));
        assert(means[i] == hour_mean(readings, keys[i]));
        assert(stamps[i] is Some);
    }
}

/// Compacting in between makes no difference: after a compaction and with more entries, each
/// hour sums up to what it would without that compaction, so its average is the same. The
/// hour must start late enough to be retained, and the sum and the number of what was
/// collapsed must fit in 64 bits.
pub proof fn law_compacting_in_between_changes_no_average(
    log: Seq<EntryView>,
    written: Set<HourKey>,
    now1: int,
    stamps: Seq<Option<StampView>>,
    new_log: Seq<EntryView>,
    new_written: Set<HourKey>,
    rows: Seq<EntryView>,
    pushed: Seq<EntryView>,
    now2: int,
    k: HourKey,
)
    requires
        compaction(log, written, now1, stamps, new_log, new_written, rows),
        faithful(hour_means(older_readings(log, now1)), stamps),
        now1 <= now2,
        k.0 > now2 - RETAIN_SECS,
        tally_fits(
            hour_sum(older_readings(log, now1), k),
            hour_count(older_readings(log, now1), k),
        ),
    ensures
        ({
            let with = older_readings(new_log + pushed, now2);
            let without = older_readings(log + pushed, now2);
            &&& hour_sum(with, k) == hour_sum(without, k)
            &&& hour_count(with, k) == hour_count(without, k)
            &&& hour_keys(with).contains(k) <==> hour_keys(without).contains(k)
            &&& hour_mean(with, k) == hour_mean(without, k)
        }),
{
    let older1 = |e: EntryView| is_older(e, now1);
    let older2 = |e: EntryView| is_older(e, now2);
    let raw1 = |e: EntryView| is_raw(e, now1);
    let raw_older = |e: EntryView| is_raw(e, now1) && is_older(e, now2);
    let (a, b, c) = (averages(log, now1, stamps), events(log, now1), raw_readings(log, now1));
    let with = older_readings(new_log + pushed, now2);
    let without = older_readings(log + pushed, now2);

    // What was compacted: the averages, and what has left the raw window since.
    lemma_filtered_parts(log, written, now1, stamps, new_log, new_written, rows, older2);
    lemma_sum_permuted(new_log.filter(older2), a.filter(older2) + b.filter(older2) + c.filter(
        older2,
    ), k);
    lemma_sum_add(a.filter(older2) + b.filter(older2), c.filter(older2), k);
    lemma_sum_add(a.filter(older2), b.filter(older2), k);
    assert forall|i: int| 0 <= i < b.len() implies !older2(#[trigger] b[i]) by {
        log.lemma_filter_pred(|e: EntryView| is_event(e, now1), i);
    }
    lemma_filter_none(b, older2);
    lemma_averages(log, now1, stamps);
    lemma_kept_averages(a, older2, now1, now2, k);
    lemma_averages_sum(log, now1, stamps, k);

    // What would have been compacted: the same readings.
    lemma_filter_twice(log, raw1, older2, raw_older);
    assert forall|e: EntryView| hour_key(e) == k implies (#[trigger] older2(e) <==> older1(e)
        || raw_older(e)) && !(older1(e) && raw_older(e)) by {
        lemma_hour_start(seconds_of(e));
    }
    lemma_sum_split(log, older2, older1, raw_older, k);

    Seq::filter_distributes_over_add(new_log, pushed, older2);
    Seq::filter_distributes_over_add(log, pushed, older2);
    lemma_sum_add(new_log.filter(older2), pushed.filter(older2), k);
    lemma_sum_add(log.filter(older2), pushed.filter(older2), k);
    lemma_key_counted(with, k);
    lemma_key_counted(without, k);
}

/// Of the averages, a later compaction finds those of a retained hour again.
proof fn lemma_kept_averages(
    a: Seq<EntryView>,
    older: spec_fn(EntryView) -> bool,
    now1: int,
    now2: int,
    k: HourKey,
)
    requires
        older == |e: EntryView| is_older(e, now2),
        now1 <= now2,
        k.0 > now2 - RETAIN_SECS,
        forall|i: int|
            0 <= i < a.len() ==> {
                let e = #[trigger] a[i];
                &&& e.is_moisture()
                &&& e.seconds() == Some(hour_key(e).0)
                &&& hour_key(e).0 < now1 - RAW_WINDOW_SECS
            },
    ensures
        hour_sum(a.filter(older), k) == hour_sum(a, k),
        hour_count(a.filter(older), k) == hour_count(a, k),
    decreases a.len(),
{
    reveal(Seq::filter);
    if a.len() > 0 {
        let rest = a.drop_last();
        let e = a.last();
        assert(a[a.len() - 1] == e);
        assert forall|i: int| 0 <= i < rest.len() implies {
            let x = #[trigger] rest[i];
            &&& x.is_moisture()
            &&& x.seconds() == Some(hour_key(x).0)
            &&& hour_key(x).0 < now1 - RAW_WINDOW_SECS
        } by {
            assert(rest[i] == a[i]);
        }
        lemma_kept_averages(rest, older, now1, now2, k);
        if older(e) {
            assert(rest.filter(older).push(e).drop_last() =~= rest.filter(older));
        }
    }
}

/// Whether an entry of a log stands for readings of the hour `k` before the raw window.
pub open spec fn averages_hour(e: EntryView, now: int, k: HourKey) -> bool {
    &&& e.is_moisture()
    &&& e.seconds() is Some
    &&& seconds_of(e) < now - RAW_WINDOW_SECS
    &&& hour_key(e) == k
}

/// The rows of a compaction: the averages that are sealed and were not written.
pub open spec fn is_new_row(e: EntryView, written: Set<HourKey>, now: int) -> bool {
    is_sealed(e, seal_edge(now)) && !written.contains(row_key(e))
}

/// A compacted log holds exactly one average for each hour and sensor of which there was a
/// reading before the raw window, with the mean of those readings, and none for any other.
/// The rows that compaction returns are exactly the averages that are sealed and had not been
/// written, in ascending order and with the same means. This holds where the stamps of the
/// hours are read back.
pub proof fn law_one_average_per_hour(
    log: Seq<EntryView>,
    written: Set<HourKey>,
    now: int,
    stamps: Seq<Option<StampView>>,
    new_log: Seq<EntryView>,
    new_written: Set<HourKey>,
    rows: Seq<EntryView>,
    k: HourKey,
)
    requires
        compaction(log, written, now, stamps, new_log, new_written, rows),
        faithful(hour_means(older_readings(log, now)), stamps),
    ensures
        ({
            let readings = older_readings(log, now);
            let found = new_log.filter(|e: EntryView| averages_hour(e, now, k));
            if hour_keys(readings).contains(k) {
                &&& found.len() == 1
                &&& found[0].seconds() == Some(k.0)
                &&& found[0].is_deep() == k.1
                &&& found[0].reading() == hour_sum(readings, k) / hour_count(readings, k)
            } else {
                found.len() == 0
            }
        }),
        rows == averages(log, now, stamps).filter(|e: EntryView| is_new_row(e, written, now)),
        forall|i: int, j: int|
            0 <= i < j < rows.len() ==> key_lt(
                row_key(#[trigger] rows[i]),
                row_key(#[trigger] rows[j]),
            ),
        forall|i: int|
            0 <= i < rows.len() && row_key(#[trigger] rows[i]) == k ==> rows[i].reading()
                == hour_sum(older_readings(log, now), k) / hour_count(older_readings(log, now), k),
{
    broadcast use vstd::seq_lib::group_to_multiset_ensures;

    let p = |e: EntryView| averages_hour(e, now, k);
    let readings = older_readings(log, now);
    let keys = hour_keys(readings);
    let (a, b, c) = (averages(log, now, stamps), events(log, now), raw_readings(log, now));
    let found = new_log.filter(p);
    lemma_averages(log, now, stamps);
    law_one_mean_per_hour(readings);
    lemma_filtered_parts(log, written, now, stamps, new_log, new_written, rows, p);
    assert forall|i: int| 0 <= i < b.len() implies !p(#[trigger] b[i]) by {
        log.lemma_filter_pred(|e: EntryView| is_event(e, now), i);
    }
    assert forall|i: int| 0 <= i < c.len() implies !p(#[trigger] c[i]) by {
        log.lemma_filter_pred(|e: EntryView| is_raw(e, now), i);
    }
    lemma_filter_none(b, p);
    lemma_filter_none(c, p);
    assert(a.filter(p) + b.filter(p) + c.filter(p) =~= a.filter(p));
    assert(found.to_multiset().len() == a.filter(p).to_multiset().len());
    if keys.contains(k) {
        let i = choose|i: int| 0 <= i < keys.len() && keys[i] == k;
        assert(p(a[i]));
        assert forall|j: int| 0 <= j < a.len() && j != i implies !p(#[trigger] a[j]) by {
            if j < i {
                assert(key_lt(keys[j], keys[i]));
            } else {
                assert(key_lt(keys[i], keys[j]));
            }
        }
        lemma_filter_one(a, p, i);
        assert(found.len() == 1);
        assert(found.contains(found[0]));
        assert(found.to_multiset().count(found[0]) > 0);
        assert(a.filter(p).to_multiset().count(found[0]) > 0);
        assert(a.filter(p).contains(found[0]));
        assert(found[0] == a[i]);
        law_mean_within_readings(readings, k, 0, u16::MAX);
    } else {
        assert forall|j: int| 0 <= j < a.len() implies !p(#[trigger] a[j]) by {
            assert(keys.contains(keys[j]));
        }
        lemma_filter_none(a, p);
    }
    assert forall|i: int, j: int| 0 <= i < j < a.len() implies key_lt(
        row_key(#[trigger] a[i]),
        row_key(#[trigger] a[j]),
    ) by {
        assert(key_lt(keys[i], keys[j]));
    }
    lemma_seal_ascending(a, written, now);
    law_sealing(a, written, seal_edge(now));
    assert forall|i: int|
        0 <= i < rows.len() && row_key(#[trigger] rows[i]) == k implies rows[i].reading()
        == hour_sum(readings, k) / hour_count(readings, k) by {
        assert(a.contains(rows[i]));
        let j = choose|j: int| 0 <= j < a.len() && a[j] == rows[i];
        assert(keys.contains(keys[j]));
        law_mean_within_readings(readings, k, 0, u16::MAX);
    }
}

/// Sealing averages that come in ascending order.
proof fn lemma_seal_ascending(entries: Seq<EntryView>, written: Set<HourKey>, now: int)
    requires
        forall|i: int, j: int|
            0 <= i < j < entries.len() ==> key_lt(
                row_key(#[trigger] entries[i]),
                row_key(#[trigger] entries[j]),
            ),
    ensures
        ({
            let rows = seal(entries, written, seal_edge(now)).0;
            &&& rows == entries.filter(|e: EntryView| is_new_row(e, written, now))
            &&& forall|i: int, j: int|
                0 <= i < j < rows.len() ==> key_lt(
                    row_key(#[trigger] rows[i]),
                    row_key(#[trigger] rows[j]),
                )
        }),
    decreases entries.len(),
{
    reveal(Seq::filter);
    let edge = seal_edge(now);
    if entries.len() > 0 {
        let rest = entries.drop_last();
        let e = entries.last();
        assert forall|i: int, j: int| 0 <= i < j < rest.len() implies key_lt(
            row_key(#[trigger] rest[i]),
            row_key(#[trigger] rest[j]),
        ) by {
            assert(key_lt(row_key(entries[i]), row_key(entries[j])));
        }
        lemma_seal_ascending(rest, written, now);
        law_sealing(rest, written, edge);
        let (old_rows, known) = seal(rest, written, edge);
        let rows = seal(entries, written, edge).0;
        assert forall|i: int| 0 <= i < old_rows.len() implies key_lt(
            row_key(#[trigger] old_rows[i]),
            row_key(e),
        ) by {
            assert(rest.contains(old_rows[i]));
            let j = choose|j: int| 0 <= j < rest.len() && rest[j] == old_rows[i];
            assert(key_lt(row_key(entries[j]), row_key(entries[entries.len() - 1])));
        }
        assert(known.contains(row_key(e)) <==> written.contains(row_key(e)));
        assert forall|i: int, j: int| 0 <= i < j < rows.len() implies key_lt(
            row_key(#[trigger] rows[i]),
            row_key(#[trigger] rows[j]),
        ) by {
            assert(rows[i] == old_rows[i]);
            if j < old_rows.len() {
                assert(rows[j] == old_rows[j]);
            }
        }
    }
}

/// An hour that lies before the raw window as a whole is averaged as a whole: all readings of
/// it in the log go into the average.
pub proof fn law_whole_hours_are_averaged(log: Seq<EntryView>, now: int, k: HourKey)
    requires
        k.0 > now - RETAIN_SECS,
        k.0 + 3600 <= now - RAW_WINDOW_SECS,
    ensures
        ({
            let all = log.filter(|e: EntryView| e.is_moisture() && e.seconds() is Some);
            &&& hour_sum(older_readings(log, now), k) == hour_sum(all, k)
            &&& hour_count(older_readings(log, now), k) == hour_count(all, k)
        }),
{
    let p = |e: EntryView| e.is_moisture() && e.seconds() is Some;
    let older = |e: EntryView| is_older(e, now);
    let none = |e: EntryView| false;
    assert forall|e: EntryView| hour_key(e) == k implies (#[trigger] p(e) <==> older(e) || none(
        e,
    )) && !(older(e) && none(e)) by {
        lemma_hour_start(seconds_of(e));
    }
    lemma_sum_split(log, p, older, none, k);
    assert forall|i: int| 0 <= i < log.len() implies !none(#[trigger] log[i]) by {
    }
    lemma_filter_none(log, none);
}

/// An hour that is compacted while it fills up, then gets more readings and is compacted
/// again, ends up with the mean of all its readings: it has one average in the log, and that
/// is the sum of what the hour had before the first compaction and got after it, divided by
/// their number. So is the row that is written of it, if it is sealed.
pub proof fn law_growing_hours_are_averaged(
    log: Seq<EntryView>,
    written1: Set<HourKey>,
    now1: int,
    stamps1: Seq<Option<StampView>>,
    log1: Seq<EntryView>,
    new_written1: Set<HourKey>,
    rows1: Seq<EntryView>,
    pushed: Seq<EntryView>,
    written2: Set<HourKey>,
    now2: int,
    stamps2: Seq<Option<StampView>>,
    log2: Seq<EntryView>,
    new_written2: Set<HourKey>,
    rows2: Seq<EntryView>,
    k: HourKey,
)
    requires
        compaction(log, written1, now1, stamps1, log1, new_written1, rows1),
        compaction(log1 + pushed, written2, now2, stamps2, log2, new_written2, rows2),
        faithful(hour_means(older_readings(log, now1)), stamps1),
        faithful(hour_means(older_readings(log1 + pushed, now2)), stamps2),
        now1 <= now2,
        k.0 > now2 - RETAIN_SECS,
        tally_fits(
            hour_sum(older_readings(log, now1), k),
            hour_count(older_readings(log, now1), k),
        ),
    ensures
        ({
            let readings = older_readings(log + pushed, now2);
            let found = log2.filter(|e: EntryView| averages_hour(e, now2, k));
            if hour_keys(readings).contains(k) {
                &&& found.len() == 1
                &&& found[0].seconds() == Some(k.0)
                &&& found[0].is_deep() == k.1
                &&& found[0].reading() == hour_sum(readings, k) / hour_count(readings, k)
            } else {
                found.len() == 0
            }
        }),
        forall|i: int|
            0 <= i < rows2.len() && row_key(#[trigger] rows2[i]) == k ==> rows2[i].reading()
                == hour_sum(older_readings(log + pushed, now2), k) / hour_count(
                older_readings(log + pushed, now2),
                k,
            ),
{
    law_compacting_in_between_changes_no_average(
        log,
        written1,
        now1,
        stamps1,
        log1,
        new_written1,
        rows1,
        pushed,
        now2,
        k,
    );
    law_one_average_per_hour(
        log1 + pushed,
        written2,
        now2,
        stamps2,
        log2,
        new_written2,
        rows2,
        k,
    );
}

} // verus!
