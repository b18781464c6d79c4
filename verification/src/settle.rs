//! Compaction settles: compacting a compacted log again changes nothing.

use vstd::prelude::*;

use crate::compact::{
    averages, compaction, events, is_event, is_raw, is_sealed, mean_entry,
    raw_readings, row_key, seal, seal_edge, StampView,
};
use crate::config::RETAIN_SECS;
use crate::hours::{
    ascending, hour_count, hour_key, hour_keys, hour_mean, hour_means, hour_sum, is_older, key_lt,
    law_one_mean_per_hour, lemma_no_reading, older_readings, seconds_of, tally_of, HourMean,
};
use crate::laws::{
    faithful, law_sealing, lemma_average_origin, lemma_faithful_entries, lemma_filter_all,
    lemma_filter_count, lemma_filter_none, lemma_hour_start, lemma_mean_entry,
};
use crate::order::{
    law_sort_is_unique, law_sort_permutes, lemma_stamped_add, stable_sort_of, stamped,
};
use crate::types::EntryView;
use crate::written::HourKey;

verus! {

proof fn lemma_filters_commute(
    s: Seq<EntryView>,
    p: spec_fn(EntryView) -> bool,
    q: spec_fn(EntryView) -> bool,
)
    ensures
        s.filter(p).filter(q) == s.filter(q).filter(p),
    decreases s.len(),
{
    reveal(Seq::filter);
    if s.len() > 0 {
        let rest = s.drop_last();
        let x = s.last();
        lemma_filters_commute(rest, p, q);
        if p(x) {
            assert(rest.filter(p).push(x).drop_last() =~= rest.filter(p));
        }
        if q(x) {
            assert(rest.filter(q).push(x).drop_last() =~= rest.filter(q));
        }
    }
}

/// Filtering a sorted log: entries of one stamp come out as from the unsorted one.
proof fn lemma_filter_sorted(
    before: Seq<EntryView>,
    after: Seq<EntryView>,
    p: spec_fn(EntryView) -> bool,
    t: Seq<char>,
)
    requires
        stable_sort_of(before, after),
    ensures
        stamped(after.filter(p), t) == stamped(before.filter(p), t),
{
    let q = |e: EntryView| e.timestamp == t;
    lemma_filters_commute(after, p, q);
    lemma_filters_commute(before, p, q);
    assert(stamped(after, t) == stamped(before, t));
}

/// Two ascending runs of the same keys are the same.
pub proof fn lemma_ascending_unique(a: Seq<HourKey>, b: Seq<HourKey>)
    requires
        ascending(a),
        ascending(b),
        forall|k: HourKey| #[trigger] a.contains(k) <==> b.contains(k),
    ensures
        a == b,
    decreases a.len(),
{
    if a.len() == 0 {
        if b.len() > 0 {
            assert(b.contains(b[0]));
            assert(a.contains(b[0]));
        }
        assert(a =~= b);
    } else {
        assert(a.contains(a[a.len() - 1]));
        let i = choose|i: int| 0 <= i < b.len() && b[i] == a[a.len() - 1];
        assert(b.contains(b[b.len() - 1]));
        assert(a.contains(b[b.len() - 1]));
        let j = choose|j: int| 0 <= j < a.len() && a[j] == b[b.len() - 1];
        if i < b.len() - 1 {
            assert(key_lt(b[i], b[b.len() - 1]));
            if j < a.len() - 1 {
                assert(key_lt(a[j], a[a.len() - 1]));
            }
        }
        assert(a.last() == b.last());
        let (c, d) = (a.drop_last(), b.drop_last());
        assert forall|k: HourKey| #[trigger] c.contains(k) <==> d.contains(k) by {
            if c.contains(k) {
                let x = choose|x: int| 0 <= x < c.len() && c[x] == k;
                assert(a[x] == k);
                assert(key_lt(a[x], a[a.len() - 1]));
                assert(a.contains(k));
                let y = choose|y: int| 0 <= y < b.len() && b[y] == k;
                assert(d[y] == k);
            }
            if d.contains(k) {
                let x = choose|x: int| 0 <= x < d.len() && d[x] == k;
                assert(b[x] == k);
                assert(key_lt(b[x], b[b.len() - 1]));
                assert(b.contains(k));
                assert(a.contains(k));
                let y = choose|y: int| 0 <= y < a.len() && a[y] == k;
                assert(c[y] == k);
            }
        }
        assert forall|x: int, y: int| 0 <= x < y < c.len() implies key_lt(
            #[trigger] c[x],
            #[trigger] c[y],
        ) by {
            assert(key_lt(a[x], a[y]));
        }
        assert forall|x: int, y: int| 0 <= x < y < d.len() implies key_lt(
            #[trigger] d[x],
            #[trigger] d[y],
        ) by {
            assert(key_lt(b[x], b[y]));
        }
        lemma_ascending_unique(c, d);
        assert(a =~= c.push(a.last()));
        assert(b =~= d.push(b.last()));
    }
}

/// A key that one entry alone has: its readings are that entry's.
proof fn lemma_lone_reading(readings: Seq<EntryView>, x: int)
    requires
        0 <= x < readings.len(),
        forall|y: int|
            0 <= y < readings.len() && y != x ==> hour_key(#[trigger] readings[y]) != hour_key(
                readings[x],
            ),
    ensures
        hour_sum(readings, hour_key(readings[x])) == readings[x].sum(),
        hour_count(readings, hour_key(readings[x])) == readings[x].count(),
    decreases readings.len(),
{
    let k = hour_key(readings[x]);
    let rest = readings.drop_last();
    if x == readings.len() - 1 {
        assert forall|y: int| 0 <= y < rest.len() implies hour_key(#[trigger] rest[y]) != k by {
            assert(rest[y] == readings[y]);
        }
        lemma_no_reading(rest, k);
    } else {
        assert forall|y: int| 0 <= y < rest.len() && y != x implies hour_key(#[trigger] rest[y])
            != hour_key(rest[x]) by {
            assert(rest[y] == readings[y]);
        }
        lemma_lone_reading(rest, x);
        assert(hour_key(readings[readings.len() - 1]) != k);
    }
}

/// Averages that stand each under a key of its own are their own averages, in whatever
/// order they come.
proof fn lemma_means_of_means(
    means: Seq<HourMean>,
    keys: Seq<HourKey>,
    entries: Seq<EntryView>,
    readings: Seq<EntryView>,
)
    requires
        ascending(keys),
        means.len() == keys.len(),
        entries.len() == keys.len(),
        forall|i: int| 0 <= i < means.len() ==> (#[trigger] means[i]).key() == keys[i],
        forall|i: int|
            0 <= i < entries.len() ==> {
                let e = #[trigger] entries[i];
                &&& hour_key(e) == keys[i]
                &&& e.sum() / e.count() == means[i].mean
                &&& tally_of(e.sum(), e.count()) == means[i].tally
            },
        readings.to_multiset() == entries.to_multiset(),
    ensures
        hour_means(readings) == means,
{
    broadcast use vstd::seq_lib::group_to_multiset_ensures;

    assert(entries.no_duplicates()) by {
        assert forall|i: int, j: int|
            0 <= i < entries.len() && 0 <= j < entries.len() && i != j implies entries[i]
            != entries[j] by {
            if i < j {
                assert(key_lt(keys[i], keys[j]));
            } else {
                assert(key_lt(keys[j], keys[i]));
            }
        }
    }
    entries.lemma_multiset_has_no_duplicates();
    readings.lemma_multiset_has_no_duplicates_conv();
    assert forall|e: EntryView| #[trigger] readings.contains(e) <==> entries.contains(e) by {
        assert(readings.contains(e) <==> readings.to_multiset().count(e) > 0);
        assert(entries.contains(e) <==> entries.to_multiset().count(e) > 0);
    }
    law_one_mean_per_hour(readings);
    assert forall|k: HourKey| #[trigger] hour_keys(readings).contains(k) <==> keys.contains(k) by {
        if hour_keys(readings).contains(k) {
            let x = choose|x: int| 0 <= x < readings.len() && hour_key(#[trigger] readings[x]) == k;
            assert(readings.contains(readings[x]));
            let i = choose|i: int| 0 <= i < entries.len() && entries[i] == readings[x];
            assert(keys[i] == k);
        }
        if keys.contains(k) {
            let i = choose|i: int| 0 <= i < keys.len() && keys[i] == k;
            assert(entries.contains(entries[i]));
            assert(readings.contains(entries[i]));
            let x = choose|x: int| 0 <= x < readings.len() && readings[x] == entries[i];
            assert(hour_key(readings[x]) == k);
        }
    }
    lemma_ascending_unique(hour_keys(readings), keys);
    assert forall|i: int| 0 <= i < means.len() implies #[trigger] hour_means(readings)[i]
        == means[i] by {
        let k = keys[i];
        assert(entries.contains(entries[i]));
        assert(readings.contains(entries[i]));
        let x = choose|x: int| 0 <= x < readings.len() && readings[x] == entries[i];
        assert forall|y: int| 0 <= y < readings.len() && y != x implies hour_key(
            #[trigger] readings[y],
        ) != hour_key(readings[x]) by {
            assert(readings[y] != readings[x]);
            assert(readings.contains(readings[y]));
            let j = choose|j: int| 0 <= j < entries.len() && entries[j] == readings[y];
            if j < i {
                assert(key_lt(keys[j], keys[i]));
            } else if i < j {
                assert(key_lt(keys[i], keys[j]));
            }
        }
        lemma_lone_reading(readings, x);
        assert(means[i].key() == k);
        assert(hour_means(readings)[i] == hour_mean(readings, k));
    }
    assert(hour_means(readings) =~= means);
}

/// Where everything that is sealed is written already, nothing is handed out.
proof fn lemma_seal_nothing(entries: Seq<EntryView>, written: Set<HourKey>, edge: int)
    requires
        forall|i: int|
            0 <= i < entries.len() && is_sealed(#[trigger] entries[i], edge) ==> written.contains(
                row_key(entries[i]),
            ),
    ensures
        seal(entries, written, edge) == (Seq::<EntryView>::empty(), written),
    decreases entries.len(),
{
    if entries.len() > 0 {
        let rest = entries.drop_last();
        assert forall|i: int|
            0 <= i < rest.len() && is_sealed(#[trigger] rest[i], edge) implies written.contains(
            row_key(rest[i]),
        ) by {
            assert(rest[i] == entries[i]);
        }
        lemma_seal_nothing(rest, written, edge);
        assert(entries[entries.len() - 1] == entries.last());
    }
}

/// Compacting a compacted log once more, at the same second and in the same zone, changes
/// nothing and hands out nothing: averages are not averaged into something else. This holds
/// unless an averaged hour starts so early that it is no longer retained.
pub proof fn law_compaction_settles(
    log: Seq<EntryView>,
    written: Set<HourKey>,
    now: int,
    stamps: Seq<Option<StampView>>,
    new_log: Seq<EntryView>,
    new_written: Set<HourKey>,
    rows: Seq<EntryView>,
    newer_log: Seq<EntryView>,
    newer_written: Set<HourKey>,
    newer_rows: Seq<EntryView>,
)
    requires
        faithful(hour_means(older_readings(log, now)), stamps),
        forall|k: HourKey|
            hour_keys(older_readings(log, now)).contains(k) ==> #[trigger] k.0 > now - RETAIN_SECS,
        compaction(log, written, now, stamps, new_log, new_written, rows),
        compaction(new_log, new_written, now, stamps, newer_log, newer_written, newer_rows),
    ensures
        newer_log == new_log,
        newer_written == new_written,
        newer_rows == Seq::<EntryView>::empty(),
{
    let older = |e: EntryView| is_older(e, now);
    let event = |e: EntryView| is_event(e, now);
    let raw = |e: EntryView| is_raw(e, now);
    let readings = older_readings(log, now);
    let means = hour_means(readings);
    let keys = hour_keys(readings);
    let a = averages(log, now, stamps);
    let b = events(log, now);
    let c = raw_readings(log, now);
    let all = a + b + c;

    // Every average is an older reading, under its own key.
    law_one_mean_per_hour(readings);
    assert(means.take(means.len() as int) =~= means);
    lemma_faithful_entries(means, stamps, means.len() as int);
    assert forall|i: int| 0 <= i < a.len() implies {
        let e = #[trigger] a[i];
        &&& is_older(e, now)
        &&& hour_key(e) == keys[i]
        &&& e.sum() / e.count() == means[i].mean
        &&& tally_of(e.sum(), e.count()) == means[i].tally
    } by {
        assert(a.contains(a[i]));
        let r = lemma_average_origin(log, now, stamps, a[i]);
        assert(a[i] == mean_entry(means[i], stamps[i]->0));
        assert(means[i].key() == keys[i]);
        assert(keys.contains(keys[i]));
        assert(keys[i].0 > now - RETAIN_SECS);
        lemma_hour_start(seconds_of(r));
        lemma_mean_entry(readings, keys[i], stamps[i]->0);
    }
    assert forall|i: int| 0 <= i < b.len() implies is_event(#[trigger] b[i], now) by {
        log.lemma_filter_pred(event, i);
    }
    assert forall|i: int| 0 <= i < c.len() implies is_raw(#[trigger] c[i], now) by {
        log.lemma_filter_pred(raw, i);
    }

    // Sorting mixes the three parts, filtering takes them apart again.
    Seq::filter_distributes_over_add(a + b, c, older);
    Seq::filter_distributes_over_add(a, b, older);
    Seq::filter_distributes_over_add(a + b, c, event);
    Seq::filter_distributes_over_add(a, b, event);
    Seq::filter_distributes_over_add(a + b, c, raw);
    Seq::filter_distributes_over_add(a, b, raw);
    lemma_filter_all(a, older);
    lemma_filter_none(b, older);
    lemma_filter_none(c, older);
    lemma_filter_none(a, event);
    lemma_filter_all(b, event);
    lemma_filter_none(c, event);
    lemma_filter_none(a, raw);
    lemma_filter_none(b, raw);
    lemma_filter_all(c, raw);
    assert(all.filter(older) =~= a);
    assert(all.filter(event) =~= b);
    assert(all.filter(raw) =~= c);

    // The averages are averaged to themselves.
    let again = older_readings(new_log, now);
    assert(again.to_multiset() == a.to_multiset()) by {
        law_sort_permutes(all, new_log);
        assert forall|e: EntryView|
            #[trigger] again.to_multiset().count(e) == a.to_multiset().count(e) by {
            lemma_filter_count(new_log, older, e);
            lemma_filter_count(all, older, e);
        }
        assert(again.to_multiset() =~= a.to_multiset());
    }
    lemma_means_of_means(means, keys, a, again);
    assert(averages(new_log, now, stamps) == a);

    // So the log to be sorted has the same entries under each stamp.
    let all2 = a + events(new_log, now) + raw_readings(new_log, now);
    assert forall|t: Seq<char>| #[trigger] stamped(all2, t) == stamped(all, t) by {
        lemma_stamped_add(a + events(new_log, now), raw_readings(new_log, now), t);
        lemma_stamped_add(a, events(new_log, now), t);
        lemma_stamped_add(a + b, c, t);
        lemma_stamped_add(a, b, t);
        lemma_filter_sorted(all, new_log, event, t);
        lemma_filter_sorted(all, new_log, raw, t);
    }
    assert(stable_sort_of(all, newer_log)) by {
        assert forall|t: Seq<char>| #[trigger] stamped(newer_log, t) == stamped(all, t) by {
            assert(stamped(all2, t) == stamped(all, t));
        }
    }
    law_sort_is_unique(all, newer_log, new_log);

    // And everything sealed was handed out the first time.
    law_sealing(a, written, seal_edge(now));
    lemma_seal_nothing(a, new_written, seal_edge(now));
}

} // verus!
