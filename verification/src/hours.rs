//! Hourly averages of moisture readings.

use vstd::prelude::*;

use crate::config::{RAW_WINDOW_SECS, RETAIN_SECS};
use crate::types::{dated_view, DatedEntry, Depth, EntryView, Message, Tally};
use crate::written::HourKey;

verus! {

/// The second that an entry's stamp names.
pub open spec fn seconds_of(e: EntryView) -> i64
    recommends
        e.seconds() is Some,
{
    e.seconds()->0
}

/// Entries whose stamp can be read and is less than the retention time old.
pub open spec fn is_retained(e: EntryView, now: int) -> bool {
    e.seconds() is Some && seconds_of(e) > now - RETAIN_SECS
}

/// Retained readings that are too old for the raw window.
pub open spec fn is_older(e: EntryView, now: int) -> bool {
    is_retained(e, now) && e.is_moisture() && seconds_of(e) < now - RAW_WINDOW_SECS
}

/// The readings that are to be averaged, in order.
pub open spec fn older_readings(log: Seq<EntryView>, now: int) -> Seq<EntryView> {
    log.filter(|e: EntryView| is_older(e, now))
}

/// The start of the hour that `t` lies in. The earliest seconds, whose hour starts before
/// any that can be named, count from the first of them.
pub open spec fn hour_start(t: i64) -> i64 {
    let start = t as int / 3600 * 3600;
    if start >= i64::MIN {
        start as i64
    } else {
        i64::MIN
    }
}

/// The average that a reading goes into.
pub open spec fn hour_key(e: EntryView) -> HourKey {
    (hour_start(seconds_of(e)), e.is_deep())
}

/// The order of averages: by hour, the shallow sensor first.
pub open spec fn key_lt(a: HourKey, b: HourKey) -> bool {
    a.0 < b.0 || (a.0 == b.0 && !a.1 && b.1)
}

/// Adds a key to an ascending run of keys, unless it is there.
pub open spec fn insert_key(keys: Seq<HourKey>, k: HourKey) -> Seq<HourKey>
    decreases keys.len(),
{
    if keys.len() == 0 || key_lt(keys.last(), k) {
        keys.push(k)
    } else if keys.last() == k {
        keys
    } else {
        insert_key(keys.drop_last(), k).push(keys.last())
    }
}

/// The keys of a run of readings, ascending, each of them once.
pub open spec fn hour_keys(readings: Seq<EntryView>) -> Seq<HourKey>
    decreases readings.len(),
{
    if readings.len() == 0 {
        Seq::empty()
    } else {
        insert_key(hour_keys(readings.drop_last()), hour_key(readings.last()))
    }
}

/// The sum of the readings that go into the average `k`. An average that was made before
/// stands for the readings that it was made of.
pub open spec fn hour_sum(readings: Seq<EntryView>, k: HourKey) -> nat
    decreases readings.len(),
{
    if readings.len() == 0 {
        0
    } else {
        hour_sum(readings.drop_last(), k) + if hour_key(readings.last()) == k {
            readings.last().sum()
        } else {
            0
        }
    }
}

/// The number of readings that go into the average `k`.
pub open spec fn hour_count(readings: Seq<EntryView>, k: HourKey) -> nat
    decreases readings.len(),
{
    if readings.len() == 0 {
        0
    } else {
        hour_count(readings.drop_last(), k) + if hour_key(readings.last()) == k {
            readings.last().count()
        } else {
            0
        }
    }
}

/// One hour's average of one sensor, rounded down.
#[derive(Debug, Clone, Copy, PartialEq, Eq, Structural)]
pub struct HourMean {
    pub hour: i64,
    pub deep: bool,
    pub mean: u16,
    /// The readings that went into it
    pub tally: Tally,
}

impl HourMean {
    pub open spec fn key(self) -> HourKey {
        (self.hour, self.deep)
    }
}

/// A sum and a number of readings that fit in 64 bits each.
pub open spec fn tally_fits(sum: nat, count: nat) -> bool {
    sum <= u64::MAX && count <= u64::MAX
}

/// A sum and a number of readings. Where they do not fit, the mean is taken for one reading.
pub open spec fn tally_of(sum: nat, count: nat) -> Tally {
    if tally_fits(sum, count) {
        Tally { sum: sum as u64, count: count as u64 }
    } else {
        Tally { sum: (sum / count) as u64, count: 1 }
    }
}

/// The average `k` of a run of readings.
pub open spec fn hour_mean(readings: Seq<EntryView>, k: HourKey) -> HourMean {
    HourMean {
        hour: k.0,
        deep: k.1,
        mean: (hour_sum(readings, k) / hour_count(readings, k)) as u16,
        tally: tally_of(hour_sum(readings, k), hour_count(readings, k)),
    }
}

/// All averages of a run of readings, ascending by key.
pub open spec fn hour_means(readings: Seq<EntryView>) -> Seq<HourMean> {
    hour_keys(readings).map_values(|k: HourKey| hour_mean(readings, k))
}

pub open spec fn ascending(keys: Seq<HourKey>) -> bool {
    forall|i: int, j: int|
        0 <= i < j < keys.len() ==> key_lt(#[trigger] keys[i], #[trigger] keys[j])
}

/// Where an ascending run of keys has a place for `k`, that is where it is inserted.
proof fn lemma_insert_key(keys: Seq<HourKey>, k: HourKey, p: int)
    requires
        0 <= p <= keys.len(),
        forall|i: int| p <= i < keys.len() ==> key_lt(k, #[trigger] keys[i]),
        p > 0 ==> key_lt(keys[p - 1], k) || keys[p - 1] == k,
    ensures
        insert_key(keys, k) == if p > 0 && keys[p - 1] == k {
            keys
        } else {
            keys.insert(p, k)
        },
    decreases keys.len(),
{
    if p == keys.len() {
        if p == 0 || key_lt(keys.last(), k) {
            assert(keys.insert(p, k) =~= keys.push(k));
        }
    } else {
        let rest = keys.drop_last();
        assert(key_lt(k, keys[keys.len() - 1]));
        lemma_insert_key(rest, k, p);
        if p > 0 && keys[p - 1] == k {
            assert(rest.push(keys.last()) =~= keys);
        } else {
            assert(rest.insert(p, k).push(keys.last()) =~= keys.insert(p, k));
        }
    }
}

/// Inserting a key keeps the run ascending and adds that key only.
proof fn lemma_insert_ascending(keys: Seq<HourKey>, k: HourKey)
    requires
        ascending(keys),
    ensures
        ascending(insert_key(keys, k)),
        forall|x: HourKey| #[trigger]
            insert_key(keys, k).contains(x) <==> keys.contains(x) || x == k,
    decreases keys.len(),
{
    let new = insert_key(keys, k);
    if keys.len() == 0 || key_lt(keys.last(), k) {
        assert forall|x: HourKey| #[trigger] new.contains(x) <==> keys.contains(x) || x == k by {
            if keys.contains(x) {
                let i = choose|i: int| 0 <= i < keys.len() && keys[i] == x;
                assert(new[i] == x);
            }
            assert(new[keys.len() as int] == k);
        }
        assert forall|i: int, j: int| 0 <= i < j < new.len() implies key_lt(
            #[trigger] new[i],
            #[trigger] new[j],
        ) by {
            if j == keys.len() && i < keys.len() - 1 {
                assert(key_lt(keys[i], keys[keys.len() - 1]));
            }
        }
    } else if keys.last() == k {
        assert(keys[keys.len() - 1] == k);
    } else {
        let rest = keys.drop_last();
        lemma_insert_ascending(rest, k);
        let part = insert_key(rest, k);
        assert forall|x: HourKey| #[trigger] new.contains(x) <==> keys.contains(x) || x == k by {
            if new.contains(x) {
                let i = choose|i: int| 0 <= i < new.len() && new[i] == x;
                if i < part.len() {
                    assert(part[i] == x);
                    assert(part.contains(x));
                    if rest.contains(x) {
                        let j = choose|j: int| 0 <= j < rest.len() && rest[j] == x;
                        assert(keys[j] == x);
                    }
                } else {
                    assert(keys[keys.len() - 1] == x);
                }
            }
            if keys.contains(x) || x == k {
                if x == keys.last() {
                    assert(new[part.len() as int] == x);
                } else {
                    if keys.contains(x) {
                        let j = choose|j: int| 0 <= j < keys.len() && keys[j] == x;
                        assert(rest[j] == x);
                    }
                    assert(part.contains(x));
                    let i = choose|i: int| 0 <= i < part.len() && part[i] == x;
                    assert(new[i] == x);
                }
            }
        }
        assert forall|i: int, j: int| 0 <= i < j < new.len() implies key_lt(
            #[trigger] new[i],
            #[trigger] new[j],
        ) by {
            if j == part.len() {
                assert(part[i] == new[i]);
                assert(part.contains(part[i]));
                if part[i] != k {
                    let x = choose|x: int| 0 <= x < rest.len() && rest[x] == part[i];
                    assert(key_lt(keys[x], keys[keys.len() - 1]));
                }
            } else {
                assert(key_lt(part[i], part[j]));
            }
        }
    }
}

/// The averages come in ascending order, one for each hour and sensor of which there is a
/// reading, and none beside.
pub proof fn law_one_mean_per_hour(readings: Seq<EntryView>)
    ensures
        ascending(hour_keys(readings)),
        forall|k: HourKey| #[trigger]
            hour_keys(readings).contains(k) <==> exists|i: int|
                0 <= i < readings.len() && hour_key(#[trigger] readings[i]) == k,
        forall|i: int|
            0 <= i < hour_means(readings).len() ==> (#[trigger] hour_means(readings)[i]).key()
                == hour_keys(readings)[i],
    decreases readings.len(),
{
    if readings.len() > 0 {
        let rest = readings.drop_last();
        law_one_mean_per_hour(rest);
        lemma_insert_ascending(hour_keys(rest), hour_key(readings.last()));
        assert forall|k: HourKey| #[trigger]
            hour_keys(readings).contains(k) <==> exists|i: int|
                0 <= i < readings.len() && hour_key(#[trigger] readings[i]) == k by {
            if hour_keys(rest).contains(k) {
                let i = choose|i: int| 0 <= i < rest.len() && hour_key(#[trigger] rest[i]) == k;
                assert(hour_key(readings[i]) == k);
            }
            assert(hour_key(readings[readings.len() - 1]) == hour_key(readings.last()));
            if exists|i: int| 0 <= i < readings.len() && hour_key(#[trigger] readings[i]) == k {
                let i = choose|i: int|
                    0 <= i < readings.len() && hour_key(#[trigger] readings[i]) == k;
                if i < rest.len() {
                    assert(hour_key(rest[i]) == k);
                }
            }
        }
    }
}

/// An entry stands for at least one reading, and its value is their mean.
proof fn lemma_entry_tally(e: EntryView)
    ensures
        e.count() > 0,
        e.reading() * e.count() <= e.sum() < (e.reading() + 1) * e.count(),
        e.sum() <= u64::MAX,
        e.count() <= u64::MAX,
{
    if e.is_tallied() {
        let t = e.tally->0;
        vstd::arithmetic::div_mod::lemma_fundamental_div_mod(t.sum as int, t.count as int);
        let r = e.reading() as int;
        let c = t.count as int;
        assert(c * r == r * c && (r + 1) * c == r * c + c) by (nonlinear_arith);
    }
}

/// A key that some reading has is counted.
proof fn lemma_count_positive(readings: Seq<EntryView>, k: HourKey, i: int)
    requires
        0 <= i < readings.len(),
        hour_key(readings[i]) == k,
    ensures
        hour_count(readings, k) > 0,
    decreases readings.len(),
{
    lemma_entry_tally(readings.last());
    if i < readings.len() - 1 {
        lemma_count_positive(readings.drop_last(), k, i);
    }
}

/// An average exists exactly if some reading is counted for it.
pub proof fn lemma_key_counted(readings: Seq<EntryView>, k: HourKey)
    ensures
        hour_keys(readings).contains(k) <==> hour_count(readings, k) > 0,
{
    law_one_mean_per_hour(readings);
    if hour_keys(readings).contains(k) {
        let i = choose|i: int| 0 <= i < readings.len() && hour_key(#[trigger] readings[i]) == k;
        lemma_count_positive(readings, k, i);
    } else {
        lemma_absent(readings, k);
    }
}

proof fn lemma_sum_bounds(readings: Seq<EntryView>, k: HourKey, low: nat, high: nat)
    requires
        forall|i: int|
            0 <= i < readings.len() && hour_key(#[trigger] readings[i]) == k ==> low
                <= readings[i].reading() <= high,
    ensures
        low * hour_count(readings, k) <= hour_sum(readings, k) <= (high + 1) * hour_count(
            readings,
            k,
        ),
        hour_count(readings, k) > 0 ==> hour_sum(readings, k) < (high + 1) * hour_count(
            readings,
            k,
        ),
        hour_sum(readings, k) <= readings.len() * u64::MAX,
        hour_count(readings, k) <= readings.len() * u64::MAX,
    decreases readings.len(),
{
    if readings.len() > 0 {
        let rest = readings.drop_last();
        assert forall|i: int| 0 <= i < rest.len() && hour_key(#[trigger] rest[i]) == k implies low
            <= rest[i].reading() <= high by {
            assert(rest[i] == readings[i]);
        }
        lemma_sum_bounds(rest, k, low, high);
        let e = readings[readings.len() - 1];
        lemma_entry_tally(e);
        let n = hour_count(rest, k) as int;
        let c = e.count() as int;
        let r = e.reading() as int;
        assert((rest.len() + 1) * u64::MAX == rest.len() * u64::MAX + u64::MAX)
            by (nonlinear_arith);
        if hour_key(e) == k {
            assert(low * (n + c) == low * n + low * c) by (nonlinear_arith);
            assert((high + 1) * (n + c) == (high + 1) * n + (high + 1) * c) by (nonlinear_arith);
            assert(low * c <= r * c && (r + 1) * c <= (high + 1) * c) by (nonlinear_arith)
                requires
                    low <= r <= high,
                    c > 0,
            ;
        }
    } else {
        assert(low * 0 == 0 && (high + 1) * 0 == 0) by (nonlinear_arith);
    }
}

proof fn lemma_quotient_bounds(sum: int, count: int, low: int, high: int)
    requires
        count > 0,
        low * count <= sum < (high + 1) * count,
    ensures
        low <= sum / count <= high,
{
    assert(low <= sum / count <= high) by (nonlinear_arith)
        requires
            count > 0,
            low * count <= sum < (high + 1) * count,
    ;
}

/// An average lies between the least and the greatest reading that go into it.
pub proof fn law_mean_within_readings(readings: Seq<EntryView>, k: HourKey, low: u16, high: u16)
    requires
        hour_keys(readings).contains(k),
        forall|i: int|
            0 <= i < readings.len() && hour_key(#[trigger] readings[i]) == k ==> low
                <= readings[i].reading() <= high,
    ensures
        low <= hour_mean(readings, k).mean <= high,
        hour_mean(readings, k).mean == hour_sum(readings, k) / hour_count(readings, k),
{
    lemma_key_counted(readings, k);
    lemma_sum_bounds(readings, k, low as nat, high as nat);
    lemma_quotient_bounds(
        hour_sum(readings, k) as int,
        hour_count(readings, k) as int,
        low as int,
        high as int,
    );
}

/// The running sum of one hour of one sensor.
struct Bucket {
    hour: i64,
    deep: bool,
    sum: u128,
    count: u128,
}

spec fn bucket_keys(buckets: Seq<Bucket>) -> Seq<HourKey> {
    buckets.map_values(|b: Bucket| (b.hour, b.deep))
}

/// The buckets hold the sums of the readings.
spec fn tallied(buckets: Seq<Bucket>, readings: Seq<EntryView>) -> bool {
    &&& bucket_keys(buckets) == hour_keys(readings)
    &&& forall|i: int|
        0 <= i < buckets.len() ==> {
            let k = ((#[trigger] buckets[i]).hour, buckets[i].deep);
            &&& buckets[i].sum == hour_sum(readings, k)
            &&& buckets[i].count == hour_count(readings, k)
        }
}

/// Adds one more reading `e` to the tally of `readings`.
fn tally(
    buckets: &mut Vec<Bucket>,
    hour: i64,
    deep: bool,
    part: Tally,
    readings: Ghost<Seq<EntryView>>,
    e: Ghost<EntryView>,
)
    requires
        tallied(old(buckets)@, readings@),
        readings@.len() < u64::MAX,
        hour_key(e@) == (hour, deep),
        e@.sum() == part.sum,
        e@.count() == part.count,
    ensures
        tallied(final(buckets)@, readings@.push(e@)),
{
    let ghost k: HourKey = (hour, deep);
    let ghost keys = hour_keys(readings@);
    let ghost new = readings@.push(e@);
    let ghost start = buckets@;
    proof {
        law_one_mean_per_hour(readings@);
        assert(new.drop_last() =~= readings@);
        assert(forall|i: int|
            0 <= i < keys.len() ==> #[trigger] keys[i] == (start[i].hour, start[i].deep));
    }
    let mut p: usize = buckets.len();
    while p > 0 && (hour < buckets[p - 1].hour || (hour == buckets[p - 1].hour && !deep
        && buckets[p - 1].deep))
        invariant
            p <= buckets@.len(),
            buckets@ == start,
            k == (hour, deep),
            bucket_keys(start) == keys,
            forall|i: int| p <= i < keys.len() ==> key_lt(k, #[trigger] keys[i]),
        decreases p,
    {
        assert(keys[p - 1] == (start[p - 1].hour, start[p - 1].deep));
        p = p - 1;
    }
    proof {
        if p > 0 {
            assert(keys[p - 1] == (start[p - 1].hour, start[p - 1].deep));
        }
        lemma_insert_key(keys, k, p as int);
        lemma_sum_bounds(readings@, k, 0, 65535);
        assert(readings@.len() * u64::MAX + u64::MAX <= u128::MAX) by (nonlinear_arith)
            requires
                readings@.len() < u64::MAX,
        ;
    }
    if p > 0 && buckets[p - 1].hour == hour && buckets[p - 1].deep == deep {
        let sum = buckets[p - 1].sum + part.sum as u128;
        let count = buckets[p - 1].count + part.count as u128;
        buckets.set(p - 1, Bucket { hour, deep, sum, count });
        proof {
            assert(bucket_keys(buckets@) =~= keys);
            assert forall|i: int| 0 <= i < buckets@.len() implies {
                let kk = ((#[trigger] buckets@[i]).hour, buckets@[i].deep);
                &&& buckets@[i].sum == hour_sum(new, kk)
                &&& buckets@[i].count == hour_count(new, kk)
            } by {
                if i != p - 1 {
                    assert(buckets@[i] == start[i]);
                    assert(keys[i] != keys[p - 1]) by {
                        if i < p - 1 {
                            assert(key_lt(keys[i], keys[p - 1]));
                        } else {
                            assert(key_lt(keys[p - 1], keys[i]));
                        }
                    }
                }
            }
        }
    } else {
        proof {
            assert(!keys.contains(k)) by {
                if keys.contains(k) {
                    let i = choose|i: int| 0 <= i < keys.len() && keys[i] == k;
                    if i < p - 1 {
                        assert(key_lt(keys[i], keys[p - 1]));
                    }
                }
            }
            lemma_absent(readings@, k);
        }
        buckets.insert(
            p,
            Bucket { hour, deep, sum: part.sum as u128, count: part.count as u128 },
        );
        proof {
            assert(bucket_keys(buckets@) =~= keys.insert(p as int, k));
            assert forall|i: int| 0 <= i < buckets@.len() implies {
                let kk = ((#[trigger] buckets@[i]).hour, buckets@[i].deep);
                &&& buckets@[i].sum == hour_sum(new, kk)
                &&& buckets@[i].count == hour_count(new, kk)
            } by {
                if i != p {
                    let j = if i < p { i } else { i - 1 };
                    assert(buckets@[i] == start[j]);
                    assert(keys.contains(keys[j]));
                }
            }
        }
    }
}

/// A key that no reading has sums up to nothing.
pub proof fn lemma_absent(readings: Seq<EntryView>, k: HourKey)
    requires
        !hour_keys(readings).contains(k),
    ensures
        hour_sum(readings, k) == 0,
        hour_count(readings, k) == 0,
{
    law_one_mean_per_hour(readings);
    assert forall|i: int| 0 <= i < readings.len() implies hour_key(#[trigger] readings[i]) != k by {
    }
    lemma_no_reading(readings, k);
}

/// Readings of which none goes into the average `k`.
pub proof fn lemma_no_reading(readings: Seq<EntryView>, k: HourKey)
    requires
        forall|i: int| 0 <= i < readings.len() ==> hour_key(#[trigger] readings[i]) != k,
    ensures
        hour_sum(readings, k) == 0,
        hour_count(readings, k) == 0,
    decreases readings.len(),
{
    if readings.len() > 0 {
        let rest = readings.drop_last();
        assert forall|i: int| 0 <= i < rest.len() implies hour_key(#[trigger] rest[i]) != k by {
            assert(rest[i] == readings[i]);
        }
        lemma_no_reading(rest, k);
        assert(hour_key(readings[readings.len() - 1]) != k);
    }
}

/// Filtering one entry more.
pub proof fn lemma_filter_step(log: Seq<EntryView>, pred: spec_fn(EntryView) -> bool, i: int)
    requires
        0 <= i < log.len(),
    ensures
        log.take(i + 1).filter(pred) == if pred(log[i]) {
            log.take(i).filter(pred).push(log[i])
        } else {
            log.take(i).filter(pred)
        },
{
    reveal(Seq::filter);
    assert(log.take(i + 1).drop_last() =~= log.take(i));
    assert(log.take(i + 1).last() == log[i]);
}

/// The start of the hour that `t` lies in.
pub fn floor_to_hour(t: i64) -> (hour: i64)
    ensures
        hour == hour_start(t),
{
    let since: i128 = if t >= 0 {
        t as i128 % 3600
    } else {
        3599 - (-(t as i128) - 1) % 3600
    };
    let start: i128 = t as i128 - since;
    if start >= i64::MIN as i128 {
        start as i64
    } else {
        i64::MIN
    }
}

/// The readings that an entry with the value `adc_raw` stands for: those of its tally, if
/// that has the entry's value as its mean, else the one.
fn part_of(tally: &Option<Tally>, adc_raw: u16, e: Ghost<EntryView>) -> (part: Tally)
    requires
        e@.tally == *tally,
        e@.reading() == adc_raw,
    ensures
        e@.sum() == part.sum,
        e@.count() == part.count,
{
    match tally {
        Some(t) => {
            if t.count > 0 && t.sum / t.count == adc_raw as u64 {
                *t
            } else {
                Tally { sum: adc_raw as u64, count: 1 }
            }
        },
        None => Tally { sum: adc_raw as u64, count: 1 },
    }
}

/// The hourly averages of the readings that are too old for the raw window.
pub fn hourly_means(log: &Vec<DatedEntry>, now: i64) -> (means: Vec<HourMean>)
    ensures
        means@ == hour_means(older_readings(dated_view(log@), now as int)),
{
    let ghost view = dated_view(log@);
    let ghost pred = |e: EntryView| is_older(e, now as int);
    let mut buckets: Vec<Bucket> = Vec::new();
    let mut i: usize = 0;
    proof {
        reveal(Seq::filter);
        assert(bucket_keys(buckets@) =~= Seq::<HourKey>::empty());
        assert(view.take(0).filter(pred) =~= Seq::<EntryView>::empty());
    }
    while i < log.len()
        invariant
            i <= log@.len(),
            view == dated_view(log@),
            pred == |e: EntryView| is_older(e, now as int),
            view.take(i as int).filter(pred).len() <= i,
            tallied(buckets@, view.take(i as int).filter(pred)),
        decreases log@.len() - i,
    {
        let entry = &log[i];
        let ghost done = view.take(i as int).filter(pred);
        proof {
            lemma_filter_step(view, pred, i as int);
            assert(view[i as int] == entry@);
        }
        match (entry.instant, &entry.entry.message) {
            (Some((t, _)), Message::Moisture { adc_raw, depth }) => {
                if t as i128 > now as i128 - RETAIN_SECS as i128 && (t as i128) < now as i128
                    - RAW_WINDOW_SECS as i128 {
                    let deep = *depth == Depth::Deep;
                    let hour = floor_to_hour(t);
                    let part = part_of(&entry.entry.tally, *adc_raw, Ghost(entry@));
                    tally(&mut buckets, hour, deep, part, Ghost(done), Ghost(entry@));
                }
            },
            _ => {},
        }
        i = i + 1;
    }
    let ghost readings = view.filter(pred);
    proof {
        assert(view.take(i as int) =~= view);
    }
    let mut means: Vec<HourMean> = Vec::new();
    let mut j: usize = 0;
    while j < buckets.len()
        invariant
            j <= buckets@.len(),
            tallied(buckets@, readings),
            means@ == hour_means(readings).take(j as int),
            hour_means(readings).len() == buckets@.len(),
        decreases buckets@.len() - j,
    {
        let b = &buckets[j];
        let ghost k: HourKey = (b.hour, b.deep);
        proof {
            assert(bucket_keys(buckets@)[j as int] == k);
            law_one_mean_per_hour(readings);
            assert(hour_keys(readings).contains(hour_keys(readings)[j as int]));
            lemma_key_counted(readings, k);
            lemma_sum_bounds(readings, k, 0, 65535);
            lemma_quotient_bounds(b.sum as int, b.count as int, 0, 65535);
        }
        let mean = (b.sum / b.count) as u16;
        let tally = if b.sum <= u64::MAX as u128 && b.count <= u64::MAX as u128 {
            Tally { sum: b.sum as u64, count: b.count as u64 }
        } else {
            Tally { sum: mean as u64, count: 1 }
        };
        means.push(HourMean { hour: b.hour, deep: b.deep, mean, tally });
        assert(means@ =~= hour_means(readings).take(j + 1));
        j = j + 1;
    }
    assert(hour_means(readings).take(j as int) =~= hour_means(readings));
    means
}

} // verus!
