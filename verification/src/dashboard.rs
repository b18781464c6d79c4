//! What the dashboard shows.

use vstd::prelude::*;
use vstd::string::*;

use crate::clock::{
    instant_of, law_stamps_are_read_back, local_rfc3339, local_stamp_of, minute_stamp,
    nanos_between, now_instant, quotient, readable_stamp, rendered_at, rfc3339_text,
    seconds_between, valid_instant, FIRST_SECOND, LAST_SECOND,
};
use crate::config::{PlantConfig, LIVENESS_SECS};
use crate::text::{fill_in, opt_text, replace_all};
use crate::types::{
    date_log, dated_view, log_view, valid_instants, ApiData, DatedEntry, EntryView, LogEntry,
    Message,
};
use crate::watering::{
    auto_water_at, due_second, last_water_reference, law_countdown_matches_trigger,
};

verus! {

/// The latest moisture reading of a log.
pub open spec fn last_moisture(log: Seq<EntryView>) -> Option<EntryView>
    decreases log.len(),
{
    if log.len() == 0 {
        None
    } else if log.last().is_moisture() {
        Some(log.last())
    } else {
        last_moisture(log.drop_last())
    }
}

/// How many whole seconds the instant `(s2, n2)` is away from the instant `(s1, n1)`, either
/// way.
pub open spec fn seconds_apart(s1: i64, n1: u32, s2: i64, n2: u32) -> int {
    let seconds = quotient(nanos_between(s1, n1, s2, n2), 1_000_000_000);
    if seconds >= 0 {
        seconds
    } else {
        -seconds
    }
}

/// Whether the node counts as online at the given instant: its latest reading has a stamp
/// that can be read and is less than the liveness limit away.
pub open spec fn is_online(log: Seq<EntryView>, seconds: i64, nanos: u32) -> bool {
    match last_moisture(log) {
        Some(e) => match e.instant {
            Some((s, n)) => seconds_apart(seconds, nanos, s, n) < LIVENESS_SECS,
            None => false,
        },
        None => false,
    }
}

/// Decides whether the node counts as online at the given instant, according to a dated log.
pub fn online_dated(log: &Vec<DatedEntry>, seconds: i64, nanos: u32) -> (online: bool)
    requires
        valid_instant(seconds, nanos),
        valid_instants(log@),
    ensures
        online == is_online(dated_view(log@), seconds, nanos),
{
    let ghost view = dated_view(log@);
    let mut i: usize = log.len();
    assert(view.take(i as int) =~= view);
    while i > 0
        invariant
            i <= log@.len(),
            valid_instant(seconds, nanos),
            valid_instants(log@),
            view == dated_view(log@),
            last_moisture(view) == last_moisture(view.take(i as int)),
        decreases i,
    {
        let one = &log[i - 1];
        proof {
            assert(view.take(i as int).last() == one@);
            assert(view.take(i as int).drop_last() =~= view.take(i - 1));
        }
        if let Message::Moisture { .. } = &one.entry.message {
            return match one.instant {
                Some((s, n)) => {
                    let apart: i128 = seconds_between(seconds, nanos, s, n) as i128;
                    (if apart >= 0 { apart } else { -apart }) < LIVENESS_SECS as i128
                },
                None => false,
            };
        }
        i = i - 1;
    }
    false
}

/// Decides whether the node counts as online at the given instant.
pub fn online_at(log: &Vec<LogEntry>, seconds: i64, nanos: u32) -> (online: bool)
    requires
        valid_instant(seconds, nanos),
    ensures
        online == is_online(log_view(log@), seconds, nanos),
{
    online_dated(&date_log(log), seconds, nanos)
}

/// The stamp of the second at which the plant is due for water; empty if no date names it.
pub open spec fn next_water_stamp(due: int, text: Seq<char>) -> bool {
    exists|stamp: Option<Seq<char>>|
        #[trigger] local_stamp_of(due, 0, stamp) && text == match stamp {
            Some(t) => t,
            None => Seq::empty(),
        }
}

/// The data behind the dashboard, at the given instant.
pub open spec fn api_data_at(
    data: ApiData,
    log: Seq<EntryView>,
    plant: PlantConfig,
    start_time: i64,
    now: (i64, u32),
) -> bool {
    &&& log_view(data.log@) == log
    &&& data.online == is_online(log, now.0, now.1)
    &&& next_water_stamp(due_second(log, start_time, plant), data.next_water_at@)
}

fn copy_log(log: &Vec<LogEntry>) -> (copy: Vec<LogEntry>)
    ensures
        log_view(copy@) == log_view(log@),
{
    let ghost view = log_view(log@);
    let mut copy: Vec<LogEntry> = Vec::new();
    let mut i: usize = 0;
    assert(log_view(copy@) =~= view.take(0));
    while i < log.len()
        invariant
            i <= log@.len(),
            view == log_view(log@),
            log_view(copy@) == view.take(i as int),
        decreases log@.len() - i,
    {
        let entry = log[i].clone();
        proof {
            assert(entry@ == view[i as int]);
            assert(log_view(copy@.push(entry)) =~= log_view(copy@).push(entry@));
            assert(view.take(i + 1) =~= view.take(i as int).push(entry@));
        }
        copy.push(entry);
        i = i + 1;
    }
    assert(view.take(i as int) =~= view);
    copy
}

/// The data behind the dashboard, from the rendered time of the next watering and the
/// online state.
pub fn api_data(log: &Vec<LogEntry>, online: bool, next_water_at: Option<String>) -> (data: ApiData)
    ensures
        log_view(data.log@) == log_view(log@),
        data.online == online,
        data.next_water_at@ == match opt_text(next_water_at) {
            Some(t) => t,
            None => Seq::empty(),
        },
{
    let next_water_at = match next_water_at {
        Some(stamp) => stamp,
        None => String::new(),
    };
    ApiData { log: copy_log(log), online, next_water_at }
}

/// Collects the data behind the dashboard at the given instant.
pub fn get_event_log_at(
    log: &Vec<LogEntry>,
    plant: &PlantConfig,
    start_time: i64,
    seconds: i64,
    nanos: u32,
) -> (data: ApiData)
    requires
        valid_instant(seconds, nanos),
    ensures
        api_data_at(data, log_view(log@), *plant, start_time, (seconds, nanos)),
{
    let due: i128 = last_water_reference(log, start_time) as i128
        + plant.auto_water_interval_secs as i128;
    let stamp = if i64::MIN as i128 <= due && due <= i64::MAX as i128 {
        local_rfc3339(due as i64, 0)
    } else {
        None
    };
    assert(local_stamp_of(due as int, 0, opt_text(stamp)));
    api_data(log, online_at(log, seconds, nanos), stamp)
}

/// Collects the data behind the dashboard at the current time.
pub fn get_event_log(log: &Vec<LogEntry>, plant: &PlantConfig, start_time: i64) -> (data: ApiData)
    ensures
        exists|now: (i64, u32)|
            0 <= now.0 <= LAST_SECOND && now.1 < 1_000_000_000 && #[trigger] api_data_at(
                data,
                log_view(log@),
                *plant,
                start_time,
                now,
            ),
{
    let (seconds, nanos) = now_instant();
    get_event_log_at(log, plant, start_time, seconds, nanos)
}

/// The dashboard page of a plant: the template with the plant's name filled in.
pub fn serve_dashboard(template: &str, plant: &PlantConfig) -> (page: String)
    ensures
        page@ == replace_all(template@, "{{PLANT}}"@, plant.display_name@),
{
    proof {
        reveal_strlit("{{PLANT}}");
    }
    fill_in(template, "{{PLANT}}", plant.display_name)
}

/// The response to a request for the plant's picture: the status, and the picture.
#[derive(Debug)]
pub struct ImageResponse {
    pub status: u16,
    pub body: Vec<u8>,
}

/// Answers a request for the plant's picture: with the file's bytes, or not found if the
/// file could not be read.
pub fn serve_plant_image(file: Option<Vec<u8>>) -> (response: ImageResponse)
    ensures
        match file {
            Some(bytes) => response.status == 200 && response.body == bytes,
            None => response.status == 404 && response.body@ == Seq::<u8>::empty(),
        },
{
    match file {
        Some(bytes) => ImageResponse { status: 200, body: bytes },
        None => ImageResponse { status: 404, body: Vec::new() },
    }
}

/// The countdown that is shown matches the actual trigger: if a date can name the due second,
/// the text is the stamp of that second in the machine's zone, and while a node is connected,
/// automatic watering starts at that very second. Read back, the stamp names the second, or
/// in a zone that is not a whole number of minutes from UTC one at most half a minute away.
pub proof fn law_countdown_names_the_trigger(
    data: ApiData,
    log: Seq<EntryView>,
    plant: PlantConfig,
    start_time: i64,
    now: (i64, u32),
)
    requires
        api_data_at(data, log, plant, start_time, now),
        FIRST_SECOND <= due_second(log, start_time, plant) <= LAST_SECOND,
    ensures
        ({
            let due = due_second(log, start_time, plant);
            let text = data.next_water_at@;
            &&& exists|offset: i32|
                text == #[trigger] rfc3339_text(due as i64, 0, offset) && -86_400 < offset
                    < 86_400
            &&& minute_stamp(due, 0, text) ==> instant_of(text) == Some((due as i64, 0u32))
            &&& readable_stamp(due, 0, text) ==> (instant_of(text) matches Some((t, _)) && -30
                <= t - due <= 30)
            &&& forall|t: i64|
                (#[trigger] auto_water_at(log, start_time, plant, t, true)) is Some <==> t >= due
        }),
{
    let due = due_second(log, start_time, plant);
    let text = data.next_water_at@;
    let stamp = choose|stamp: Option<Seq<char>>|
        #[trigger] local_stamp_of(due, 0, stamp) && text == match stamp {
            Some(t) => t,
            None => Seq::empty(),
        };
    assert(stamp == Some(text));
    law_stamps_are_read_back(due as i64, 0, text);
    let offset = choose|offset: i32| #[trigger] rendered_at(due, 0, offset, text);
    assert(text == rfc3339_text(due as i64, 0, offset));
    assert forall|t: i64| (#[trigger] auto_water_at(log, start_time, plant, t, true)) is Some
        <==> t >= due by {
        law_countdown_matches_trigger(log, start_time, plant, t);
    }
}

/// Away from leap seconds, a node is online exactly while its latest reading is less than
/// the liveness limit old, to the nanosecond.
pub proof fn law_online_within_liveness(
    log: Seq<EntryView>,
    e: EntryView,
    seconds: i64,
    nanos: u32,
    s: i64,
    n: u32,
)
    requires
        last_moisture(log) == Some(e),
        e.instant == Some((s, n)),
        nanos < 1_000_000_000,
        n < 1_000_000_000,
    ensures
        ({
            let age = (seconds - s) * 1_000_000_000 + nanos - n;
            let limit = LIVENESS_SECS * 1_000_000_000;
            is_online(log, seconds, nanos) <==> -limit < age < limit
        }),
{
}

/// Without a reading in the log, the node is offline.
pub proof fn law_offline_without_readings(log: Seq<EntryView>, seconds: i64, nanos: u32)
    requires
        forall|i: int| 0 <= i < log.len() ==> !(#[trigger] log[i]).is_moisture(),
    ensures
        !is_online(log, seconds, nanos),
    decreases log.len(),
{
    if log.len() > 0 {
        assert(!log[log.len() - 1].is_moisture());
        let rest = log.drop_last();
        assert forall|i: int| 0 <= i < rest.len() implies !(#[trigger] rest[i]).is_moisture() by {
            assert(!log[i].is_moisture());
        }
        law_offline_without_readings(rest, seconds, nanos);
    }
}

} // verus!
