//! When to water: the automatic schedule and commands from the dashboard.

use vstd::prelude::*;

use crate::clock::{now_instant, quotient, LAST_SECOND};
use crate::config::PlantConfig;
use crate::types::{
    date_log, dated_view, log_view, DatedEntry, EntryView, LogEntry, Message, WaterRequest,
};

verus! {

/// The latest pump event of a log.
pub open spec fn last_pump(log: Seq<EntryView>) -> Option<EntryView>
    decreases log.len(),
{
    if log.len() == 0 {
        None
    } else if log.last().is_pump() {
        Some(log.last())
    } else {
        last_pump(log.drop_last())
    }
}

/// The second from which the schedule counts: that of the latest pump event, or the start of
/// the server if there is none or its stamp cannot be read.
pub open spec fn water_reference(log: Seq<EntryView>, start_time: i64) -> i64 {
    match last_pump(log) {
        Some(e) => match e.seconds() {
            Some(t) => t,
            None => start_time,
        },
        None => start_time,
    }
}

/// The second at which the plant is due for water.
pub open spec fn due_second(log: Seq<EntryView>, start_time: i64, plant: PlantConfig) -> int {
    water_reference(log, start_time) + plant.auto_water_interval_secs
}

/// When the plant was last watered according to a dated log, in seconds since the epoch.
pub fn last_water_reference_dated(log: &Vec<DatedEntry>, start_time: i64) -> (reference: i64)
    ensures
        reference == water_reference(dated_view(log@), start_time),
{
    let ghost view = dated_view(log@);
    let mut i: usize = log.len();
    assert(view.take(i as int) =~= view);
    while i > 0
        invariant
            i <= log@.len(),
            view == dated_view(log@),
            last_pump(view) == last_pump(view.take(i as int)),
        decreases i,
    {
        let one = &log[i - 1];
        proof {
            assert(view.take(i as int).last() == one@);
            assert(view.take(i as int).drop_last() =~= view.take(i - 1));
        }
        if let Message::Pump { .. } = &one.entry.message {
            return match one.instant {
                Some((t, _)) => t,
                None => start_time,
            };
        }
        i = i - 1;
    }
    start_time
}

/// When the plant was last watered, in seconds since the epoch. Shared by the automatic
/// watering and the dashboard, so that the countdown shown matches the actual trigger.
pub fn last_water_reference(log: &Vec<LogEntry>, start_time: i64) -> (reference: i64)
    ensures
        reference == water_reference(log_view(log@), start_time),
{
    last_water_reference_dated(&date_log(log), start_time)
}

/// An automatic watering: how long the pump is to run, and the whole days since it last did.
#[derive(Debug, Clone, Copy, PartialEq, Eq, Structural)]
pub struct AutoWater {
    pub duration_s: u16,
    pub days: i64,
}

/// The watering that is due at the second `now`, counted from `reference`. There is one once
/// the interval has elapsed, while a node is connected to carry it out.
pub open spec fn auto_water_since(
    reference: i64,
    plant: PlantConfig,
    now: i64,
    connected: bool,
) -> Option<AutoWater> {
    let elapsed = now - reference;
    if elapsed >= plant.auto_water_interval_secs && connected {
        Some(
            AutoWater {
                duration_s: plant.auto_water_duration_s,
                days: quotient(elapsed, 86_400) as i64,
            },
        )
    } else {
        None
    }
}

/// The watering that is due at the second `now` according to a log.
pub open spec fn auto_water_at(
    log: Seq<EntryView>,
    start_time: i64,
    plant: PlantConfig,
    now: i64,
    connected: bool,
) -> Option<AutoWater> {
    auto_water_since(water_reference(log, start_time), plant, now, connected)
}

/// Decides at the second `now` whether to water, counted from `reference`.
pub fn check_auto_water_since(
    reference: i64,
    plant: &PlantConfig,
    now: i64,
    connected: bool,
) -> (order: Option<AutoWater>)
    ensures
        order == auto_water_since(reference, *plant, now, connected),
{
    let elapsed: i128 = now as i128 - reference as i128;
    if elapsed >= plant.auto_water_interval_secs as i128 && connected {
        let days: i128 = if elapsed >= 0 {
            elapsed / 86_400
        } else {
            -((-elapsed) / 86_400)
        };
        Some(AutoWater { duration_s: plant.auto_water_duration_s, days: days as i64 })
    } else {
        None
    }
}

/// Decides at the second `now` whether to water.
pub fn check_auto_water_at(
    log: &Vec<LogEntry>,
    start_time: i64,
    plant: &PlantConfig,
    now: i64,
    connected: bool,
) -> (order: Option<AutoWater>)
    ensures
        order == auto_water_at(log_view(log@), start_time, *plant, now, connected),
{
    check_auto_water_since(last_water_reference(log, start_time), plant, now, connected)
}

/// Decides at the current time whether to water.
pub fn check_auto_water(
    log: &Vec<LogEntry>,
    start_time: i64,
    plant: &PlantConfig,
    connected: bool,
) -> (order: Option<AutoWater>)
    ensures
        exists|now: i64|
            0 <= now <= LAST_SECOND && order == #[trigger] auto_water_at(
                log_view(log@),
                start_time,
                *plant,
                now,
                connected,
            ),
{
    let (now, _) = now_instant();
    check_auto_water_at(log, start_time, plant, now, connected)
}

/// The second at which the server starts, which stands in for a watering that has not been.
pub fn server_start() -> (start_time: i64)
    ensures
        0 <= start_time <= LAST_SECOND,
{
    now_instant().0
}

/// The answer to a water command from the dashboard: the status of the HTTP response, and
/// what is sent to the node.
#[derive(Debug, Clone, Copy, PartialEq, Eq, Structural)]
pub struct WaterReply {
    pub status: u16,
    pub send: Option<u16>,
}

/// Answers a water command. It is passed on while a node is connected, and refused as
/// unavailable otherwise.
pub fn post_water_command(body: &WaterRequest, connected: bool) -> (reply: WaterReply)
    ensures
        connected ==> reply == (WaterReply { status: 200, send: Some(body.duration_s) }),
        !connected ==> reply == (WaterReply { status: 503, send: None }),
{
    if connected {
        WaterReply { status: 200, send: Some(body.duration_s) }
    } else {
        WaterReply { status: 503, send: None }
    }
}

/// Automatic watering starts at the very second that the dashboard counts down to: while a
/// node is connected, there is an order exactly from the due second on.
pub proof fn law_countdown_matches_trigger(
    log: Seq<EntryView>,
    start_time: i64,
    plant: PlantConfig,
    now: i64,
)
    ensures
        auto_water_at(log, start_time, plant, now, true) is Some <==> now >= due_second(
            log,
            start_time,
            plant,
        ),
        auto_water_at(log, start_time, plant, now, false) is None,
{
}

/// A pump event at the end of the log sets the schedule back: the next watering is due one
/// interval after it, whatever came before.
pub proof fn law_pump_resets_schedule(
    log: Seq<EntryView>,
    pump: EntryView,
    start_time: i64,
    plant: PlantConfig,
)
    requires
        pump.is_pump(),
        pump.seconds() is Some,
    ensures
        due_second(log.push(pump), start_time, plant) == pump.seconds()->0
            + plant.auto_water_interval_secs,
{
    assert(log.push(pump).last() == pump);
}

/// Entries other than pump events leave the schedule as it is.
pub proof fn law_schedule_ignores_others(
    log: Seq<EntryView>,
    e: EntryView,
    start_time: i64,
    plant: PlantConfig,
)
    requires
        !e.is_pump(),
    ensures
        due_second(log.push(e), start_time, plant) == due_second(log, start_time, plant),
{
    assert(log.push(e).last() == e);
    assert(log.push(e).drop_last() =~= log);
}

} // verus!
