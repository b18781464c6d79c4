//! The messages a sensor node exchanges with the server, and the log they end up in.

use vstd::prelude::*;

use crate::clock::{instant_of, read_stamp, valid_instant};

verus! {

/// Which sensor the moisture reading came from.
#[derive(Debug, Clone, Copy, PartialEq, Eq, Structural)]
pub enum Depth {
    Shallow,
    Deep,
}

/// Messages sent from the node to the server.
#[derive(Debug, Clone, Copy, PartialEq, Eq, Structural)]
pub enum Message {
    Moisture { adc_raw: u16, depth: Depth },
    Pump { duration_s: u16 },
    /// Host-issued command, echoed back by the node after execution.
    Water { duration_s: u16 },
}

/// What an average was made of: the sum of the readings, and how many there were.
#[derive(Debug, Clone, Copy, PartialEq, Eq, Structural)]
pub struct Tally {
    pub sum: u64,
    pub count: u64,
}

/// A timestamped entry in the server's in-memory log.
#[derive(Debug)]
pub struct LogEntry {
    /// RFC 3339
    pub timestamp: String,
    pub message: Message,
    /// For an hourly average, the readings that were collapsed into it so far. One whose mean
    /// is not the entry's value is taken for none.
    pub tally: Option<Tally>,
}

/// The mathematical value of an entry, with what its stamp names.
pub struct EntryView {
    pub timestamp: Seq<char>,
    pub message: Message,
    pub tally: Option<Tally>,
    pub instant: Option<(i64, u32)>,
}

impl View for LogEntry {
    type V = EntryView;

    open spec fn view(&self) -> EntryView {
        EntryView {
            timestamp: self.timestamp@,
            message: self.message,
            tally: self.tally,
            instant: instant_of(self.timestamp@),
        }
    }
}

/// The values of a run of entries, in order.
pub open spec fn log_view(entries: Seq<LogEntry>) -> Seq<EntryView> {
    entries.map_values(|e: LogEntry| e@)
}

impl Clone for LogEntry {
    fn clone(&self) -> (copy: Self)
        ensures
            copy@ == self@,
    {
        LogEntry { timestamp: self.timestamp.clone(), message: self.message, tally: self.tally }
    }
}

impl LogEntry {
    /// An entry as it is received: a single reading or event.
    pub fn new(timestamp: String, message: Message) -> (entry: Self)
        ensures
            entry.timestamp == timestamp,
            entry.message == message,
            entry.tally is None,
    {
        LogEntry { timestamp, message, tally: None }
    }
}

/// An entry together with the instant that its stamp is taken to name.
#[derive(Debug)]
pub struct DatedEntry {
    pub entry: LogEntry,
    /// Seconds since the epoch and nanoseconds; `None` if the stamp cannot be read
    pub instant: Option<(i64, u32)>,
}

impl View for DatedEntry {
    type V = EntryView;

    open spec fn view(&self) -> EntryView {
        EntryView {
            timestamp: self.entry.timestamp@,
            message: self.entry.message,
            tally: self.entry.tally,
            instant: self.instant,
        }
    }
}

impl Clone for DatedEntry {
    fn clone(&self) -> (copy: Self)
        ensures
            copy@ == self@,
    {
        DatedEntry { entry: self.entry.clone(), instant: self.instant }
    }
}

/// The values of a run of dated entries, in order.
pub open spec fn dated_view(entries: Seq<DatedEntry>) -> Seq<EntryView> {
    entries.map_values(|e: DatedEntry| e@)
}

impl EntryView {
    pub open spec fn is_moisture(self) -> bool {
        self.message is Moisture
    }

    pub open spec fn is_pump(self) -> bool {
        self.message is Pump
    }

    /// Whether the entry is a reading of the deep sensor.
    pub open spec fn is_deep(self) -> bool {
        self.message matches Message::Moisture { depth: Depth::Deep, .. }
    }

    /// The raw value of a moisture reading.
    pub open spec fn reading(self) -> nat {
        match self.message {
            Message::Moisture { adc_raw, .. } => adc_raw as nat,
            _ => 0,
        }
    }

    /// The second that the stamp names.
    pub open spec fn seconds(self) -> Option<i64> {
        match self.instant {
            Some((seconds, _)) => Some(seconds),
            None => None,
        }
    }

    /// Whether the entry's tally counts: its mean is the entry's value.
    pub open spec fn is_tallied(self) -> bool {
        &&& self.tally matches Some(t)
        &&& t.count > 0
        &&& t.sum / t.count == self.reading()
    }

    /// The sum of the readings that the entry stands for.
    pub open spec fn sum(self) -> nat {
        if self.is_tallied() {
            self.tally->0.sum as nat
        } else {
            self.reading()
        }
    }

    /// The number of readings that the entry stands for.
    pub open spec fn count(self) -> nat {
        if self.is_tallied() {
            self.tally->0.count as nat
        } else {
            1
        }
    }

    /// The entry is a single reading or event.
    pub open spec fn is_single(self) -> bool {
        self.tally is None
    }

    /// The instant is the one that the stamp names.
    pub open spec fn is_dated(self) -> bool {
        self.instant == instant_of(self.timestamp)
    }
}

/// The instants of the entries are such that a date can name.
pub open spec fn valid_instants(entries: Seq<DatedEntry>) -> bool {
    forall|i: int|
        0 <= i < entries.len() ==> ((#[trigger] entries[i]).instant matches Some((s, n))
            ==> valid_instant(s, n))
}

/// Reads the stamps of a log.
pub fn date_log(log: &Vec<LogEntry>) -> (dated: Vec<DatedEntry>)
    ensures
        dated_view(dated@) == log_view(log@),
        valid_instants(dated@),
{
    let ghost view = log_view(log@);
    let mut dated: Vec<DatedEntry> = Vec::new();
    let mut i: usize = 0;
    assert(dated_view(dated@) =~= view.take(0));
    while i < log.len()
        invariant
            i <= log@.len(),
            view == log_view(log@),
            dated_view(dated@) == view.take(i as int),
            valid_instants(dated@),
        decreases log@.len() - i,
    {
        let entry = log[i].clone();
        let instant = read_stamp(&entry.timestamp);
        let one = DatedEntry { entry, instant };
        proof {
            assert(one@ == view[i as int]);
            assert(dated_view(dated@.push(one)) =~= dated_view(dated@).push(one@));
            assert(view.take(i + 1) =~= view.take(i as int).push(one@));
        }
        dated.push(one);
        i = i + 1;
    }
    assert(view.take(i as int) =~= view);
    dated
}

/// Takes the instants off again.
pub(crate) fn undate_log(dated: Vec<DatedEntry>) -> (log: Vec<LogEntry>)
    requires
        forall|i: int| 0 <= i < dated@.len() ==> (#[trigger] dated@[i])@.is_dated(),
    ensures
        log_view(log@) == dated_view(dated@),
{
    let ghost view = dated_view(dated@);
    let mut log: Vec<LogEntry> = Vec::new();
    let mut i: usize = 0;
    assert(log_view(log@) =~= view.take(0));
    while i < dated.len()
        invariant
            i <= dated@.len(),
            view == dated_view(dated@),
            forall|j: int| 0 <= j < dated@.len() ==> (#[trigger] dated@[j])@.is_dated(),
            log_view(log@) == view.take(i as int),
        decreases dated@.len() - i,
    {
        let entry = dated[i].entry.clone();
        proof {
            assert(dated@[i as int]@.is_dated());
            assert(entry@ == view[i as int]);
            assert(log_view(log@.push(entry)) =~= log_view(log@).push(entry@));
            assert(view.take(i + 1) =~= view.take(i as int).push(entry@));
        }
        log.push(entry);
        i = i + 1;
    }
    assert(view.take(i as int) =~= view);
    log
}

/// Response body for `GET /api/data`.
#[derive(Debug)]
pub struct ApiData {
    pub log: Vec<LogEntry>,
    pub online: bool,
    /// RFC 3339
    pub next_water_at: String,
}

/// Request body for `POST /api/water`.
#[derive(Debug, Clone, Copy, PartialEq, Eq, Structural)]
pub struct WaterRequest {
    pub duration_s: u16,
}

} // verus!
