//! The link to the node: framed messages in, framed water commands out.

use vstd::prelude::*;
use vstd::string::*;
use vstd::utf8::{decode_utf8, encode_utf8, is_ascii_chars, valid_utf8};

use crate::clock::{local_rfc3339, local_stamp_of, now_instant, LAST_SECOND};
use crate::compact::{compact_log_at, compaction, stamps_of_hours, StampView};
use crate::text::{
    all_digits, decimal, digits_value, is_digit, lemma_decimal, lemma_decimal_len, push_decimal,
};
use crate::types::{log_view, EntryView, LogEntry, Message};
use crate::written::{HourKey, WrittenBuckets};

verus! {

/// A length as the two bytes in front of a payload, high byte first.
pub open spec fn header_of(len: int) -> Seq<u8>
    recommends
        0 <= len < 65536,
{
    seq![(len / 256) as u8, (len % 256) as u8]
}

/// The length that a header announces.
pub open spec fn length_in(header: Seq<u8>) -> int
    recommends
        header.len() == 2,
{
    header[0] * 256 + header[1]
}

/// The length that a received header announces.
pub fn payload_len(header: &[u8; 2]) -> (len: usize)
    ensures
        len == length_in(header@),
{
    header[0] as usize * 256 + header[1] as usize
}

/// The text of a water command.
pub open spec fn water_json(duration_s: u16) -> Seq<char> {
    "{\"Water\":{\"duration_s\":"@ + decimal(duration_s as nat) + "}}"@
}

/// A water command as it goes over the wire: the length of the text, then the text.
pub open spec fn water_bytes(duration_s: u16) -> Seq<u8> {
    let payload = encode_utf8(water_json(duration_s));
    header_of(payload.len() as int) + payload
}

proof fn lemma_water_json(duration_s: u16)
    ensures
        is_ascii_chars(water_json(duration_s)),
        encode_utf8(water_json(duration_s)).len() == water_json(duration_s).len(),
        water_json(duration_s).len() < 32,
{
    let digits = decimal(duration_s as nat);
    lemma_decimal(duration_s as nat);
    lemma_decimal_len(duration_s as nat);
    reveal_strlit("{\"Water\":{\"duration_s\":");
    reveal_strlit("}}");
    let text = water_json(duration_s);
    assert forall|i: int| 0 <= i < text.len() implies (#[trigger] text[i]) as nat <= 127 by {
        let a = "{\"Water\":{\"duration_s\":"@.len();
        if a <= i < a + digits.len() {
            assert(is_digit(digits[i - a]));
        }
    }
    vstd::utf8::is_ascii_chars_encode_utf8(text);
}

/// Frames a water command.
pub fn water_frame(duration_s: u16) -> (frame: Vec<u8>)
    ensures
        frame@ == water_bytes(duration_s),
{
    let mut json = "{\"Water\":{\"duration_s\":".to_owned();
    push_decimal(&mut json, duration_s);
    json.append("}}");
    proof {
        lemma_water_json(duration_s);
    }
    let mut payload = json.as_str().as_bytes_vec();
    let len: u16 = payload.len() as u16;
    proof {
        assert((len >> 8) == len / 256) by (bit_vector);
    }
    let mut frame: Vec<u8> = Vec::new();
    frame.push((len >> 8) as u8);
    frame.push((len % 256) as u8);
    assert(frame@ =~= header_of(payload@.len() as int));
    frame.append(&mut payload);
    frame
}

/// What the writing half of a session learns.
#[derive(Debug, Clone, Copy, PartialEq, Eq, Structural)]
pub enum WriterEvent {
    /// A water command is to be sent.
    Command { duration_s: u16 },
    /// There was no command for a while.
    Timeout,
    /// The reading half is gone.
    Disconnected,
    /// The connection dropped while a command was sent.
    WriteFailed,
}

/// What the writing half of a session does next.
#[derive(Debug)]
pub enum WriterAction {
    /// Write the frame.
    Send { frame: Vec<u8> },
    /// Wait for the next command.
    Poll,
    /// End.
    Stop,
}

/// Decides what the writing half of a session does next.
pub fn writer_step(event: WriterEvent) -> (action: WriterAction)
    ensures
        match event {
            WriterEvent::Command { duration_s } => action matches WriterAction::Send { frame }
                && frame@ == water_bytes(duration_s),
            WriterEvent::Timeout => action is Poll,
            WriterEvent::Disconnected => action is Stop,
            WriterEvent::WriteFailed => action is Stop,
        },
{
    match event {
        WriterEvent::Command { duration_s } => WriterAction::Send {
            frame: water_frame(duration_s),
        },
        WriterEvent::Timeout => WriterAction::Poll,
        WriterEvent::Disconnected => WriterAction::Stop,
        WriterEvent::WriteFailed => WriterAction::Stop,
    }
}

/// What is to be appended to the CSV file for one message.
#[derive(Debug)]
pub struct CsvUpdate {
    /// The message itself, if it is a pump event: they are sparse and written at once.
    pub pump: Vec<LogEntry>,
    /// The averages that were sealed.
    pub sealed: Vec<LogEntry>,
}

/// The entry itself if it is a pump event, else nothing.
pub open spec fn pump_rows(e: EntryView) -> Seq<EntryView> {
    if e.is_pump() {
        seq![e]
    } else {
        Seq::empty()
    }
}

/// What receiving an entry at the second `now` does to log and written averages, given the
/// stamps of the averaged hours.
pub open spec fn recording(
    log: Seq<EntryView>,
    written: Set<HourKey>,
    e: EntryView,
    now: int,
    stamps: Seq<Option<StampView>>,
    new_log: Seq<EntryView>,
    new_written: Set<HourKey>,
    update: CsvUpdate,
) -> bool {
    &&& log_view(update.pump@) == pump_rows(e)
    &&& compaction(
        log.push(e),
        written,
        now,
        stamps,
        new_log,
        new_written,
        log_view(update.sealed@),
    )
}

fn pump_copies(entry: &LogEntry) -> (rows: Vec<LogEntry>)
    ensures
        log_view(rows@) == pump_rows(entry@),
{
    let mut rows: Vec<LogEntry> = Vec::new();
    if let Message::Pump { .. } = &entry.message {
        rows.push(entry.clone());
    }
    assert(log_view(rows@) =~= pump_rows(entry@));
    rows
}

/// Adds a received entry to the log at the second `now` and compacts it.
pub fn record_entry_at(
    log: &mut Vec<LogEntry>,
    written: &mut WrittenBuckets,
    entry: LogEntry,
    now: i64,
) -> (update: CsvUpdate)
    ensures
        exists|stamps: Seq<Option<StampView>>|
            stamps_of_hours(log_view(old(log)@).push(entry@), now as int, stamps)
                && #[trigger] recording(
                log_view(old(log)@),
                old(written)@,
                entry@,
                now as int,
                stamps,
                log_view(final(log)@),
                final(written)@,
                update,
            ),
{
    let pump = pump_copies(&entry);
    let ghost (l, w, e) = (log_view(log@), written@, entry@);
    assert(log_view(log@.push(entry)) =~= l.push(e));
    log.push(entry);
    let sealed = compact_log_at(log, written, now);
    let update = CsvUpdate { pump, sealed };
    proof {
        let stamps = choose|stamps: Seq<Option<StampView>>|
            stamps_of_hours(l.push(e), now as int, stamps) && #[trigger] compaction(
                l.push(e),
                w,
                now as int,
                stamps,
                log_view(log@),
                written@,
                log_view(sealed@),
            );
        assert(recording(l, w, e, now as int, stamps, log_view(log@), written@, update));
    }
    update
}

/// The stamp of the current time, and the instant that it was made from.
fn now_stamp() -> (stamp: (String, Ghost<(i64, u32)>))
    ensures
        stamp_of_now(stamp.1@, stamp.0@),
{
    let (seconds, nanos) = now_instant();
    match local_rfc3339(seconds, nanos) {
        Some(text) => (text, Ghost((seconds, nanos))),
        None => {
            assert(false);
            (String::new(), Ghost((seconds, nanos)))
        },
    }
}

/// An instant that the clock may show, and its stamp in the machine's zone.
pub open spec fn stamp_of_now(clock: (i64, u32), stamp: Seq<char>) -> bool {
    &&& 0 <= clock.0 <= LAST_SECOND
    &&& clock.1 < 1_000_000_000
    &&& local_stamp_of(clock.0 as int, clock.1, Some(stamp))
}

/// Adds a received message to the log under the stamp of the current time, and compacts it.
pub fn record_message(
    log: &mut Vec<LogEntry>,
    written: &mut WrittenBuckets,
    message: Message,
) -> (update: CsvUpdate)
    ensures
        exists|clock: (i64, u32), e: EntryView, now: i64, stamps: Seq<Option<StampView>>|
            {
                &&& e.message == message
                &&& e.is_single()
                &&& e.is_dated()
                &&& #[trigger] stamp_of_now(clock, e.timestamp)
                &&& 0 <= now <= LAST_SECOND
                &&& stamps_of_hours(log_view(old(log)@).push(e), now as int, stamps)
                &&& #[trigger] recording(
                    log_view(old(log)@),
                    old(written)@,
                    e,
                    now as int,
                    stamps,
                    log_view(final(log)@),
                    final(written)@,
                    update,
                )
            },
{
    let (timestamp, Ghost(clock)) = now_stamp();
    let entry = LogEntry::new(timestamp, message);
    let ghost e = entry@;
    let (now, _) = now_instant();
    assert(stamp_of_now(clock, e.timestamp));
    record_entry_at(log, written, entry, now)
}

/// A header announces the length it was made from, and the length makes the header.
pub proof fn law_header_round_trip(len: int, header: Seq<u8>)
    ensures
        0 <= len < 65536 ==> length_in(header_of(len)) == len,
        header.len() == 2 ==> header_of(length_in(header)) == header,
{
    if header.len() == 2 {
        assert(header_of(length_in(header)) =~= header);
    }
}

/// A framed command is read back as it was sent: the header announces the length of what
/// follows, and what follows is the command's text.
pub proof fn law_frame_round_trip(duration_s: u16)
    ensures
        length_in(water_bytes(duration_s).take(2)) == water_bytes(duration_s).len() - 2,
        water_bytes(duration_s).skip(2) == encode_utf8(water_json(duration_s)),
{
    lemma_water_json(duration_s);
    let payload = encode_utf8(water_json(duration_s));
    let frame = water_bytes(duration_s);
    assert(frame.take(2) =~= header_of(payload.len() as int));
    assert(frame.skip(2) =~= payload);
}

/// The bytes of a run of commands, one frame after the other.
pub open spec fn command_bytes(commands: Seq<u16>) -> Seq<u8>
    decreases commands.len(),
{
    if commands.len() == 0 {
        Seq::empty()
    } else {
        water_bytes(commands[0]) + command_bytes(commands.skip(1))
    }
}

/// The payloads of a stream of frames: each header announces how many bytes belong to it. What
/// is left of an incomplete frame is left out.
pub open spec fn payloads(bytes: Seq<u8>) -> Seq<Seq<u8>>
    decreases bytes.len(),
{
    if bytes.len() < 2 {
        Seq::empty()
    } else {
        let end = 2 + length_in(bytes.take(2));
        if bytes.len() < end {
            Seq::empty()
        } else {
            seq![bytes.subrange(2, end)] + payloads(bytes.skip(end))
        }
    }
}

/// The message of a payload that is written like a water command.
pub open spec fn command_in(payload: Seq<u8>) -> Option<Message> {
    let text = decode_utf8(payload);
    let head = "{\"Water\":{\"duration_s\":"@;
    let tail = "}}"@;
    let digits = text.subrange(head.len() as int, text.len() - tail.len());
    if valid_utf8(payload) && text.len() > head.len() + tail.len() && text == head + digits + tail
        && all_digits(digits) && digits_value(digits) <= u16::MAX {
        Some(Message::Water { duration_s: digits_value(digits) as u16 })
    } else {
        None
    }
}

/// The text of a command is read back as that command.
pub proof fn lemma_command_in(duration_s: u16)
    ensures
        ({
            let payload = encode_utf8(water_json(duration_s));
            &&& command_in(payload) == Some(Message::Water { duration_s })
            &&& payload.len() == 25 + decimal(duration_s as nat).len()
            &&& 26 <= payload.len() <= 30
        }),
{
    let text = water_json(duration_s);
    let digits = decimal(duration_s as nat);
    lemma_water_json(duration_s);
    lemma_decimal(duration_s as nat);
    lemma_decimal_len(duration_s as nat);
    vstd::utf8::encode_utf8_valid_utf8(text);
    vstd::utf8::encode_utf8_decode_utf8(text);
    reveal_strlit("{\"Water\":{\"duration_s\":");
    reveal_strlit("}}");
    assert(text.subrange(23, text.len() - 2) =~= digits);
}

/// The commands of a session arrive as they were sent: a run of frames, split again by the
/// headers, holds one payload for each command, in order, which is read as that command. A
/// payload is as long as the command has digits and 25 bytes more.
pub proof fn law_frames_round_trip(commands: Seq<u16>)
    ensures
        payloads(command_bytes(commands)).len() == commands.len(),
        forall|i: int|
            0 <= i < commands.len() ==> {
                let payload = #[trigger] payloads(command_bytes(commands))[i];
                let duration_s = commands[i];
                &&& payload == encode_utf8(water_json(duration_s))
                &&& command_in(payload) == Some(Message::Water { duration_s })
                &&& payload.len() == 25 + decimal(duration_s as nat).len()
                &&& 26 <= payload.len() <= 30
            },
    decreases commands.len(),
{
    if commands.len() > 0 {
        let rest = commands.skip(1);
        let frame = water_bytes(commands[0]);
        let payload = encode_utf8(water_json(commands[0]));
        let bytes = command_bytes(commands);
        law_frames_round_trip(rest);
        law_frame_round_trip(commands[0]);
        lemma_command_in(commands[0]);
        assert(bytes.take(2) =~= frame.take(2));
        let end = frame.len() as int;
        assert(bytes.subrange(2, end) =~= frame.skip(2));
        assert(bytes.skip(end) =~= command_bytes(rest));
        assert(payloads(bytes) == seq![payload] + payloads(command_bytes(rest)));
        assert forall|i: int| 0 <= i < commands.len() implies {
            let payload = #[trigger] payloads(bytes)[i];
            let duration_s = commands[i];
            &&& payload == encode_utf8(water_json(duration_s))
            &&& command_in(payload) == Some(Message::Water { duration_s })
            &&& payload.len() == 25 + decimal(duration_s as nat).len()
            &&& 26 <= payload.len() <= 30
        } by {
            if i > 0 {
                assert(rest[i - 1] == commands[i]);
                assert(payloads(bytes)[i] == payloads(command_bytes(rest))[i - 1]);
            }
        }
    }
}

} // verus!
