//! Time as the dashboard sees it: RFC 3339 stamps, the wall clock and the local zone.
//!
//! The four functions here whose bodies are not verified are the only ones that reach
//! `chrono`; what they promise is believed, not proved.

use chrono::{DateTime, Local, NaiveDateTime, TimeZone};
use vstd::prelude::*;

use crate::text::opt_text;

verus! {

/// First second that a date can name (January 1 of the year -262143, 00:00:00 UTC).
pub const FIRST_SECOND: i64 = -8_334_601_228_800;

/// Last second that a date can name (December 31 of the year 262142, 23:59:59 UTC).
pub const LAST_SECOND: i64 = 8_210_266_876_799;

/// First second that an RFC 3339 stamp can name (0000-01-01T00:00:00+23:59).
pub const FIRST_STAMP: i64 = -62_167_305_540;

/// Last second that an RFC 3339 stamp can name (9999-12-31T23:59:59-23:59).
pub const LAST_STAMP: i64 = 253_402_387_139;

/// What an RFC 3339 stamp names: seconds since the Unix epoch, and nanoseconds into that
/// second. `None` if the text is no such stamp.
pub uninterp spec fn rfc3339_instant(stamp: Seq<char>) -> Option<(i64, u32)>;

/// The RFC 3339 stamp of an instant in a zone that is the given number of seconds ahead of
/// UTC.
pub uninterp spec fn rfc3339_text(seconds: i64, nanos: u32, offset: i32) -> Seq<char>;

/// The instant that a text names as a stamp. No stamp holds a comma.
pub open spec fn instant_of(text: Seq<char>) -> Option<(i64, u32)> {
    if text.contains(',') {
        None
    } else {
        rfc3339_instant(text)
    }
}

/// An instant that a date can name. The second before a full minute may be a leap second,
/// which takes up nanoseconds past the first thousand million.
pub open spec fn valid_instant(seconds: i64, nanos: u32) -> bool {
    &&& FIRST_SECOND <= seconds <= LAST_SECOND
    &&& nanos < 2_000_000_000
    &&& nanos >= 1_000_000_000 ==> seconds as int % 60 == 59
}

/// Characters that make up a rendered stamp.
pub open spec fn stamp_char(c: char) -> bool {
    ('0' <= c && c <= '9') || c == '-' || c == '+' || c == ':' || c == '.' || c == 'T'
}

/// Whether a local time lies in the years 0000 to 9999, which a stamp writes with four digits.
pub open spec fn four_digit_year(local_seconds: int) -> bool {
    -62_167_219_200 <= local_seconds <= 253_402_300_799
}

/// `text` is the stamp of an instant in a zone with the given offset. Read back, it names
/// that instant if the offset is a whole number of minutes. If not, it is half a minute off at
/// most, because the offset is written in minutes; one that rounds to a full day cannot be
/// read.
pub open spec fn rendered_at(seconds: int, nanos: u32, offset: i32, text: Seq<char>) -> bool {
    &&& text == rfc3339_text(seconds as i64, nanos, offset)
    &&& -86_400 < offset < 86_400
    &&& four_digit_year(seconds + offset) && -86_370 < offset < 86_370 ==> {
        &&& rfc3339_instant(text) matches Some((t, n))
        &&& -30 <= t - seconds <= 30
        &&& n == nanos
    }
    &&& four_digit_year(seconds + offset) && offset as int % 60 == 0 ==> rfc3339_instant(text)
        == Some((seconds as i64, nanos))
}

/// What is known of the stamp of an instant in a zone that is not known. There is one exactly
/// if a date can name the second, and it is the stamp for some offset.
pub open spec fn local_stamp_of(seconds: int, nanos: u32, stamp: Option<Seq<char>>) -> bool {
    &&& stamp is Some <==> FIRST_SECOND <= seconds <= LAST_SECOND
    &&& stamp matches Some(text) ==> {
        &&& forall|i: int| 0 <= i < text.len() ==> stamp_char(#[trigger] text[i])
        &&& exists|offset: i32| #[trigger] rendered_at(seconds, nanos, offset, text)
    }
}

/// `text` is the stamp of an instant in a zone whose offset is a whole number of minutes, as
/// all that are in use are.
pub open spec fn minute_stamp(seconds: int, nanos: u32, text: Seq<char>) -> bool {
    exists|offset: i32|
        #[trigger] rendered_at(seconds, nanos, offset, text) && offset as int % 60 == 0
            && four_digit_year(seconds + offset)
}

/// `text` is the stamp of an instant in a zone whose offset does not round to a full day.
pub open spec fn readable_stamp(seconds: int, nanos: u32, text: Seq<char>) -> bool {
    exists|offset: i32|
        #[trigger] rendered_at(seconds, nanos, offset, text) && -86_370 < offset < 86_370
            && four_digit_year(seconds + offset)
}

/// A rendered stamp holds no comma.
pub proof fn lemma_stamp_has_no_comma(stamp: Seq<char>)
    requires
        forall|i: int| 0 <= i < stamp.len() ==> stamp_char(#[trigger] stamp[i]),
    ensures
        !stamp.contains(','),
{
    if stamp.contains(',') {
        let i = choose|i: int| 0 <= i < stamp.len() && stamp[i] == ',';
        assert(stamp_char(stamp[i]));
    }
}

/// A rendered stamp is read back: as the instant itself in a zone of whole minutes, and as
/// one that is at most half a minute away in any zone whose offset does not round to a full
/// day.
pub proof fn law_stamps_are_read_back(seconds: i64, nanos: u32, text: Seq<char>)
    requires
        local_stamp_of(seconds as int, nanos, Some(text)),
    ensures
        minute_stamp(seconds as int, nanos, text) ==> instant_of(text) == Some((seconds, nanos)),
        readable_stamp(seconds as int, nanos, text) ==> {
            &&& instant_of(text) matches Some((t, n))
            &&& -30 <= t - seconds <= 30
            &&& n == nanos
        },
{
    lemma_stamp_has_no_comma(text);
}

/// Division that rounds toward zero.
pub open spec fn quotient(a: int, b: int) -> int
    recommends
        b > 0,
{
    if a >= 0 {
        a / b
    } else {
        -((-a) / b)
    }
}

/// Nanoseconds from the instant `(s2, n2)` to the instant `(s1, n1)`. A leap second that
/// lies between the two times of day counts.
pub open spec fn nanos_between(s1: i64, n1: u32, s2: i64, n2: u32) -> int {
    let leap: int = if s1 as int % 86_400 > s2 as int % 86_400 && n2 >= 1_000_000_000 {
        1
    } else if (s1 as int % 86_400) < s2 as int % 86_400 && n1 >= 1_000_000_000 {
        -1
    } else {
        0
    };
    (s1 - s2 + leap) * 1_000_000_000 + n1 - n2
}

/// `chrono::DateTime::parse_from_rfc3339`, with the result taken apart into its `timestamp`
/// and its nanoseconds. What the text names is called [`rfc3339_instant`]; the contract adds
/// only that it is an instant of the years 0000 to 9999, in a zone less than a day from UTC,
/// and that a text with a comma names none.
#[verifier::external_body]
fn parse_rfc3339(stamp: &str) -> (instant: Option<(i64, u32)>)
    ensures
        instant == rfc3339_instant(stamp@),
        instant matches Some((s, n)) ==> FIRST_STAMP <= s <= LAST_STAMP && valid_instant(s, n),
        instant is Some ==> !stamp@.contains(','),
{
    DateTime::parse_from_rfc3339(stamp).ok().map(|t| (t.timestamp(), t.timestamp_subsec_nanos()))
}

/// Reads a stamp.
pub fn read_stamp(stamp: &str) -> (instant: Option<(i64, u32)>)
    ensures
        instant == instant_of(stamp@),
        instant matches Some((s, n)) ==> FIRST_STAMP <= s <= LAST_STAMP && valid_instant(s, n),
{
    parse_rfc3339(stamp)
}

/// `NaiveDateTime::from_timestamp_opt`, then `Local.from_utc_datetime` and `to_rfc3339`: the
/// stamp of an instant in the machine's zone. What `to_rfc3339` makes of an instant and an
/// offset is called [`rfc3339_text`]. The offset that the machine has at that instant is not
/// known: the contract says that there is one, less than a day either way, and what holds
/// for each, see [`rendered_at`]. The call needs such a zone.
#[verifier::external_body]
#[allow(deprecated)]
pub(crate) fn local_rfc3339(seconds: i64, nanos: u32) -> (stamp: Option<String>)
    requires
        nanos < 1_000_000_000,
    ensures
        local_stamp_of(seconds as int, nanos, opt_text(stamp)),
        stamp matches Some(text) ==> exists|offset: i32|
            text@ == #[trigger] rfc3339_text(seconds, nanos, offset),
{
    NaiveDateTime::from_timestamp_opt(seconds, nanos)
        .map(|utc| Local.from_utc_datetime(&utc).to_rfc3339())
}

/// `Local::now`, with the result taken apart into its `timestamp` and its nanoseconds. The
/// clock may show anything from 1970 on, within the range of dates; it never shows a leap
/// second. The call needs a clock that is not set before 1970.
#[verifier::external_body]
pub(crate) fn now_instant() -> (now: (i64, u32))
    ensures
        0 <= now.0 <= LAST_SECOND,
        now.1 < 1_000_000_000,
{
    let now = Local::now();
    (now.timestamp(), now.timestamp_subsec_nanos())
}

/// The difference of two `chrono::DateTime`s and its `num_seconds`: the whole seconds in
/// [`nanos_between`], rounded toward zero. The instants are put together from their parts
/// with `DateTime::from_timestamp`.
#[verifier::external_body]
pub(crate) fn seconds_between(s1: i64, n1: u32, s2: i64, n2: u32) -> (seconds: i64)
    requires
        valid_instant(s1, n1),
        valid_instant(s2, n2),
    ensures
        seconds == quotient(nanos_between(s1, n1, s2, n2), 1_000_000_000),
{
    let later = DateTime::from_timestamp(s1, n1).unwrap();
    let earlier = DateTime::from_timestamp(s2, n2).unwrap();
    (later - earlier).num_seconds()
}

} // verus!
