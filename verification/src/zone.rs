//! Named time zones.
use chrono::{Offset, TimeZone};
use std::str::FromStr;
use vstd::prelude::*;

use crate::date;
use crate::date::{Date, DateTime, Time};

verus! {

/// Whether `chrono_tz::Tz::from_str` knows a zone of this name.
pub uninterp spec fn zone_known(name: Seq<char>) -> bool;

/// The offset from UTC, in seconds, that `chrono_tz` gives for a known zone at an instant.
pub uninterp spec fn zone_offset(name: Seq<char>, seconds: i64) -> i32;

/// The offset from UTC, in seconds, of the instant that `chrono_tz` finds for a date and time of a
/// known zone, where there is exactly one (`from_local_datetime` and `single`).
pub uninterp spec fn zone_local_offset(name: Seq<char>, day: int, second: u32) -> Option<i32>;

/// `chrono_tz::Tz::from_str`: whether the zone is known. The zones are compiled in, so the answer
/// depends on the name alone.
#[verifier::external_body]
fn chrono_tz_known(name: &str) -> (r: bool)
    ensures
        r == zone_known(name@),
{
    chrono_tz::Tz::from_str(name).is_ok()
}

/// `chrono::TimeZone::offset_from_utc_datetime` of a `chrono_tz::Tz`: nothing where the zone is
/// unknown, and otherwise its offset at the instant, less than a day.
#[verifier::external_body]
fn chrono_tz_offset(name: &str, seconds: i64) -> (r: Option<i32>)
    requires
        date::is_instant(seconds as int, 0),
    ensures
        (r is Some) == zone_known(name@),
        r is Some ==> r->0 == zone_offset(name@, seconds) && date::is_offset(r->0 as int),
{
    let instant = chrono::DateTime::from_timestamp(seconds, 0).unwrap().naive_utc();
    let zone = chrono_tz::Tz::from_str(name).ok()?;
    Some(zone.offset_from_utc_datetime(&instant).fix().local_minus_utc())
}

/// `chrono::TimeZone::from_local_datetime` of a `chrono_tz::Tz` on the date with day number `day`
/// and the time `second` seconds after midnight, and `single` of what it returns: the offset of the
/// one instant at which the clocks of the zone show that date and time, less than a day. The instant
/// is that date and time less the offset, and the zone has that offset at it
/// (`offset_from_utc_datetime`); at no other instant do its clocks show that date and time. Nothing
/// where the zone is unknown, and where there is no such instant or more than one.
#[verifier::external_body]
fn chrono_tz_local_offset(name: &str, day: i32, second: u32) -> (r: Option<i32>)
    requires
        date::is_day(day as int),
        second < 86400,
    ensures
        r is Some ==> zone_known(name@),
        zone_known(name@) ==> r == zone_local_offset(name@, day as int, second),
        r is Some ==> date::is_offset(r->0 as int),
        r is Some && date::is_instant(date::day_start(day as int) + second - r->0, 0) ==> r->0
            == zone_offset(name@, (date::day_start(day as int) + second - r->0) as i64),
        r is Some ==> forall|seconds: i64|
            date::is_instant(seconds as int, 0) && seconds + #[trigger] zone_offset(name@, seconds)
                == date::day_start(day as int) + second ==> zone_offset(name@, seconds) == r->0,
{
    let date = chrono::NaiveDate::from_num_days_from_ce_opt(day)?;
    let time = chrono::NaiveTime::from_num_seconds_from_midnight_opt(second, 0)?;
    let zone = chrono_tz::Tz::from_str(name).ok()?;
    let found = zone.from_local_datetime(&date.and_time(time)).single()?;
    Some(found.offset().fix().local_minus_utc())
}

/// Whether a zone of this name is known.
pub fn is_known(name: &str) -> (r: bool)
    ensures
        r == zone_known(name@),
{
    chrono_tz_known(name)
}

/// An instant as the clocks of a known zone show it.
pub open spec fn shown_in(v: date::DateTimeView, name: Seq<char>) -> date::DateTimeView {
    v.at_offset(zone_offset(name, v.seconds as i64) as int)
}

/// An instant as the clocks of a zone show it, where the zone is known.
pub fn in_zone(instant: &DateTime, name: &str) -> (r: Option<DateTime>)
    ensures
        match r {
            Some(shown) => zone_known(name@) && shown@ == shown_in(instant@, name@),
            None => !zone_known(name@),
        },
{
    match chrono_tz_offset(name, instant.timestamp()) {
        Some(offset) => Some(instant.with_offset(offset)),
        None => None,
    }
}

/// The one instant at which the clocks of a known zone show a date and time, under that zone's
/// offset.
pub open spec fn local_instant(name: Seq<char>, day: int, time: Time) -> Option<date::DateTimeView> {
    match zone_local_offset(name, day, time.seconds) {
        Some(offset) => {
            let v = date::DateTimeView {
                seconds: date::day_start(day) + time.seconds - offset,
                nanos: time.nanos as int,
                offset: 0,
            };
            if v.valid() {
                Some(v.at_offset(offset as int))
            } else {
                None
            }
        },
        None => None,
    }
}

/// The one instant at which the clocks of a zone show a date and time.
pub fn instant_in_zone(name: &str, day: &Date, time: Time) -> (r: Option<DateTime>)
    requires
        time.valid(),
    ensures
        match r {
            Some(instant) => zone_known(name@) && local_instant(name@, day@, time) == Some(instant@)
                && shown_in(instant@, name@) == instant@ && instant@.local_day() == day@
                && instant@.local_second() == time.seconds && forall|seconds: i64|
                date::is_instant(seconds as int, 0) && seconds + #[trigger] zone_offset(
                    name@,
                    seconds,
                ) == date::day_start(day@) + time.seconds ==> zone_offset(name@, seconds)
                    == instant@.offset,
            None => zone_known(name@) ==> local_instant(name@, day@, time) is None,
        },
{
    match chrono_tz_local_offset(name, day.days(), time.seconds) {
        Some(offset) => {
            let midnight: i64 = (day.days() as i64 - date::EPOCH_DAY) * date::DAY_SECONDS;
            let seconds: i64 = midnight + time.seconds as i64 - offset as i64;
            match DateTime::new(seconds, time.nanos, 0) {
                Some(instant) => Some(instant.with_offset(offset)),
                None => None,
            }
        },
        None => None,
    }
}

/// The clocks of a zone show the same instant, under the offset that they have then.
pub proof fn law_zone_shows_the_same_instant(v: date::DateTimeView, name: Seq<char>)
    ensures
        shown_in(v, name).seconds == v.seconds,
        shown_in(v, name).nanos == v.nanos,
        shown_in(v, name).offset == zone_offset(name, v.seconds as i64),
{
}

/// The instant at which the clocks of a zone show a day and a time shows that day and that time under
/// the offset that it comes with.
pub proof fn law_local_instant_shows_its_day_and_time(name: Seq<char>, day: int, time: Time)
    requires
        time.seconds < 86400,
    ensures
        local_instant(name, day, time) matches Some(v) ==> v.local_day() == day && v.local_second()
            == time.seconds && v.nanos == time.nanos,
{
}

/// A day and a time that a zone shows is an instant wherever that is representable.
pub proof fn law_local_instants_are_there(name: Seq<char>, day: int, time: Time, offset: i32)
    requires
        zone_local_offset(name, day, time.seconds) == Some(offset),
        (date::DateTimeView {
            seconds: (day - 719163) * 86400 + time.seconds - offset,
            nanos: time.nanos as int,
            offset: 0,
        }).valid(),
    ensures
        local_instant(name, day, time) is Some,
{
}

} // verus!
