//! Instants by the clocks of the machine.
use vstd::prelude::*;

use crate::date;
use crate::date::{DateTime, DateTimeView};

verus! {

/// An instant under the offset of the clocks of the machine, where `offset` is that offset. An offset
/// that clocks cannot have changes nothing.
pub open spec fn local_fixed(value: DateTimeView, offset: Option<i64>) -> DateTimeView {
    match offset {
        Some(offset) => if date::is_offset(offset as int) {
            value.at_offset(offset as int)
        } else {
            value
        },
        None => value,
    }
}

/// An instant under the offset of the clocks of the machine at that instant, where it is known.
pub fn to_local_fixed(value: &DateTime, offset: Option<i64>) -> (r: DateTime)
    ensures
        r@ == local_fixed(value@, offset),
{
    match offset {
        Some(offset) => if -86400 < offset && offset < 86400 {
            value.with_offset(offset as i32)
        } else {
            *value
        },
        None => *value,
    }
}

/// The instant with a number of seconds and microseconds since the epoch, in UTC.
pub open spec fn clock_instant(seconds: i64, microsecond: u32) -> DateTimeView {
    DateTimeView { seconds: seconds as int, nanos: microsecond * 1000, offset: 0 }
}

/// The current instant under the offset of the clocks of the machine: what they show as seconds and
/// microseconds since the epoch with their offset, and `fallback` where they show nothing that is
/// representable.
pub fn now_local_fixed(clock: Option<(i64, u32)>, offset: Option<i64>, fallback: &DateTime) -> (r: DateTime)
    requires
        clock matches Some((_, microsecond)) ==> microsecond < 1000000,
    ensures
        r@ == match clock {
            Some((seconds, microsecond)) => if clock_instant(seconds, microsecond).valid() {
                local_fixed(clock_instant(seconds, microsecond), offset)
            } else {
                fallback@
            },
            None => fallback@,
        },
{
    match clock {
        Some((seconds, microsecond)) => match DateTime::new(seconds, microsecond * 1000, 0) {
            Some(now) => to_local_fixed(&now, offset),
            None => *fallback,
        },
        None => *fallback,
    }
}

/// An offset that clocks can have is taken over, and the instant stays the same; without one, or with
/// one of a day or more, the value is left as it is.
pub proof fn law_fixed_offset_keeps_the_instant(value: DateTimeView, offset: Option<i64>)
    ensures
        local_fixed(value, offset).seconds == value.seconds,
        local_fixed(value, offset).nanos == value.nanos,
        offset matches Some(seconds) ==> -86400 < seconds < 86400 ==> local_fixed(value, offset).offset
            == seconds,
        offset is None ==> local_fixed(value, offset) == value,
        offset matches Some(seconds) ==> seconds <= -86400 || seconds >= 86400 ==> local_fixed(
            value,
            offset,
        ) == value,
{
}

/// What a clock reads is so many seconds and microseconds after the first of January 1970 in UTC.
pub proof fn law_clock_reads_microseconds(seconds: i64, microsecond: u32)
    ensures
        clock_instant(seconds, microsecond).seconds == seconds,
        clock_instant(seconds, microsecond).nanos == 1000 * microsecond,
        clock_instant(seconds, microsecond).offset == 0,
{
}

} // verus!
