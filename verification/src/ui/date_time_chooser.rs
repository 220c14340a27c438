//! Choosing the start and the end of an event.
use vstd::prelude::*;

use crate::date;
use crate::date::Date;
use crate::model;
use crate::text;
use crate::time_format;

verus! {

// ---------------------------------------------------------------------------------------------
// Wall clocks
// ---------------------------------------------------------------------------------------------

/// The minutes of a day.
pub const DAY_MINUTES: i64 = 1440;

/// Whether a clock shows an hour and a minute.
pub open spec fn is_clock(hour: int, minute: int) -> bool {
    0 <= hour < 24 && 0 <= minute < 60
}

/// A day, an hour and a minute as one number of minutes.
pub open spec fn wall_minute(day: int, hour: int, minute: int) -> int {
    day * DAY_MINUTES + hour * 60 + minute
}

/// The minutes of a date with an hour and a minute.
pub open spec fn minute_of(parts: (Date, i32, i32)) -> int {
    wall_minute(parts.0@, parts.1 as int, parts.2 as int)
}

/// Whether the parts are those of a date and a clock.
pub open spec fn are_parts(parts: (Date, i32, i32)) -> bool {
    is_clock(parts.1 as int, parts.2 as int)
}

/// Minutes from the beginning of the calendar.
fn minutes_of(parts: (Date, i32, i32)) -> (r: i64)
    requires
        are_parts(parts),
    ensures
        r == minute_of(parts),
        -200000000000 < r < 200000000000,
{
    parts.0.days() as i64 * DAY_MINUTES + parts.1 as i64 * 60 + parts.2 as i64
}

/// The date, hour and minute of a number of minutes, where the date is representable.
pub fn parts_of(minute: i64) -> (r: Option<(Date, i32, i32)>)
    ensures
        r is Some <==> date::is_day(minute as int / DAY_MINUTES as int),
        r matches Some(parts) ==> are_parts(parts) && minute_of(parts) == minute,
{
    if minute < -200000000000 || minute > 200000000000 {
        return None;
    }
    // The shift is a number of whole days that makes the minutes positive.
    let shifted: i64 = minute + 200000000 * DAY_MINUTES;
    let day: i64 = shifted / DAY_MINUTES - 200000000;
    let rest: i64 = shifted % DAY_MINUTES;
    assert(day == minute as int / DAY_MINUTES as int);
    match Date::from_days(day) {
        Some(date) => Some((date, (rest / 60) as i32, (rest % 60) as i32)),
        None => None,
    }
}

/// The parts a number of minutes after others.
pub open spec fn is_after(parts: (Date, i32, i32), minutes: int, later: (Date, i32, i32)) -> bool {
    are_parts(later) && minute_of(later) == minute_of(parts) + minutes
}

/// Whether the date a number of minutes after others is representable.
pub open spec fn has_after(parts: (Date, i32, i32), minutes: int) -> bool {
    date::is_day((minute_of(parts) + minutes) / DAY_MINUTES as int)
}

/// The parts by which the end follows a start that moved, where they are representable.
pub fn shifted_end(
    old_start: (Date, i32, i32),
    new_start: (Date, i32, i32),
    old_end: (Date, i32, i32),
) -> (r: Option<(Date, i32, i32)>)
    requires
        are_parts(old_start),
        are_parts(new_start),
        are_parts(old_end),
    ensures
        r is Some <==> has_after(old_end, minute_of(new_start) - minute_of(old_start)),
        r matches Some(end) ==> is_after(
            old_end,
            minute_of(new_start) - minute_of(old_start),
            end,
        ),
{
    parts_of(minutes_of(old_end) + (minutes_of(new_start) - minutes_of(old_start)))
}

/// The end after the start moved: it moves as far as the start.
pub fn shift_end_for_start_change(
    old_start: (Date, i32, i32),
    new_start: (Date, i32, i32),
    old_end: (Date, i32, i32),
) -> (r: (Date, i32, i32))
    requires
        are_parts(old_start),
        are_parts(new_start),
        are_parts(old_end),
        has_after(old_end, minute_of(new_start) - minute_of(old_start)),
    ensures
        is_after(old_end, minute_of(new_start) - minute_of(old_start), r),
{
    match shifted_end(old_start, new_start, old_end) {
        Some(end) => end,
        None => old_end,
    }
}

/// The parts of a date and a clock are determined by their minutes.
pub proof fn law_minutes_determine_the_parts(a: (Date, i32, i32), b: (Date, i32, i32))
    requires
        are_parts(a),
        are_parts(b),
        minute_of(a) == minute_of(b),
    ensures
        a == b,
{
    broadcast use date::lemma_date_ext;

    assert(a.0@ == b.0@);
}

// ---------------------------------------------------------------------------------------------
// Clocks with twelve hours
// ---------------------------------------------------------------------------------------------

/// An hour of a clock with twelve hours.
pub fn to_12_hour(hour: i32) -> (r: i32)
    requires
        0 <= hour,
    ensures
        r == time_format::twelve_hour(hour as int),
{
    let hour: i32 = hour % 12;
    if hour == 0 {
        12
    } else {
        hour
    }
}

/// An hour from one of a clock with twelve hours; `period` is 1 after noon.
pub open spec fn full_hour(hour: int, period: int) -> int {
    let shown = if hour < 1 {
        1
    } else if hour > 12 {
        12
    } else {
        hour
    };
    shown % 12 + (if period == 1 {
        12int
    } else {
        0
    })
}

/// An hour from one of a clock with twelve hours.
pub fn to_24_hour(hour: i32, period: u32) -> (r: i32)
    ensures
        r == full_hour(hour as int, period as int),
        0 <= r < 24,
{
    let shown: i32 = if hour < 1 {
        1
    } else if hour > 12 {
        12
    } else {
        hour
    };
    if period == 1 {
        shown % 12 + 12
    } else {
        shown % 12
    }
}

/// An hour that is shown with twelve hours is read back.
pub proof fn law_shown_hour_reads_back(hour: int)
    requires
        0 <= hour < 24,
    ensures
        full_hour(
            time_format::twelve_hour(hour),
            if hour >= 12 {
                1
            } else {
                0
            },
        ) == hour,
{
}

// ---------------------------------------------------------------------------------------------
// Texts
// ---------------------------------------------------------------------------------------------

/// A number with at least two places.
pub open spec fn two_places(n: int) -> Seq<char> {
    if 0 <= n < 100 {
        text::two_digits(n)
    } else {
        text::signed_decimal(n)
    }
}

/// A number with at least two places.
fn two_places_text(n: i32) -> (r: String)
    ensures
        r@ == two_places(n as int),
{
    if 0 <= n && n < 100 {
        text::two_digit_text(n as u32)
    } else {
        text::signed_decimal_text(n as i64)
    }
}

/// A time of a wall clock. Numbers that no clock shows are written as they are.
pub open spec fn wall_time(hour: int, minute: int, twelve_hour: bool) -> Seq<char> {
    if twelve_hour && is_clock(hour, minute) {
        time_format::twelve_hour_text(hour, minute)
    } else {
        two_places(hour) + seq![':'] + two_places(minute)
    }
}

/// A time of a wall clock.
pub fn format_wall_time(hour: i32, minute: i32, twelve_hour: bool) -> (r: String)
    ensures
        r@ == wall_time(hour as int, minute as int, twelve_hour),
{
    if twelve_hour && 0 <= hour && hour < 24 && 0 <= minute && minute < 60 {
        let mut out = text::decimal_text(to_12_hour(hour) as u64);
        out.push(':');
        out.append(text::two_digit_text(minute as u32).as_str());
        if hour >= 12 {
            out.append(" PM");
        } else {
            out.append(" AM");
        }
        assert(out@ =~= time_format::twelve_hour_text(hour as int, minute as int));
        out
    } else {
        let mut out = two_places_text(hour);
        out.push(':');
        out.append(two_places_text(minute).as_str());
        assert(out@ =~= two_places(hour as int) + seq![':'] + two_places(minute as int));
        out
    }
}

/// The parts of a length of time: days, hours and minutes, without those of which there are none.
pub open spec fn duration_parts(minutes: int) -> Seq<Seq<char>> {
    let days = minutes / 1440;
    let hours = minutes % 1440 / 60;
    let rest = minutes % 60;
    (if days > 0 {
        seq![text::decimal(days as nat) + "d"@]
    } else {
        seq![]
    }) + (if hours > 0 {
        seq![text::decimal(hours as nat) + "hr"@]
    } else {
        seq![]
    }) + (if rest > 0 {
        seq![text::decimal(rest as nat) + "m"@]
    } else {
        seq![]
    })
}

/// A length of time, such as `1d 2hr 5m`.
pub open spec fn duration_words(minutes: int) -> Seq<char> {
    if minutes <= 0 {
        "0m"@
    } else {
        text::join(duration_parts(minutes), " "@)
    }
}

/// Add a number with its unit, where the number is not zero.
fn add_part(parts: &mut Vec<String>, n: i64, unit: &str)
    requires
        n >= 0,
    ensures
        text::views(final(parts)@) == text::views(old(parts)@) + (if n > 0 {
            seq![text::decimal(n as nat) + unit@]
        } else {
            seq![]
        }),
{
    let ghost before = text::views(parts@);
    if n > 0 {
        let part = text::joined(text::decimal_text(n as u64).as_str(), unit);
        parts.push(part);
    }
    assert(text::views(parts@) =~= before + (if n > 0 {
        seq![text::decimal(n as nat) + unit@]
    } else {
        seq![]
    }));
}

/// A length of time in minutes as text.
pub fn format_duration(minutes: i64) -> (r: String)
    ensures
        r@ == duration_words(minutes as int),
{
    if minutes <= 0 {
        return String::from_str("0m");
    }
    let mut parts: Vec<String> = Vec::new();
    assert(text::views(parts@) =~= seq![]);
    add_part(&mut parts, minutes / 1440, "d");
    add_part(&mut parts, minutes % 1440 / 60, "hr");
    add_part(&mut parts, minutes % 60, "m");
    assert(text::views(parts@) =~= duration_parts(minutes as int));
    text::join_texts(&parts, " ")
}

// ---------------------------------------------------------------------------------------------
// The chooser
// ---------------------------------------------------------------------------------------------

/// One of the two ends of an event.
#[derive(Clone, Copy, Debug, PartialEq, Eq, Structural)]
pub enum Endpoint {
    Start,
    End,
}

/// The start and the end that are chosen, and which of the two is being changed.
#[derive(Clone, Copy, Debug)]
pub struct DateTimeChooser {
    pub start: (Date, i32, i32),
    pub end: (Date, i32, i32),
    pub active: Endpoint,
}

/// The number of a range that is nearest to another.
pub open spec fn clamped(n: int, last: int) -> int {
    if n < 0 {
        0
    } else if n > last {
        last
    } else {
        n
    }
}

/// The number from 0 to `last` that is nearest to another.
fn clamp(n: i32, last: i32) -> (r: i32)
    requires
        0 <= last,
    ensures
        r == clamped(n as int, last as int),
{
    if n < 0 {
        0
    } else if n > last {
        last
    } else {
        n
    }
}

/// Parts as a clock can show them.
pub open spec fn on_a_clock(parts: (Date, i32, i32)) -> (Date, i32, i32) {
    (parts.0, clamped(parts.1 as int, 23) as i32, clamped(parts.2 as int, 59) as i32)
}

/// A button for an hour or a minute.
#[derive(Debug)]
pub struct TimeChoice {
    pub value: i32,
    pub label: String,
    pub column: i32,
    pub row: i32,
    pub selected: bool,
}

/// Whether a button is the `i`-th of the hours.
pub open spec fn is_hour_choice(choice: TimeChoice, i: int, twelve_hour: bool, hour: int) -> bool {
    let columns: int = if twelve_hour {
        4
    } else {
        6
    };
    &&& choice.value == (if twelve_hour {
        i + 1
    } else {
        i
    })
    &&& choice.label@ == (if twelve_hour {
        text::decimal(choice.value as nat)
    } else {
        text::two_digits(choice.value as int)
    })
    &&& choice.column == i % columns
    &&& choice.row == i / columns
    &&& choice.selected == (choice.value == (if twelve_hour {
        time_format::twelve_hour(hour)
    } else {
        hour
    }))
}

/// Whether a button is the `i`-th of the minutes.
pub open spec fn is_minute_choice(choice: TimeChoice, i: int, minute: int) -> bool {
    &&& choice.value == i * 5
    &&& choice.label@ == text::two_digits(i * 5)
    &&& choice.column == i % 4
    &&& choice.row == i / 4
    &&& choice.selected == (i * 5 == minute)
}

impl DateTimeChooser {
    /// Whether both ends have times that a clock shows.
    pub open spec fn wf(self) -> bool {
        are_parts(self.start) && are_parts(self.end)
    }

    /// The end that is being changed.
    pub open spec fn changing(self) -> (Date, i32, i32) {
        match self.active {
            Endpoint::Start => self.start,
            Endpoint::End => self.end,
        }
    }

    /// Whether a change of the end that is being changed leaves the other representable.
    pub open spec fn can_change(self, parts: (Date, i32, i32)) -> bool {
        self.active == Endpoint::Start ==> has_after(
            self.end,
            minute_of(parts) - minute_of(self.start),
        )
    }

    /// Whether the chooser is another one after a change of the end that is being changed: the end
    /// of the event follows its start.
    pub open spec fn changed_from(self, before: DateTimeChooser, parts: (Date, i32, i32)) -> bool {
        &&& self.active == before.active
        &&& match before.active {
            Endpoint::Start => self.start == parts && is_after(
                before.end,
                minute_of(parts) - minute_of(before.start),
                self.end,
            ),
            Endpoint::End => self.start == before.start && self.end == parts,
        }
    }

    /// A chooser of a start and an end. Hours and minutes are brought into the range of a clock; the
    /// start is changed first.
    pub fn set_date_times(start: (Date, i32, i32), end: (Date, i32, i32)) -> (r: DateTimeChooser)
        ensures
            r.wf(),
            r.start == on_a_clock(start),
            r.end == on_a_clock(end),
            r.active == Endpoint::Start,
    {
        DateTimeChooser {
            start: (start.0, clamp(start.1, 23), clamp(start.2, 59)),
            end: (end.0, clamp(end.1, 23), clamp(end.2, 59)),
            active: Endpoint::Start,
        }
    }

    /// Choose another start; the end stays.
    pub fn set_start_date_time(&mut self, date: Date, hour: i32, minute: i32)
        requires
            old(self).wf(),
        ensures
            final(self).wf(),
            final(self).start == on_a_clock((date, hour, minute)),
            final(self).end == old(self).end,
            final(self).active == Endpoint::Start,
    {
        *self = DateTimeChooser::set_date_times((date, hour, minute), self.end);
    }

    /// Choose another end; the start stays.
    pub fn set_end_date_time(&mut self, date: Date, hour: i32, minute: i32)
        requires
            old(self).wf(),
        ensures
            final(self).wf(),
            final(self).end == on_a_clock((date, hour, minute)),
            final(self).start == old(self).start,
            final(self).active == Endpoint::Start,
    {
        *self = DateTimeChooser::set_date_times(self.start, (date, hour, minute));
    }

    /// Change the end that is being changed.
    fn change(&mut self, parts: (Date, i32, i32))
        requires
            old(self).wf(),
            are_parts(parts),
            old(self).can_change(parts),
        ensures
            final(self).wf(),
            final(self).changed_from(*old(self), parts),
    {
        match self.active {
            Endpoint::Start => {
                self.end = shift_end_for_start_change(self.start, parts, self.end);
                self.start = parts;
            },
            Endpoint::End => {
                self.end = parts;
            },
        }
    }

    /// The end that is being changed.
    fn active_parts(&self) -> (r: (Date, i32, i32))
        ensures
            r == self.changing(),
    {
        match self.active {
            Endpoint::Start => self.start,
            Endpoint::End => self.end,
        }
    }

    /// The hour that a button stands for.
    pub open spec fn chosen_hour(self, display_hour: int, twelve_hour: bool) -> int {
        if twelve_hour {
            full_hour(
                display_hour,
                if self.changing().1 >= 12 {
                    1
                } else {
                    0
                },
            )
        } else {
            display_hour
        }
    }

    /// A button of an hour was pressed.
    pub fn set_active_hour(&mut self, display_hour: i32, twelve_hour: bool)
        requires
            old(self).wf(),
            !twelve_hour ==> 0 <= display_hour < 24,
            old(self).can_change(
                (
                    old(self).changing().0,
                    old(self).chosen_hour(display_hour as int, twelve_hour) as i32,
                    old(self).changing().2,
                ),
            ),
        ensures
            final(self).wf(),
            final(self).changed_from(
                *old(self),
                (
                    old(self).changing().0,
                    old(self).chosen_hour(display_hour as int, twelve_hour) as i32,
                    old(self).changing().2,
                ),
            ),
    {
        let (date, hour, minute): (Date, i32, i32) = self.active_parts();
        let chosen: i32 = if twelve_hour {
            to_24_hour(
                display_hour,
                if hour >= 12 {
                    1
                } else {
                    0
                },
            )
        } else {
            display_hour
        };
        self.change((date, chosen, minute));
    }

    /// A button of a minute was pressed.
    pub fn set_active_minute(&mut self, minute: i32)
        requires
            old(self).wf(),
            0 <= minute < 60,
            old(self).can_change((old(self).changing().0, old(self).changing().1, minute)),
        ensures
            final(self).wf(),
            final(self).changed_from(
                *old(self),
                (old(self).changing().0, old(self).changing().1, minute),
            ),
    {
        let (date, hour, _): (Date, i32, i32) = self.active_parts();
        self.change((date, hour, minute));
    }

    /// Before noon or after noon was chosen; `period` is 1 after noon.
    pub fn set_active_period(&mut self, period: u32)
        requires
            old(self).wf(),
            old(self).can_change(
                (
                    old(self).changing().0,
                    full_hour(
                        time_format::twelve_hour(old(self).changing().1 as int),
                        period as int,
                    ) as i32,
                    old(self).changing().2,
                ),
            ),
        ensures
            final(self).wf(),
            final(self).changed_from(
                *old(self),
                (
                    old(self).changing().0,
                    full_hour(
                        time_format::twelve_hour(old(self).changing().1 as int),
                        period as int,
                    ) as i32,
                    old(self).changing().2,
                ),
            ),
    {
        let (date, hour, minute): (Date, i32, i32) = self.active_parts();
        let chosen: i32 = to_24_hour(to_12_hour(hour), period);
        self.change((date, chosen, minute));
    }

    /// Another date was chosen for one of the two ends.
    pub fn date_changed(&mut self, endpoint: Endpoint, date: Date)
        requires
            old(self).wf(),
            endpoint == Endpoint::Start ==> has_after(
                old(self).end,
                minute_of((date, old(self).start.1, old(self).start.2)) - minute_of(
                    old(self).start,
                ),
            ),
        ensures
            final(self).wf(),
            final(self).active == old(self).active,
            match endpoint {
                Endpoint::Start => final(self).start == (date, old(self).start.1, old(self).start.2)
                    && is_after(
                    old(self).end,
                    (date@ - old(self).start.0@) * DAY_MINUTES,
                    final(self).end,
                ),
                Endpoint::End => final(self).start == old(self).start && final(self).end == (
                    date,
                    old(self).end.1,
                    old(self).end.2,
                ),
            },
    {
        match endpoint {
            Endpoint::Start => {
                let parts = (date, self.start.1, self.start.2);
                self.end = shift_end_for_start_change(self.start, parts, self.end);
                self.start = parts;
            },
            Endpoint::End => {
                self.end = (date, self.end.1, self.end.2);
            },
        }
    }

    /// The length of the event, where its end comes after its start.
    pub fn duration_text(&self) -> (r: Option<String>)
        requires
            self.wf(),
        ensures
            model::text_view(r) == (if minute_of(self.end) > minute_of(self.start) {
                Some(duration_words(minute_of(self.end) - minute_of(self.start)))
            } else {
                None
            }),
    {
        let length: i64 = minutes_of(self.end) - minutes_of(self.start);
        if length > 0 {
            Some(format_duration(length))
        } else {
            None
        }
    }

    /// What stands over the end: its name, with the length of the event.
    pub fn end_caption(&self) -> (r: String)
        requires
            self.wf(),
        ensures
            r@ == (if minute_of(self.end) > minute_of(self.start) {
                "END · "@ + duration_words(minute_of(self.end) - minute_of(self.start))
            } else {
                "END"@
            }),
    {
        match self.duration_text() {
            Some(length) => text::joined("END · ", length.as_str()),
            None => String::from_str("END"),
        }
    }

    /// The buttons of the hours.
    pub fn hour_choices(&self, twelve_hour: bool) -> (r: Vec<TimeChoice>)
        requires
            self.wf(),
        ensures
            r@.len() == (if twelve_hour {
                12int
            } else {
                24
            }),
            forall|i: int|
                0 <= i < r@.len() ==> is_hour_choice(
                    #[trigger] r@[i],
                    i,
                    twelve_hour,
                    self.changing().1 as int,
                ),
    {
        let (_, hour, _): (Date, i32, i32) = self.active_parts();
        let count: i32 = if twelve_hour {
            12
        } else {
            24
        };
        let columns: i32 = if twelve_hour {
            4
        } else {
            6
        };
        let shown: i32 = if twelve_hour {
            to_12_hour(hour)
        } else {
            hour
        };
        let mut out: Vec<TimeChoice> = Vec::new();
        for i in 0..count
            invariant
                columns == (if twelve_hour {
                    4int
                } else {
                    6
                }),
                count <= 24,
                shown == (if twelve_hour {
                    time_format::twelve_hour(hour as int)
                } else {
                    hour as int
                }),
                out@.len() == i,
                forall|k: int|
                    0 <= k < i ==> is_hour_choice(
                        #[trigger] out@[k],
                        k,
                        twelve_hour,
                        hour as int,
                    ),
        {
            let value: i32 = if twelve_hour {
                i + 1
            } else {
                i
            };
            let label = if twelve_hour {
                text::decimal_text(value as u64)
            } else {
                text::two_digit_text(value as u32)
            };
            out.push(
                TimeChoice {
                    value,
                    label,
                    column: i % columns,
                    row: i / columns,
                    selected: value == shown,
                },
            );
        }
        out
    }

    /// The buttons of the minutes.
    pub fn minute_choices(&self) -> (r: Vec<TimeChoice>)
        requires
            self.wf(),
        ensures
            r@.len() == 12,
            forall|i: int|
                0 <= i < 12 ==> is_minute_choice(#[trigger] r@[i], i, self.changing().2 as int),
    {
        let (_, _, minute): (Date, i32, i32) = self.active_parts();
        let mut out: Vec<TimeChoice> = Vec::new();
        for i in 0..12i32
            invariant
                out@.len() == i,
                forall|k: int|
                    0 <= k < i ==> is_minute_choice(#[trigger] out@[k], k, minute as int),
        {
            out.push(
                TimeChoice {
                    value: i * 5,
                    label: text::two_digit_text((i * 5) as u32),
                    column: i % 4,
                    row: i / 4,
                    selected: i * 5 == minute,
                },
            );
        }
        out
    }
}

/// Moving the start keeps the length of the event.
pub proof fn law_moved_start_keeps_the_length(
    before: DateTimeChooser,
    after: DateTimeChooser,
    parts: (Date, i32, i32),
)
    requires
        before.active == Endpoint::Start,
        after.changed_from(before, parts),
    ensures
        minute_of(after.end) - minute_of(after.start) == minute_of(before.end) - minute_of(
            before.start,
        ),
{
}

/// A date and a time are so many minutes: a day has 24 hours, and an hour 60 minutes.
pub proof fn law_minutes_of_a_clock(day: Date, hour: i32, minute: i32)
    ensures
        minute_of((day, hour, minute)) == (day@ * 24 + hour) * 60 + minute,
        are_parts((day, hour, minute)) <==> 0 <= hour <= 23 && 0 <= minute <= 59,
{
}

/// Where the day of what lies some minutes later is representable, there is a date and a time that lies
/// so many minutes later.
pub proof fn law_some_minutes_later(parts: (Date, i32, i32), minutes: int) -> (later: (Date, i32, i32))
    requires
        has_after(parts, minutes),
    ensures
        date::is_day(later.0@),
        is_after(parts, minutes, later),
{
    let total = minute_of(parts) + minutes;
    let day = total / 1440;
    let rest = total % 1440;
    let hour = rest / 60;
    let minute = rest % 60;
    date::lemma_date_of(day);
    assert(total == day * 1440 + rest);
    assert(rest == hour * 60 + minute);
    (date::date_of(day), hour as i32, minute as i32)
}

/// A date and a time some minutes later is there only where its day is representable.
pub proof fn law_what_lies_later_has_its_day(parts: (Date, i32, i32), minutes: int, later: (Date, i32, i32))
    requires
        date::is_day(later.0@),
        is_after(parts, minutes, later),
    ensures
        has_after(parts, minutes),
{
    let rest = later.1 * 60 + later.2;
    assert(0 <= rest < 1440);
    assert((later.0@ * 1440 + rest) / 1440 == later.0@);
}

/// A time that a clock shows is written as the other views write it.
pub proof fn law_written_wall_times(hour: i32, minute: i32, twelve_hour: bool)
    requires
        0 <= hour < 24,
        0 <= minute < 60,
    ensures
        wall_time(hour as int, minute as int, twelve_hour) == time_format::time_text(
            date::Time { seconds: (hour * 3600 + minute * 60) as u32, nanos: 0 },
            if twelve_hour {
                time_format::TimeFormatPreference::TwelveHour
            } else {
                time_format::TimeFormatPreference::TwentyFourHour
            },
            Seq::empty(),
        ),
{
    let seconds = hour * 3600 + minute * 60;
    assert(seconds / 3600 == hour && seconds / 60 % 60 == minute);
}

/// A length is named by its days, hours and minutes, which add up to it; those that are none are left
/// out.
pub proof fn law_named_lengths(days: nat, hours: nat, minutes: nat)
    requires
        hours < 24,
        minutes < 60,
    ensures
        ({
            let total = days * 1440 + hours * 60 + minutes;
            let named = duration_parts(total as int);
            &&& named.contains(text::decimal(days) + "d"@) || days == 0
            &&& named.contains(text::decimal(hours) + "hr"@) || hours == 0
            &&& named.contains(text::decimal(minutes) + "m"@) || minutes == 0
            &&& named.len() == (if days > 0 {
                1int
            } else {
                0
            }) + (if hours > 0 {
                1int
            } else {
                0
            }) + (if minutes > 0 {
                1int
            } else {
                0
            })
            &&& days > 0 ==> named[0] == text::decimal(days) + "d"@
            &&& minutes > 0 ==> named.last() == text::decimal(minutes) + "m"@
            &&& total > 0 ==> duration_words(total as int) == text::join(named, " "@)
        }),
        duration_words(0) == "0m"@,
        forall|negative: int| negative < 0 ==> #[trigger] duration_words(negative) == "0m"@,
{
    let total = (days * 1440 + hours * 60 + minutes) as int;
    assert(total / 1440 == days && total % 1440 / 60 == hours && total % 60 == minutes);
    let named = duration_parts(total);
    let d = if days > 0 {
        1int
    } else {
        0
    };
    let h = if hours > 0 {
        1int
    } else {
        0
    };
    if days > 0 {
        assert(named[0] == text::decimal(days) + "d"@);
    }
    if hours > 0 {
        assert(named[d] == text::decimal(hours) + "hr"@);
    }
    if minutes > 0 {
        assert(named[d + h] == text::decimal(minutes) + "m"@);
    }
}

/// Numbers that a clock does not show are brought to the nearest that it does.
pub proof fn law_brought_to_a_clock(parts: (Date, i32, i32))
    ensures
        are_parts(on_a_clock(parts)),
        are_parts(parts) ==> on_a_clock(parts) == parts,
        on_a_clock(parts).0 == parts.0,
        parts.1 < 0 ==> on_a_clock(parts).1 == 0,
        parts.1 > 23 ==> on_a_clock(parts).1 == 23,
        parts.2 < 0 ==> on_a_clock(parts).2 == 0,
        parts.2 > 59 ==> on_a_clock(parts).2 == 59,
        0 <= parts.1 <= 23 ==> on_a_clock(parts).1 == parts.1,
        0 <= parts.2 <= 59 ==> on_a_clock(parts).2 == parts.2,
{
}

/// The hours to choose from stand in rows of four where there are twelve, and of six where there are
/// twenty-four; the one chosen leads to the hour that it is chosen for.
pub proof fn law_hours_to_choose(choice: TimeChoice, i: int, hour: int)
    requires
        0 <= i < 24,
        0 <= hour < 24,
    ensures
        is_hour_choice(choice, i, false, hour) ==> {
            &&& choice.value == i && choice.label@ == text::two_digits(i)
            &&& choice.row * 6 + choice.column == i && 0 <= choice.column < 6
            &&& choice.selected <==> i == hour
        },
        i < 12 && is_hour_choice(choice, i, true, hour) ==> {
            &&& choice.value == i + 1 && choice.label@ == text::decimal((i + 1) as nat)
            &&& choice.row * 4 + choice.column == i && 0 <= choice.column < 4
            &&& choice.selected <==> (i + 1) % 12 == hour % 12
        },
{
}

/// The minutes to choose from are every fifth, in rows of four.
pub proof fn law_minutes_to_choose(choice: TimeChoice, i: int, minute: int)
    requires
        0 <= i < 12,
        is_minute_choice(choice, i, minute),
    ensures
        choice.value == 5 * i,
        choice.label@ == text::two_digits(5 * i),
        choice.row * 4 + choice.column == i,
        0 <= choice.column < 4,
        choice.selected <==> minute == 5 * i,
{
}

/// An hour that is chosen among twelve stays in its half of the day.
pub proof fn law_chosen_hours(chooser: DateTimeChooser, shown: int)
    requires
        chooser.wf(),
    ensures
        chooser.chosen_hour(shown, false) == shown,
        1 <= shown <= 12 ==> {
            &&& chooser.chosen_hour(shown, true) % 12 == shown % 12
            &&& chooser.chosen_hour(shown, true) / 12 == chooser.changing().1 as int / 12
        },
        chooser.active == Endpoint::Start ==> chooser.changing() == chooser.start,
        chooser.active == Endpoint::End ==> chooser.changing() == chooser.end,
{
}

/// Where the end is changed the start stays; where the start is changed it becomes what was chosen, and
/// the end moves along.
pub proof fn law_changed_ends(before: DateTimeChooser, after: DateTimeChooser, parts: (Date, i32, i32))
    requires
        after.changed_from(before, parts),
    ensures
        after.active == before.active,
        before.active == Endpoint::End ==> after.start == before.start && after.end == parts,
        before.active == Endpoint::Start ==> after.start == parts && minute_of(after.end) - minute_of(
            before.end,
        ) == minute_of(after.start) - minute_of(before.start),
{
}

/// The hours of the two halves of the day: those before noon, and those from noon on.
pub proof fn law_hours_of_the_halves(hour: int)
    ensures
        1 <= hour <= 12 ==> full_hour(hour, 0) % 12 == hour % 12 && 0 <= full_hour(hour, 0) < 12,
        1 <= hour <= 12 ==> full_hour(hour, 1) == full_hour(hour, 0) + 12,
        hour < 1 ==> full_hour(hour, 0) == 1,
        hour > 12 ==> full_hour(hour, 0) == 0,
{
}

} // verus!
