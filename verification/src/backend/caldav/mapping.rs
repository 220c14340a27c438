//! Reading events from resources.
use vstd::prelude::*;

use crate::backend::caldav::ical;
use crate::backend::caldav::ical::{DateView, IcalCalendar, IcalCalendarView, IcalDate, IcalEvent, IcalEventView, IcalPart, IcalProperty, PartView, PropertyView};
use crate::backend::caldav::{EventMappingError, MappedEvent, MappedView, MappingErrorView};
use crate::backend::occurrences;
use crate::date;
use crate::date::{Date, DateTime, DateTimeView, Time};
use crate::formats;
use crate::lines;
use crate::lists;
use crate::model;
use crate::model::{Event, EventSchedule, EventView, RecurrenceSpec, RecurrenceView, ReminderSpec, ReminderView, ScheduleView, Uuid};
use crate::rules;
use crate::text;
use crate::zone;

verus! {

/// An error for contents that are not supported.
fn unsupported(message: &str) -> (r: EventMappingError)
    ensures
        r@ == MappingErrorView::UnsupportedData(message@),
{
    EventMappingError::UnsupportedData(message.to_owned())
}

/// Whether two texts differ at most in the case of ASCII letters.
pub open spec fn same_case(a: Seq<char>, b: Seq<char>) -> bool {
    text::lower(a) == text::lower(b)
}

/// Whether two texts differ at most in the case of ASCII letters.
fn is_same_case(a: &str, b: &str) -> (r: bool)
    ensures
        r == same_case(a@, b@),
{
    text::same_ignoring_case(&text::chars_of(a), b)
}

// ---------------------------------------------------------------------------------------------
// Lengths of time
// ---------------------------------------------------------------------------------------------

/// How far a length of time was read.
pub struct LengthView {
    /// The seconds of the parts that are complete.
    pub total: int,
    /// The digits that were read and belong to no part yet, as a number.
    pub number: int,
    pub have_number: bool,
    /// Whether the mark before the parts of a day was read.
    pub in_time: bool,
    pub used_week: bool,
    pub used_date: bool,
}

/// Nothing was read of a length of time.
pub open spec fn length_start() -> LengthView {
    LengthView {
        total: 0,
        number: 0,
        have_number: false,
        in_time: false,
        used_week: false,
        used_date: false,
    }
}

/// The seconds that a part of a length of time counts, where the part can stand there: weeks and
/// days once, before the parts of a day, and not both with weeks last.
pub open spec fn unit_seconds(state: LengthView, c: char) -> Option<int> {
    if c == 'W' && !state.in_time && !state.used_date && !state.used_week {
        Some(604800)
    } else if c == 'D' && !state.in_time && !state.used_week && !state.used_date {
        Some(86400)
    } else if c == 'H' && state.in_time {
        Some(3600)
    } else if c == 'M' && state.in_time {
        Some(60)
    } else if c == 'S' && state.in_time {
        Some(1)
    } else {
        None
    }
}

/// How far a length of time was read with one more character; none where the character cannot stand
/// there, or a number does not fit.
pub open spec fn length_step(state: LengthView, c: char) -> Option<LengthView> {
    if text::is_digit(c) {
        let number = state.number * 10 + (c as int - '0' as int);
        if state.number * 10 <= i64::MAX && number <= i64::MAX {
            Some(LengthView { number, have_number: true, ..state })
        } else {
            None
        }
    } else if c == 'T' && !state.in_time && !state.used_week {
        Some(LengthView { in_time: true, have_number: false, ..state })
    } else if state.have_number {
        match unit_seconds(state, c) {
            Some(unit) => {
                let seconds = state.number * unit;
                if seconds <= i64::MAX && state.total + seconds <= i64::MAX {
                    Some(
                        LengthView {
                            total: state.total + seconds,
                            number: 0,
                            have_number: false,
                            used_week: state.used_week || c == 'W',
                            used_date: state.used_date || c == 'D',
                            ..state
                        },
                    )
                } else {
                    None
                }
            },
            None => None,
        }
    } else {
        None
    }
}

/// How far a length of time was read with more characters.
pub open spec fn length_read(state: LengthView, rest: Seq<char>) -> Option<LengthView>
    decreases rest.len(),
{
    if rest.len() == 0 {
        Some(state)
    } else {
        match length_step(state, rest[0]) {
            Some(next) => length_read(next, rest.drop_first()),
            None => None,
        }
    }
}

/// The seconds of a length of time that was read to its end: none where digits are left, nothing was
/// counted, or weeks stand beside parts of a day.
pub open spec fn length_seconds(state: LengthView) -> Option<int> {
    if state.have_number || state.total == 0 || (state.used_week && state.in_time) {
        None
    } else {
        Some(state.total)
    }
}

/// A text without one sign before it.
pub open spec fn unsigned(value: Seq<char>) -> Seq<char> {
    if value.len() > 0 && (value[0] == '-' || value[0] == '+') {
        value.drop_first()
    } else {
        value
    }
}

/// The seconds that a signed length of time writes, such as `-PT15M`.
pub open spec fn duration_of(value: Seq<char>) -> Option<int> {
    let length = unsigned(value);
    if length.len() > 1 && length[0] == 'P' {
        match length_read(length_start(), length.drop_first()) {
            Some(state) => match length_seconds(state) {
                Some(seconds) => if value[0] == '-' {
                    Some(-seconds)
                } else {
                    Some(seconds)
                },
                None => None,
            },
            None => None,
        }
    } else {
        None
    }
}

/// How far a length of time was read.
#[derive(Clone, Copy)]
struct Length {
    total: i64,
    number: i64,
    have_number: bool,
    in_time: bool,
    used_week: bool,
    used_date: bool,
}

impl View for Length {
    type V = LengthView;

    closed spec fn view(&self) -> LengthView {
        LengthView {
            total: self.total as int,
            number: self.number as int,
            have_number: self.have_number,
            in_time: self.in_time,
            used_week: self.used_week,
            used_date: self.used_date,
        }
    }
}

impl Length {
    /// Whether no number is negative.
    spec fn wf(self) -> bool {
        self.total >= 0 && self.number >= 0
    }

    /// How far a length of time was read with one more character.
    fn step(self, c: char) -> (r: Option<Length>)
        requires
            self.wf(),
        ensures
            lists::view_of(r) == length_step(self@, c),
            r matches Some(next) ==> next.wf(),
    {
        let mut next = self;
        if '0' <= c && c <= '9' {
            let digit: i64 = (c as u32 - '0' as u32) as i64;
            let number = match self.number.checked_mul(10) {
                Some(tens) => match tens.checked_add(digit) {
                    Some(number) => number,
                    None => {
                        return None;
                    },
                },
                None => {
                    return None;
                },
            };
            next.number = number;
            next.have_number = true;
            return Some(next);
        }
        if c == 'T' && !self.in_time && !self.used_week {
            next.in_time = true;
            next.have_number = false;
            return Some(next);
        }
        if !self.have_number {
            return None;
        }
        let unit: i64 = if c == 'W' && !self.in_time && !self.used_date && !self.used_week {
            next.used_week = true;
            604800
        } else if c == 'D' && !self.in_time && !self.used_week && !self.used_date {
            next.used_date = true;
            86400
        } else if c == 'H' && self.in_time {
            3600
        } else if c == 'M' && self.in_time {
            60
        } else if c == 'S' && self.in_time {
            1
        } else {
            return None;
        };
        proof {
            assert(self.number * unit >= 0) by (nonlinear_arith)
                requires
                    self.number >= 0,
                    unit > 0,
            ;
        }
        let seconds = match self.number.checked_mul(unit) {
            Some(seconds) => seconds,
            None => {
                return None;
            },
        };
        next.total = match self.total.checked_add(seconds) {
            Some(total) => total,
            None => {
                return None;
            },
        };
        next.number = 0;
        next.have_number = false;
        Some(next)
    }
}

/// The values of an optional number.
pub open spec fn number_view(r: Option<i64>) -> Option<int> {
    match r {
        Some(number) => Some(number as int),
        None => None,
    }
}

/// The seconds that a signed length of time writes.
pub fn parse_ical_duration(value: &str) -> (r: Option<i64>)
    ensures
        number_view(r) == duration_of(value@),
{
    let all = text::chars_of(value);
    if all.len() == 0 {
        return None;
    }
    let negative = all[0] == '-';
    let from: usize = if all[0] == '-' || all[0] == '+' {
        1
    } else {
        0
    };
    let length = text::slice(&all, from, all.len());
    assert(length@ =~= unsigned(value@));
    if length.len() <= 1 || length[0] != 'P' {
        return None;
    }
    let ghost rest = length@.drop_first();
    let mut state = Length {
        total: 0,
        number: 0,
        have_number: false,
        in_time: false,
        used_week: false,
        used_date: false,
    };
    assert(length@.skip(1) =~= rest);
    for i in 1..length.len()
        invariant
            length@.len() > 1,
            length@[0] == 'P',
            length@ == unsigned(value@),
            all@ == value@,
            rest == length@.drop_first(),
            negative == (value@[0] == '-'),
            state.wf(),
            length_read(length_start(), rest) == length_read(state@, length@.skip(i as int)),
    {
        assert(length@.skip(i as int)[0] == length@[i as int]);
        assert(length@.skip(i as int).drop_first() =~= length@.skip(i + 1));
        state = match state.step(length[i]) {
            Some(next) => next,
            None => {
                return None;
            },
        };
    }
    assert(length_read(length_start(), rest) == Some(state@));
    if state.have_number || state.total == 0 || (state.used_week && state.in_time) {
        return None;
    }
    Some(
        if negative {
            -state.total
        } else {
            state.total
        },
    )
}

// ---------------------------------------------------------------------------------------------
// Reminders
// ---------------------------------------------------------------------------------------------

/// Whether a component has a property with a key, single or in a list.
pub open spec fn part_has(part: PartView, key: Seq<char>) -> bool {
    ical::property_named(part.properties, key) is Some || part.lists.contains(key)
}

/// Why an alarm is not supported, by its properties other than the trigger.
pub open spec fn alarm_refusal(part: PartView) -> Option<Seq<char>> {
    if !(ical::value_named(part.properties, "ACTION"@) matches Some(action) && same_case(
        action,
        "DISPLAY"@,
    )) {
        Some("VALARM action is unsupported"@)
    } else if part.lists.contains("ACTION"@) || part.lists.contains("TRIGGER"@) || part.lists.contains(
        "DESCRIPTION"@,
    ) || part.has_parts {
        Some("VALARM has repeated required properties"@)
    } else if part_has(part, "REPEAT"@) || part_has(part, "DURATION"@) {
        Some("repeating VALARMs are unsupported"@)
    } else {
        None
    }
}

/// Why a trigger is not supported, by its parameters.
pub open spec fn trigger_refusal(trigger: PropertyView) -> Option<Seq<char>> {
    let kind = ical::param_named(trigger.params, "VALUE"@);
    let related = ical::param_named(trigger.params, "RELATED"@);
    if kind matches Some(kind) && same_case(kind, "DATE-TIME"@) {
        Some("absolute VALARM triggers are unsupported"@)
    } else if kind matches Some(kind) && !same_case(kind, "DURATION"@) {
        Some("VALARM trigger value type is malformed"@)
    } else if related matches Some(related) && same_case(related, "END"@) {
        Some("VALARM trigger must be related to START"@)
    } else if related matches Some(related) && !same_case(related, "START"@) {
        Some("VALARM trigger relationship is malformed"@)
    } else {
        None
    }
}

/// The reminder that an alarm stands for, or why it is not supported.
pub open spec fn alarm_of(part: PartView) -> Result<ReminderView, Seq<char>> {
    match alarm_refusal(part) {
        Some(message) => Err(message),
        None => match ical::property_named(part.properties, "TRIGGER"@) {
            None => Err("VALARM has no TRIGGER"@),
            Some(trigger) => match trigger_refusal(trigger) {
                Some(message) => Err(message),
                None => match duration_of(trigger.value) {
                    None => Err("VALARM trigger is malformed"@),
                    Some(seconds) => if seconds >= 0 {
                        Err("VALARM trigger must be a negative whole-second duration"@)
                    } else {
                        match ical::value_named(part.properties, "DESCRIPTION"@) {
                            None => Err("DISPLAY VALARM has no DESCRIPTION"@),
                            Some(description) => Ok(
                                ReminderView { seconds_before_start: (-seconds) as i64, description },
                            ),
                        }
                    },
                },
            },
        },
    }
}

/// Whether a component has a property with a key.
fn check_part_has(part: &IcalPart, key: &str) -> (r: bool)
    ensures
        r == part_has(part@, key@),
{
    ical::find_property(&part.properties, key).is_some() || ical::has_key(&part.lists, key)
}

/// The values of an optional refusal.
pub open spec fn refusal_view(r: Option<&'static str>) -> Option<Seq<char>> {
    match r {
        Some(message) => Some(message@),
        None => None,
    }
}

/// Why an alarm is not supported, by its properties other than the trigger.
fn refuse_alarm(part: &IcalPart) -> (r: Option<&'static str>)
    ensures
        refusal_view(r) == alarm_refusal(part@),
{
    let display = match ical::find_value(&part.properties, "ACTION") {
        Some(action) => is_same_case(action.as_str(), "DISPLAY"),
        None => false,
    };
    if !display {
        return Some("VALARM action is unsupported");
    }
    if ical::has_key(&part.lists, "ACTION") || ical::has_key(&part.lists, "TRIGGER") || ical::has_key(
        &part.lists,
        "DESCRIPTION",
    ) || part.has_parts {
        return Some("VALARM has repeated required properties");
    }
    if check_part_has(part, "REPEAT") || check_part_has(part, "DURATION") {
        return Some("repeating VALARMs are unsupported");
    }
    None
}

/// Why a trigger is not supported, by its parameters.
fn refuse_trigger(trigger: &IcalProperty) -> (r: Option<&'static str>)
    ensures
        refusal_view(r) == trigger_refusal(trigger@),
{
    if let Some(kind) = ical::find_param(&trigger.params, "VALUE") {
        if is_same_case(kind.as_str(), "DATE-TIME") {
            return Some("absolute VALARM triggers are unsupported");
        }
        if !is_same_case(kind.as_str(), "DURATION") {
            return Some("VALARM trigger value type is malformed");
        }
    }
    if let Some(related) = ical::find_param(&trigger.params, "RELATED") {
        if is_same_case(related.as_str(), "END") {
            return Some("VALARM trigger must be related to START");
        }
        if !is_same_case(related.as_str(), "START") {
            return Some("VALARM trigger relationship is malformed");
        }
    }
    None
}

/// The values of a reminder, or why there is none.
pub open spec fn reminder_view(r: Result<ReminderSpec, EventMappingError>) -> Result<
    ReminderView,
    MappingErrorView,
> {
    match r {
        Ok(reminder) => Ok(reminder@),
        Err(error) => Err(error@),
    }
}

/// What a reason makes of an outcome.
pub open spec fn refused<T>(outcome: Result<T, Seq<char>>) -> Result<T, MappingErrorView> {
    match outcome {
        Ok(value) => Ok(value),
        Err(message) => Err(MappingErrorView::UnsupportedData(message)),
    }
}

/// A length of time fits in sixty-four bits.
proof fn lemma_length_fits(state: LengthView, rest: Seq<char>)
    requires
        0 <= state.total <= i64::MAX,
        0 <= state.number,
    ensures
        length_read(state, rest) matches Some(end) ==> 0 <= end.total <= i64::MAX,
    decreases rest.len(),
{
    if rest.len() > 0 {
        match length_step(state, rest[0]) {
            Some(next) => {
                if state.have_number && unit_seconds(state, rest[0]) is Some {
                    let unit = unit_seconds(state, rest[0])->0;
                    assert(state.number * unit >= 0) by (nonlinear_arith)
                        requires
                            state.number >= 0,
                            unit > 0,
                    ;
                }
                lemma_length_fits(next, rest.drop_first());
            },
            None => {},
        }
    }
}

/// The reminder that an alarm stands for.
pub fn map_alarm(part: &IcalPart) -> (r: Result<ReminderSpec, EventMappingError>)
    ensures
        reminder_view(r) == refused(alarm_of(part@)),
{
    if let Some(message) = refuse_alarm(part) {
        return Err(unsupported(message));
    }
    let trigger = match ical::find_property(&part.properties, "TRIGGER") {
        Some(trigger) => trigger,
        None => {
            return Err(unsupported("VALARM has no TRIGGER"));
        },
    };
    if let Some(message) = refuse_trigger(trigger) {
        return Err(unsupported(message));
    }
    let seconds = match parse_ical_duration(trigger.value.as_str()) {
        Some(seconds) => seconds,
        None => {
            return Err(unsupported("VALARM trigger is malformed"));
        },
    };
    proof {
        let length = unsigned(trigger@.value);
        lemma_length_fits(length_start(), length.drop_first());
    }
    if seconds >= 0 || seconds == i64::MIN {
        return Err(unsupported("VALARM trigger must be a negative whole-second duration"));
    }
    match ical::find_value(&part.properties, "DESCRIPTION") {
        Some(description) => Ok(ReminderSpec { seconds_before_start: -seconds, description }),
        None => Err(unsupported("DISPLAY VALARM has no DESCRIPTION")),
    }
}

/// The reminders that the components in an event stand for, up to the first that is not supported.
pub open spec fn reminders_of(parts: Seq<PartView>) -> Result<Seq<ReminderView>, Seq<char>>
    decreases parts.len(),
{
    if parts.len() == 0 {
        Ok(seq![])
    } else {
        match reminders_of(parts.drop_last()) {
            Err(message) => Err(message),
            Ok(before) => if same_case(parts.last().kind, "VALARM"@) {
                match alarm_of(parts.last()) {
                    Ok(reminder) => Ok(before.push(reminder)),
                    Err(message) => Err(message),
                }
            } else {
                Err("nested non-VALARM components are not supported"@)
            },
        }
    }
}

/// What refuses the first components of a list refuses the list.
proof fn lemma_reminders_refused(parts: Seq<PartView>, n: int)
    requires
        0 <= n <= parts.len(),
        reminders_of(parts.take(n)) is Err,
    ensures
        reminders_of(parts) == reminders_of(parts.take(n)),
    decreases parts.len(),
{
    if n == parts.len() {
        assert(parts.take(n) =~= parts);
    } else {
        assert(parts.drop_last().take(n) =~= parts.take(n));
        lemma_reminders_refused(parts.drop_last(), n);
    }
}

/// The values of a list of reminders, or why there is none.
pub open spec fn reminders_result(r: Result<Vec<ReminderSpec>, EventMappingError>) -> Result<
    Seq<ReminderView>,
    MappingErrorView,
> {
    match r {
        Ok(reminders) => Ok(model::reminder_views(reminders@)),
        Err(error) => Err(error@),
    }
}

/// The reminders that the components in an event stand for.
fn map_reminders(parts: &Vec<IcalPart>) -> (r: Result<Vec<ReminderSpec>, EventMappingError>)
    ensures
        reminders_result(r) == refused(reminders_of(lists::views_of(parts@))),
{
    let ghost all = lists::views_of(parts@);
    let mut reminders: Vec<ReminderSpec> = Vec::new();
    assert(model::reminder_views(reminders@) =~= seq![]);
    assert(reminders_of(all.take(0)) == Ok::<Seq<ReminderView>, Seq<char>>(
        model::reminder_views(reminders@),
    ));
    for i in 0..parts.len()
        invariant
            all == lists::views_of(parts@),
            reminders_of(all.take(i as int)) == Ok::<Seq<ReminderView>, Seq<char>>(
                model::reminder_views(reminders@),
            ),
    {
        let part = &parts[i];
        let ghost before = reminders@;
        proof {
            lists::lemma_views_take(parts@, i as int);
        }
        if !is_same_case(part.kind.as_str(), "VALARM") {
            proof {
                lemma_reminders_refused(all, i + 1);
            }
            return Err(unsupported("nested non-VALARM components are not supported"));
        }
        match map_alarm(part) {
            Ok(reminder) => {
                reminders.push(reminder);
                assert(model::reminder_views(reminders@) =~= model::reminder_views(before).push(
                    reminder@,
                ));
            },
            Err(error) => {
                proof {
                    lemma_reminders_refused(all, i + 1);
                }
                return Err(error);
            },
        }
    }
    proof {
        lists::lemma_views_all(parts@);
    }
    Ok(reminders)
}

// ---------------------------------------------------------------------------------------------
// Schedules
// ---------------------------------------------------------------------------------------------

/// The instant of a date and time with its zone, or why there is none.
pub open spec fn instant_of(value: DateView) -> Result<(DateTime, Option<Seq<char>>), MappingErrorView> {
    match value {
        DateView::Utc(seconds, nanos) => {
            let v = DateTimeView { seconds: seconds as int, nanos: nanos as int, offset: 0 };
            if v.valid() {
                Ok((date::date_time_of(v), None))
            } else {
                Err(MappingErrorView::UnsupportedData("date is out of range"@))
            }
        },
        DateView::Zoned(day, second, nanos, name) => if !zone::zone_known(name) {
            Err(MappingErrorView::UnsupportedData("unknown TZID "@ + name))
        } else {
            match zone::local_instant(name, day as int, Time { seconds: second, nanos }) {
                Some(v) => Ok((date::date_time_of(v), Some(name))),
                None => Err(
                    MappingErrorView::UnsupportedData("TZID value is ambiguous or does not exist"@),
                ),
            }
        },
        DateView::Floating | DateView::Date(_) => Err(MappingErrorView::FloatingTime),
    }
}

/// The values of an instant with its zone, or why there is none.
pub open spec fn instant_view(r: Result<(DateTime, Option<String>), EventMappingError>) -> Result<
    (DateTime, Option<Seq<char>>),
    MappingErrorView,
> {
    match r {
        Ok((instant, timezone)) => Ok((instant, model::text_view(timezone))),
        Err(error) => Err(error@),
    }
}

/// The instant of a date and time with its zone.
pub fn map_datetime(value: &IcalDate) -> (r: Result<(DateTime, Option<String>), EventMappingError>)
    requires
        value@.valid(),
        !(value is Date),
    ensures
        instant_view(r) == instant_of(value@),
{
    match value {
        IcalDate::Utc(seconds, nanos) => match DateTime::new(*seconds, *nanos, 0) {
            Some(instant) => {
                proof {
                    date::lemma_date_time_of_view(instant);
                }
                Ok((instant, None))
            },
            None => Err(unsupported("date is out of range")),
        },
        IcalDate::Zoned(day, second, nanos, name) => {
            if !zone::is_known(name.as_str()) {
                return Err(
                    EventMappingError::UnsupportedData(text::joined("unknown TZID ", name.as_str())),
                );
            }
            let day = match Date::from_days(*day as i64) {
                Some(day) => day,
                None => {
                    return Err(unsupported("TZID value is ambiguous or does not exist"));
                },
            };
            match zone::instant_in_zone(name.as_str(), &day, Time { seconds: *second, nanos: *nanos }) {
                Some(instant) => {
                    proof {
                        date::lemma_date_time_of_view(instant);
                    }
                    Ok((instant, Some(name.clone())))
                },
                None => Err(unsupported("TZID value is ambiguous or does not exist")),
            }
        },
        IcalDate::Floating => Err(EventMappingError::FloatingTime),
        IcalDate::Date(_) => Err(EventMappingError::FloatingTime),
    }
}

/// The schedule from one day to another, or why there is none. Without an end it is one day.
pub open spec fn days_of(start: i32, end: Option<DateView>) -> Result<ScheduleView, MappingErrorView> {
    let last = match end {
        None => if date::is_day(start + 1) {
            Ok((start + 1) as i32)
        } else {
            Err(MappingErrorView::UnsupportedData("all-day start has no following date"@))
        },
        Some(DateView::Date(day)) => Ok(day),
        Some(_) => Err(
            MappingErrorView::UnsupportedData("DTSTART and DTEND have different value types"@),
        ),
    };
    match last {
        Ok(last) => if last <= start {
            Err(MappingErrorView::UnsupportedData("all-day range is not increasing"@))
        } else {
            Ok(
                ScheduleView::AllDay {
                    start_date: date::date_of(start as int),
                    end_date_exclusive: date::date_of(last as int),
                },
            )
        },
        Err(error) => Err(error),
    }
}

/// The schedule from one instant to another, or why there is none.
pub open spec fn times_of(start: DateView, end: Option<DateView>) -> Result<ScheduleView, MappingErrorView> {
    match end {
        None => Err(MappingErrorView::UnsupportedData("timed event has no DTEND"@)),
        Some(DateView::Date(_)) => Err(
            MappingErrorView::UnsupportedData("DTSTART and DTEND have different value types"@),
        ),
        Some(end) => match instant_of(start) {
            Err(error) => Err(error),
            Ok((first, timezone)) => match instant_of(end) {
                Err(error) => Err(error),
                Ok((last, other)) => if timezone != other {
                    Err(
                        MappingErrorView::UnsupportedData(
                            "DTSTART and DTEND use different time zones"@,
                        ),
                    )
                } else if !first@.before(last@) {
                    Err(MappingErrorView::UnsupportedData("timed range is not increasing"@))
                } else {
                    Ok(ScheduleView::Timed { start: first, end: last, timezone })
                },
            },
        },
    }
}

/// The schedule that a start and an end make, or why there is none.
pub open spec fn schedule_of(start: DateView, end: Option<DateView>) -> Result<
    ScheduleView,
    MappingErrorView,
> {
    match start {
        DateView::Date(day) => days_of(day, end),
        _ => times_of(start, end),
    }
}

/// The values of a schedule, or why there is none.
pub open spec fn schedule_result(r: Result<EventSchedule, EventMappingError>) -> Result<
    ScheduleView,
    MappingErrorView,
> {
    match r {
        Ok(schedule) => Ok(schedule@),
        Err(error) => Err(error@),
    }
}

/// The schedule from one day to another.
fn map_days(start: i32, end: &Option<IcalDate>) -> (r: Result<EventSchedule, EventMappingError>)
    requires
        date::is_day(start as int),
        lists::view_of(*end) matches Some(end) ==> end.valid(),
    ensures
        schedule_result(r) == days_of(start, lists::view_of(*end)),
{
    let first = Date::from_days(start as i64);
    let last = match end {
        None => Date::from_days(start as i64 + 1),
        Some(IcalDate::Date(day)) => Date::from_days(*day as i64),
        Some(_) => {
            return Err(unsupported("DTSTART and DTEND have different value types"));
        },
    };
    match (first, last) {
        (Some(start_date), Some(end_date_exclusive)) => {
            if !start_date.before(&end_date_exclusive) {
                return Err(unsupported("all-day range is not increasing"));
            }
            proof {
                date::lemma_date_of_day(start_date);
                date::lemma_date_of_day(end_date_exclusive);
            }
            Ok(EventSchedule::AllDay { start_date, end_date_exclusive })
        },
        _ => Err(unsupported("all-day start has no following date")),
    }
}

/// The schedule that a start and an end make.
pub fn map_schedule(start: &IcalDate, end: &Option<IcalDate>) -> (r: Result<
    EventSchedule,
    EventMappingError,
>)
    requires
        start@.valid(),
        lists::view_of(*end) matches Some(end) ==> end.valid(),
    ensures
        schedule_result(r) == schedule_of(start@, lists::view_of(*end)),
{
    if let IcalDate::Date(day) = start {
        return map_days(*day, end);
    }
    let end = match end {
        None => {
            return Err(unsupported("timed event has no DTEND"));
        },
        Some(IcalDate::Date(_)) => {
            return Err(unsupported("DTSTART and DTEND have different value types"));
        },
        Some(end) => end,
    };
    let (first, timezone): (DateTime, Option<String>) = match map_datetime(start) {
        Ok(mapped) => mapped,
        Err(error) => {
            return Err(error);
        },
    };
    let (last, other): (DateTime, Option<String>) = match map_datetime(end) {
        Ok(mapped) => mapped,
        Err(error) => {
            return Err(error);
        },
    };
    if !model::same_optional_text(&timezone, &other) {
        return Err(unsupported("DTSTART and DTEND use different time zones"));
    }
    if !first.before(&last) {
        return Err(unsupported("timed range is not increasing"));
    }
    Ok(EventSchedule::Timed { start: first, end: last, timezone })
}

// ---------------------------------------------------------------------------------------------
// Recurrences
// ---------------------------------------------------------------------------------------------

/// A line without the carriage returns at its end.
pub open spec fn without_returns(line: Seq<char>) -> Seq<char>
    decreases line.len(),
{
    if line.len() > 0 && line.last() == '\r' {
        without_returns(line.drop_last())
    } else {
        line
    }
}

/// A line without the carriage returns at its end.
fn cut_returns(line: &Vec<char>) -> (r: Vec<char>)
    ensures
        r@ == without_returns(line@),
{
    let mut to: usize = line.len();
    assert(line@.take(line@.len() as int) =~= line@);
    while to > 0 && line[to - 1] == '\r'
        invariant
            to <= line@.len(),
            without_returns(line@) == without_returns(line@.take(to as int)),
        decreases to,
    {
        assert(line@.take(to as int).drop_last() =~= line@.take(to - 1));
        to -= 1;
    }
    let cut = text::slice(line, 0, to);
    assert(cut@ =~= line@.take(to as int));
    cut
}

/// The lines that stand in events, where `inside` says whether the first line does.
pub open spec fn event_lines(all: Seq<Seq<char>>, inside: bool) -> Seq<Seq<char>>
    decreases all.len(),
{
    if all.len() == 0 {
        seq![]
    } else {
        let line = without_returns(all[0]);
        if same_case(line, "BEGIN:VEVENT"@) {
            event_lines(all.drop_first(), true)
        } else if same_case(line, "END:VEVENT"@) {
            event_lines(all.drop_first(), false)
        } else if inside {
            seq![line] + event_lines(all.drop_first(), inside)
        } else {
            event_lines(all.drop_first(), inside)
        }
    }
}

/// The lines that stand in events.
fn lines_in_events(all: &Vec<Vec<char>>) -> (r: Vec<Vec<char>>)
    ensures
        text::char_views(r@) == event_lines(text::char_views(all@), false),
{
    let ghost views = text::char_views(all@);
    let mut inside = false;
    let mut out: Vec<Vec<char>> = Vec::new();
    assert(views.skip(0) =~= views);
    assert(text::char_views(out@) + event_lines(views, false) =~= event_lines(views, false));
    for i in 0..all.len()
        invariant
            views == text::char_views(all@),
            text::char_views(out@) + event_lines(views.skip(i as int), inside) == event_lines(
                views,
                false,
            ),
    {
        let line = cut_returns(&all[i]);
        let ghost before = text::char_views(out@);
        proof {
            assert(views.skip(i as int)[0] == all@[i as int]@);
            assert(views.skip(i as int).drop_first() =~= views.skip(i + 1));
        }
        if text::same_ignoring_case(&line, "BEGIN:VEVENT") {
            inside = true;
        } else if text::same_ignoring_case(&line, "END:VEVENT") {
            inside = false;
        } else if inside {
            let ghost view = line@;
            out.push(line);
            proof {
                let rest = event_lines(views.skip(i + 1), inside);
                assert(text::char_views(out@) =~= before.push(view));
                assert(before.push(view) + rest =~= before + (seq![view] + rest));
            }
        }
    }
    assert(text::char_views(out@) + seq![] =~= text::char_views(out@));
    out
}

/// Whether a text holds another.
pub open spec fn holds_text(s: Seq<char>, part: Seq<char>) -> bool {
    exists|i: int|
        0 <= i <= s.len() - part.len() && #[trigger] s.subrange(i, i + part.len()) == part
}

/// Whether a text holds another.
fn check_holds_text(s: &Vec<char>, part: &str) -> (r: bool)
    ensures
        r == holds_text(s@, part@),
{
    let wanted = text::chars_of(part);
    let total: usize = s.len();
    if total < wanted.len() {
        return false;
    }
    let last: usize = total - wanted.len();
    let mut i: usize = 0;
    while i <= last
        invariant
            wanted@ == part@,
            total == s@.len(),
            last == total - wanted@.len(),
            i <= last + 1,
            forall|k: int| 0 <= k < i ==> #[trigger] s@.subrange(k, k + part@.len()) != part@,
        decreases last + 1 - i,
    {
        let piece = text::slice(s, i, i + wanted.len());
        assert(piece@ =~= s@.subrange(i as int, i + part@.len()));
        if text::same_chars(&piece, &wanted) {
            return true;
        }
        if i == last {
            return false;
        }
        i += 1;
    }
    false
}

/// Whether a line holds periods.
pub open spec fn has_period(line: Seq<char>) -> bool {
    holds_text(text::upper(line), "VALUE=PERIOD"@)
}

/// Whether a line of a list holds periods.
pub open spec fn some_has_period(all: Seq<Seq<char>>) -> bool {
    exists|i: int| 0 <= i < all.len() && has_period(#[trigger] all[i])
}

/// Whether a line of a list holds periods.
fn check_periods(all: &Vec<String>) -> (r: bool)
    ensures
        r == some_has_period(text::views(all@)),
{
    let ghost views = text::views(all@);
    for i in 0..all.len()
        invariant
            views == text::views(all@),
            forall|k: int| 0 <= k < i ==> !has_period(#[trigger] views[k]),
    {
        assert(views[i as int] == all@[i as int]@);
        if check_holds_text(&text::upper_chars(&text::chars_of(all[i].as_str())), "VALUE=PERIOD") {
            return true;
        }
    }
    false
}

/// The start of an event as a line: whole days begin at midnight.
pub open spec fn start_line(schedule: ScheduleView) -> Option<Seq<char>> {
    match schedule {
        ScheduleView::AllDay { start_date, .. } => Some(
            "DTSTART:"@ + formats::compact_date(start_date@) + "T000000"@,
        ),
        ScheduleView::Timed { start, timezone, .. } => occurrences::timed_start_line(start@, timezone),
    }
}

/// The start of an event as a line; none where its zone is not known.
pub fn recurrence_dtstart(schedule: &EventSchedule) -> (r: Option<String>)
    ensures
        model::text_view(r) == start_line(schedule@),
{
    match schedule {
        EventSchedule::AllDay { start_date, .. } => {
            let mut line = text::joined("DTSTART:", formats::compact_date_text(start_date).as_str());
            line.append("T000000");
            Some(line)
        },
        EventSchedule::Timed { start, timezone, .. } => occurrences::make_timed_start_line(
            start,
            timezone,
        ),
    }
}

/// The text by which a recurrence is held against its start: each line ended by a line feed.
pub open spec fn validation_text(schedule: ScheduleView, recurrence: RecurrenceView) -> Option<Seq<char>> {
    match start_line(schedule) {
        Some(line) => Some(occurrences::source_text(line, recurrence).push('\n')),
        None => None,
    }
}

/// The text by which a recurrence is held against its start.
pub fn make_validation_text(schedule: &EventSchedule, recurrence: &RecurrenceSpec) -> (r: Option<String>)
    ensures
        model::text_view(r) == validation_text(schedule@, recurrence@),
{
    match recurrence_dtstart(schedule) {
        Some(line) => {
            let mut source = occurrences::make_source(line, recurrence);
            source.push('\n');
            Some(source)
        },
        None => None,
    }
}

/// Why a recurrence is refused beside a start, where `valid` says whether its text is accepted.
pub open spec fn recurrence_refusal(
    schedule: ScheduleView,
    recurrence: RecurrenceView,
    valid: bool,
) -> Option<Seq<char>> {
    if start_line(schedule) is None {
        Some("unknown event timezone"@)
    } else if !valid {
        Some("invalid recurrence properties"@)
    } else {
        None
    }
}

/// Why a recurrence is refused beside a start.
pub fn validate_recurrence(schedule: &EventSchedule, recurrence: &RecurrenceSpec) -> (r: Option<
    &'static str,
>)
    ensures
        exists|valid: bool|
            #[trigger] rules::is_verdict(valid, validation_text(schedule@, recurrence@))
                && refusal_view(r) == recurrence_refusal(schedule@, recurrence@, valid),
{
    let source = make_validation_text(schedule, recurrence);
    let valid = rules::is_accepted(&source);
    assert(rules::is_verdict(valid, validation_text(schedule@, recurrence@)));
    if source.is_none() {
        Some("unknown event timezone")
    } else if !valid {
        Some("invalid recurrence properties")
    } else {
        None
    }
}

/// Whether a recurrence holds nothing.
pub open spec fn is_empty_recurrence(recurrence: RecurrenceView) -> bool {
    recurrence.rrule.len() == 0 && recurrence.rdate.len() == 0 && recurrence.exdate.len() == 0
}

/// Whether a recurrence is of a kind that is not supported: of more than one rule, or with periods.
pub open spec fn is_unsupported(recurrence: RecurrenceView) -> bool {
    recurrence.rrule.len() > 1 || some_has_period(recurrence.rdate) || some_has_period(
        recurrence.exdate,
    )
}

/// The recurrence properties in the events of a text.
pub open spec fn written_recurrence(content: Seq<char>) -> RecurrenceView {
    lines::recurrence_of(event_lines(lines::lines(content), false))
}

/// The recurrence of an event, by the recurrence properties that were found, where `valid` says
/// whether their text is accepted.
pub open spec fn recurrence_of_event(
    recurrence: RecurrenceView,
    schedule: ScheduleView,
    valid: bool,
) -> Result<Option<RecurrenceView>, MappingErrorView> {
    if is_empty_recurrence(recurrence) {
        Ok(None)
    } else if is_unsupported(recurrence) {
        Err(MappingErrorView::UnsupportedRecurrence)
    } else {
        match recurrence_refusal(schedule, recurrence, valid) {
            Some(message) => Err(MappingErrorView::UnsupportedData(message)),
            None => Ok(Some(recurrence)),
        }
    }
}

/// The values of an optional recurrence, or why there is none.
pub open spec fn recurrence_result(r: Result<Option<RecurrenceSpec>, EventMappingError>) -> Result<
    Option<RecurrenceView>,
    MappingErrorView,
> {
    match r {
        Ok(recurrence) => Ok(model::recurrence_view(recurrence)),
        Err(error) => Err(error@),
    }
}

/// The recurrence properties in the events of a text.
fn find_recurrence(content: &str) -> (r: RecurrenceSpec)
    ensures
        r@ == written_recurrence(content@),
{
    let all = lines::split_lines(&text::chars_of(content));
    lines::collect_recurrence(&lines_in_events(&all))
}

/// The recurrence of an event.
pub fn recurrence_given(content: &str, schedule: &EventSchedule, valid: bool) -> (r: Result<
    Option<RecurrenceSpec>,
    EventMappingError,
>)
    ensures
        recurrence_result(r) == recurrence_of_event(written_recurrence(content@), schedule@, valid),
{
    let recurrence = find_recurrence(content);
    proof {
        assert(recurrence@.rrule.len() == recurrence.rrule@.len());
        assert(recurrence@.rdate.len() == recurrence.rdate@.len());
        assert(recurrence@.exdate.len() == recurrence.exdate@.len());
    }
    if recurrence.rrule.len() == 0 && recurrence.rdate.len() == 0 && recurrence.exdate.len() == 0 {
        return Ok(None);
    }
    if recurrence.rrule.len() > 1 || check_periods(&recurrence.rdate) || check_periods(
        &recurrence.exdate,
    ) {
        return Err(EventMappingError::UnsupportedRecurrence);
    }
    if recurrence_dtstart(schedule).is_none() {
        return Err(unsupported("unknown event timezone"));
    }
    if !valid {
        return Err(unsupported("invalid recurrence properties"));
    }
    Ok(Some(recurrence))
}

/// The text that must be accepted for the recurrence of an event, where there is one.
pub open spec fn text_to_accept(content: Seq<char>, schedule: ScheduleView) -> Option<Seq<char>> {
    let recurrence = written_recurrence(content);
    if is_empty_recurrence(recurrence) || is_unsupported(recurrence) {
        None
    } else {
        validation_text(schedule, recurrence)
    }
}

/// The recurrence of an event, read from the lines of its text.
pub fn recurrence_spec(content: &str, schedule: &EventSchedule) -> (r: Result<
    Option<RecurrenceSpec>,
    EventMappingError,
>)
    ensures
        exists|valid: bool|
            #[trigger] rules::is_verdict(valid, text_to_accept(content@, schedule@))
                && recurrence_result(r) == recurrence_of_event(
                written_recurrence(content@),
                schedule@,
                valid,
            ),
{
    let recurrence = find_recurrence(content);
    let valid = rules::is_accepted(&make_validation_text(schedule, &recurrence));
    let ghost counted = valid && text_to_accept(content@, schedule@) is Some;
    assert(rules::is_verdict(counted, text_to_accept(content@, schedule@)));
    recurrence_given(content, schedule, valid)
}

/// A recurrence that was read holds the lines of its properties, each on one line.
pub proof fn law_read_recurrence_is_proper(content: Seq<char>)
    ensures
        crate::backend::rows::is_proper(written_recurrence(content)),
{
    let all = event_lines(lines::lines(content), false);
    let recurrence = written_recurrence(content);
    text::lemma_split(content, '\n');
    lemma_lines_hold_no_feed(content);
    lemma_event_lines_are_lines(lines::lines(content), false);
    lemma_filtered_lines(all, "RRULE"@);
    lemma_filtered_lines(all, "RDATE"@);
    lemma_filtered_lines(all, "EXDATE"@);
    let joined = crate::backend::rows::all_lines(recurrence);
    assert forall|i: int| 0 <= i < joined.len() implies crate::backend::rows::is_one_line(
        #[trigger] joined[i],
    ) by {
        let (a, b, c) = (recurrence.rrule, recurrence.rdate, recurrence.exdate);
        if i < a.len() {
            assert(joined[i] == a[i]);
        } else if i < a.len() + b.len() {
            assert(joined[i] == b[i - a.len()]);
        } else {
            assert(joined[i] == c[i - a.len() - b.len()]);
        }
    }
}

proof fn lemma_lines_hold_no_feed(content: Seq<char>)
    ensures
        forall|i: int| 0 <= i < lines::lines(content).len() ==> !(#[trigger] lines::lines(content)[i]).contains('\n'),
{
    text::lemma_split(content, '\n');
    let pieces = text::split(content, '\n');
    let all = lines::lines(content);
    assert forall|i: int| 0 <= i < all.len() implies !(#[trigger] all[i]).contains('\n') by {
        assert(!pieces[i].contains('\n'));
        if all[i].contains('\n') {
            let k = choose|k: int| 0 <= k < all[i].len() && all[i][k] == '\n';
            assert(pieces[i][k] == '\n');
        }
    }
}

proof fn lemma_without_returns(line: Seq<char>)
    ensures
        lines::without_return(without_returns(line)) == without_returns(line),
        !line.contains('\n') ==> !without_returns(line).contains('\n'),
    decreases line.len(),
{
    if line.len() > 0 && line.last() == '\r' {
        lemma_without_returns(line.drop_last());
        if !line.contains('\n') && line.drop_last().contains('\n') {
            let k = choose|k: int| 0 <= k < line.drop_last().len() && line.drop_last()[k] == '\n';
            assert(line[k] == '\n');
        }
    }
}

proof fn lemma_event_lines_are_lines(all: Seq<Seq<char>>, inside: bool)
    requires
        forall|i: int| 0 <= i < all.len() ==> !(#[trigger] all[i]).contains('\n'),
    ensures
        forall|i: int|
            0 <= i < event_lines(all, inside).len() ==> crate::backend::rows::is_one_line(
                #[trigger] event_lines(all, inside)[i],
            ),
    decreases all.len(),
{
    if all.len() > 0 {
        let rest = all.drop_first();
        assert forall|i: int| 0 <= i < rest.len() implies !(#[trigger] rest[i]).contains('\n') by {
            assert(rest[i] == all[i + 1]);
        }
        lemma_event_lines_are_lines(rest, true);
        lemma_event_lines_are_lines(rest, false);
        lemma_without_returns(all[0]);
        let line = without_returns(all[0]);
        assert(!all[0].contains('\n'));
        assert(crate::backend::rows::is_one_line(line));
        let kept = event_lines(all, inside);
        assert forall|i: int| 0 <= i < kept.len() implies crate::backend::rows::is_one_line(
            #[trigger] kept[i],
        ) by {
            if same_case(line, "BEGIN:VEVENT"@) {
                assert(kept == event_lines(rest, true));
            } else if same_case(line, "END:VEVENT"@) {
                assert(kept == event_lines(rest, false));
            } else if inside {
                let after = event_lines(rest, true);
                assert(kept == seq![line] + after);
                if i > 0 {
                    assert(kept[i] == after[i - 1]);
                } else {
                    assert(kept[i] == line);
                }
            } else {
                assert(kept == event_lines(rest, false));
            }
        }
    }
}

proof fn lemma_filtered_lines(all: Seq<Seq<char>>, name: Seq<char>)
    requires
        forall|i: int| 0 <= i < all.len() ==> crate::backend::rows::is_one_line(#[trigger] all[i]),
    ensures
        lines::all_write(all.filter(lines::writes(name)), name),
        forall|i: int|
            0 <= i < all.filter(lines::writes(name)).len() ==> crate::backend::rows::is_one_line(
                #[trigger] all.filter(lines::writes(name))[i],
            ),
    decreases all.len(),
{
    reveal(Seq::filter);
    if all.len() > 0 {
        let before = all.drop_last();
        assert forall|i: int| 0 <= i < before.len() implies crate::backend::rows::is_one_line(
            #[trigger] before[i],
        ) by {
            assert(before[i] == all[i]);
        }
        lemma_filtered_lines(before, name);
        assert(crate::backend::rows::is_one_line(all[all.len() - 1]));
        let kept = before.filter(lines::writes(name));
        let filtered = all.filter(lines::writes(name));
        assert forall|i: int| 0 <= i < filtered.len() implies lines::property_name(
            #[trigger] filtered[i],
        ) == Some(name) && crate::backend::rows::is_one_line(filtered[i]) by {
            if i < kept.len() {
                assert(filtered[i] == kept[i]);
            }
        }
    }
}

// ---------------------------------------------------------------------------------------------
// Events
// ---------------------------------------------------------------------------------------------

/// The value of a property of an event, or nothing where it has none.
pub open spec fn text_of(event: IcalEventView, key: Seq<char>) -> Seq<char> {
    match ical::value_named(event.properties, key) {
        Some(value) => value,
        None => seq![],
    }
}

/// The value of a property of an event.
fn read_text(event: &IcalEvent, key: &str) -> (r: String)
    ensures
        r@ == text_of(event@, key@),
{
    match ical::find_value(&event.properties, key) {
        Some(value) => value,
        None => {
            let r = String::new();
            assert(r@ =~= seq![]);
            r
        },
    }
}

/// Why the event of a calendar cannot be read, before its contents are looked at.
pub open spec fn calendar_refusal(calendar: IcalCalendarView) -> Option<MappingErrorView> {
    match calendar.roots {
        Err(message) => Some(MappingErrorView::Parse(message)),
        Ok(roots) => if roots.len() != 1 || roots[0] != "VCALENDAR"@ {
            Some(MappingErrorView::Parse("resource is not exactly one VCALENDAR"@))
        } else {
            match calendar.kinds {
                Err(message) => Some(MappingErrorView::Parse(message)),
                Ok(kinds) => if calendar.event is None {
                    Some(MappingErrorView::NoEvents)
                } else if kinds.filter(|event: bool| event).len() > 1 {
                    Some(MappingErrorView::MultipleEvents)
                } else {
                    None
                },
            }
        },
    }
}

/// Why an event cannot be read, by its identifier and what it may not hold.
pub open spec fn event_refusal(event: IcalEventView) -> Option<MappingErrorView> {
    if !(ical::value_named(event.properties, "UID"@) matches Some(uid) && text::trimmed(uid).len() > 0) {
        Some(MappingErrorView::MissingUid)
    } else if ical::has_property_spec(event, "RECURRENCE-ID"@) {
        Some(MappingErrorView::UnsupportedRecurrence)
    } else if ical::has_property_spec(event, "DURATION"@) {
        Some(MappingErrorView::UnsupportedData("DURATION is not supported"@))
    } else {
        None
    }
}

/// The schedule of an event, or why there is none.
pub open spec fn event_schedule(event: IcalEventView) -> Result<ScheduleView, MappingErrorView> {
    match event.start {
        Some(start) => schedule_of(start, event.end),
        None => if ical::has_property_spec(event, "DTSTART"@) {
            Err(MappingErrorView::Parse("invalid DTSTART"@))
        } else {
            Err(MappingErrorView::MissingDtstart)
        },
    }
}

/// The event that an event of a text stands for, where `valid` says whether the text of its
/// recurrence is accepted.
pub open spec fn mapped_event(
    event: IcalEventView,
    content: Seq<char>,
    event_id: Uuid,
    calendar_id: Uuid,
    valid: bool,
) -> Result<MappedView, MappingErrorView> {
    match event_refusal(event) {
        Some(error) => Err(error),
        None => match refused(reminders_of(event.parts)) {
            Err(error) => Err(error),
            Ok(reminders) => match event_schedule(event) {
                Err(error) => Err(error),
                Ok(schedule) => match recurrence_of_event(
                    written_recurrence(content),
                    schedule,
                    valid,
                ) {
                    Err(error) => Err(error),
                    Ok(recurrence) => Ok(
                        MappedView {
                            event: EventView {
                                id: event_id,
                                calendar_id,
                                title: text_of(event, "SUMMARY"@),
                                location: text_of(event, "LOCATION"@),
                                description: text_of(event, "DESCRIPTION"@),
                                schedule,
                                recurrence,
                                reminders,
                            },
                            remote_uid: ical::value_named(event.properties, "UID"@)->0,
                        },
                    ),
                },
            },
        },
    }
}

/// The event that a calendar text stands for, by what the text holds.
pub open spec fn mapped_calendar(
    calendar: IcalCalendarView,
    content: Seq<char>,
    event_id: Uuid,
    calendar_id: Uuid,
    valid: bool,
) -> Result<MappedView, MappingErrorView> {
    match calendar_refusal(calendar) {
        Some(error) => Err(error),
        None => mapped_event(calendar.event->0, content, event_id, calendar_id, valid),
    }
}

/// The values of an event that was read, or why there is none.
pub open spec fn mapped_result(r: Result<MappedEvent, EventMappingError>) -> Result<
    MappedView,
    MappingErrorView,
> {
    match r {
        Ok(mapped) => Ok(mapped@),
        Err(error) => Err(error@),
    }
}

/// The values of an optional error.
pub open spec fn error_view(r: Option<EventMappingError>) -> Option<MappingErrorView> {
    match r {
        Some(error) => Some(error@),
        None => None,
    }
}

/// How many marks of a list are set.
fn count_set(marks: &Vec<bool>) -> (r: usize)
    ensures
        r == marks@.filter(|event: bool| event).len(),
{
    let ghost set = |event: bool| event;
    let mut count: usize = 0;
    proof {
        reveal(Seq::filter);
        assert(marks@.take(0).filter(set) =~= seq![]);
    }
    for i in 0..marks.len()
        invariant
            set == |event: bool| event,
            count == marks@.take(i as int).filter(set).len(),
            count <= i,
    {
        proof {
            assert(marks@.take(i + 1) =~= marks@.take(i as int).push(marks@[i as int]));
            lines::lemma_filter_push(marks@.take(i as int), marks@[i as int], set);
        }
        if marks[i] {
            count += 1;
        }
    }
    assert(marks@.take(marks@.len() as int) =~= marks@);
    count
}

/// Why the event of a calendar cannot be read, before its contents are looked at.
fn refuse_calendar(calendar: &IcalCalendar) -> (r: Option<EventMappingError>)
    ensures
        error_view(r) == calendar_refusal(calendar@),
{
    match &calendar.roots {
        Err(message) => {
            return Some(EventMappingError::Parse(message.clone()));
        },
        Ok(roots) => {
            assert(text::views(roots@).len() == roots@.len());
            if roots.len() != 1 || !text::same_text(roots[0].as_str(), "VCALENDAR") {
                return Some(
                    EventMappingError::Parse("resource is not exactly one VCALENDAR".to_owned()),
                );
            }
        },
    }
    match &calendar.kinds {
        Err(message) => Some(EventMappingError::Parse(message.clone())),
        Ok(kinds) => {
            if calendar.event.is_none() {
                return Some(EventMappingError::NoEvents);
            }
            if count_set(kinds) > 1 {
                return Some(EventMappingError::MultipleEvents);
            }
            None
        },
    }
}

/// Why an event cannot be read, by its identifier and what it may not hold.
fn refuse_event(event: &IcalEvent) -> (r: Option<EventMappingError>)
    ensures
        error_view(r) == event_refusal(event@),
{
    let has_uid = match ical::find_value(&event.properties, "UID") {
        Some(uid) => text::trim_chars(&text::chars_of(uid.as_str())).len() > 0,
        None => false,
    };
    if !has_uid {
        return Some(EventMappingError::MissingUid);
    }
    if ical::has_property(event, "RECURRENCE-ID") {
        return Some(EventMappingError::UnsupportedRecurrence);
    }
    if ical::has_property(event, "DURATION") {
        return Some(unsupported("DURATION is not supported"));
    }
    None
}

/// The schedule of an event.
fn map_event_schedule(event: &IcalEvent) -> (r: Result<EventSchedule, EventMappingError>)
    requires
        event@.valid(),
    ensures
        schedule_result(r) == event_schedule(event@),
{
    match &event.start {
        Some(start) => map_schedule(start, &event.end),
        None => if ical::has_property(event, "DTSTART") {
            Err(EventMappingError::Parse("invalid DTSTART".to_owned()))
        } else {
            Err(EventMappingError::MissingDtstart)
        },
    }
}

/// The event that a calendar text stands for, by what the text holds. `valid` says whether the text
/// of its recurrence is accepted.
pub fn map_calendar_given(
    calendar: &IcalCalendar,
    content: &str,
    event_id: Uuid,
    calendar_id: Uuid,
    valid: bool,
) -> (r: Result<MappedEvent, EventMappingError>)
    requires
        calendar@.event matches Some(event) ==> event.valid(),
    ensures
        mapped_result(r) == mapped_calendar(calendar@, content@, event_id, calendar_id, valid),
{
    if let Some(error) = refuse_calendar(calendar) {
        return Err(error);
    }
    let event = match &calendar.event {
        Some(event) => event,
        None => {
            return Err(EventMappingError::NoEvents);
        },
    };
    if let Some(error) = refuse_event(event) {
        return Err(error);
    }
    let remote_uid = read_text(event, "UID");
    let reminders = match map_reminders(&event.parts) {
        Ok(reminders) => reminders,
        Err(error) => {
            return Err(error);
        },
    };
    let schedule = match map_event_schedule(event) {
        Ok(schedule) => schedule,
        Err(error) => {
            return Err(error);
        },
    };
    let recurrence = match recurrence_given(content, &schedule, valid) {
        Ok(recurrence) => recurrence,
        Err(error) => {
            return Err(error);
        },
    };
    Ok(
        MappedEvent {
            event: Event {
                id: event_id,
                calendar_id,
                title: read_text(event, "SUMMARY"),
                location: read_text(event, "LOCATION"),
                description: read_text(event, "DESCRIPTION"),
                schedule,
                recurrence,
                reminders,
            },
            remote_uid,
        },
    )
}

/// The text that must be accepted for the recurrence of the event of a calendar, where there is one.
pub open spec fn calendar_text_to_accept(calendar: IcalCalendarView, content: Seq<char>) -> Option<
    Seq<char>,
> {
    match calendar.event {
        Some(event) => match event_schedule(event) {
            Ok(schedule) => text_to_accept(content, schedule),
            Err(_) => None,
        },
        None => None,
    }
}

/// The text that must be accepted for the recurrence of the event of a calendar.
fn find_text_to_accept(calendar: &IcalCalendar, content: &str) -> (r: Option<String>)
    requires
        calendar@.event matches Some(event) ==> event.valid(),
    ensures
        model::text_view(r) == calendar_text_to_accept(calendar@, content@),
{
    let event = match &calendar.event {
        Some(event) => event,
        None => {
            return None;
        },
    };
    let schedule = match map_event_schedule(event) {
        Ok(schedule) => schedule,
        Err(_) => {
            return None;
        },
    };
    let recurrence = find_recurrence(content);
    proof {
        assert(recurrence@.rrule.len() == recurrence.rrule@.len());
        assert(recurrence@.rdate.len() == recurrence.rdate@.len());
        assert(recurrence@.exdate.len() == recurrence.exdate@.len());
    }
    if recurrence.rrule.len() == 0 && recurrence.rdate.len() == 0 && recurrence.exdate.len() == 0 {
        return None;
    }
    if recurrence.rrule.len() > 1 || check_periods(&recurrence.rdate) || check_periods(
        &recurrence.exdate,
    ) {
        return None;
    }
    make_validation_text(&schedule, &recurrence)
}

/// The event that a resource stands for, where `valid` says whether the text of its recurrence is
/// accepted.
pub open spec fn mapped_resource(resource: Seq<char>, event_id: Uuid, calendar_id: Uuid, valid: bool) -> Result<
    MappedView,
    MappingErrorView,
> {
    let content = ical::unfolded(resource);
    mapped_calendar(ical::calendar_facts(content), content, event_id, calendar_id, valid)
}

/// The text that must be accepted for the recurrence of a resource, where there is one.
pub open spec fn resource_text_to_accept(resource: Seq<char>) -> Option<Seq<char>> {
    let content = ical::unfolded(resource);
    calendar_text_to_accept(ical::calendar_facts(content), content)
}

/// Read the one event of a resource. Its address and entity tag on the server are kept apart from
/// it. Whether a recurrence in local times is accepted can depend on the zone of the machine; where
/// it says of each time which zone it is in, or there is none, the outcome depends on the resource
/// alone.
pub fn map_icalendar_event(resource: &str, event_id: Uuid, calendar_id: Uuid) -> (r: Result<
    MappedEvent,
    EventMappingError,
>)
    ensures
        exists|valid: bool|
            #[trigger] rules::is_verdict(valid, resource_text_to_accept(resource@))
                && mapped_result(r) == mapped_resource(resource@, event_id, calendar_id, valid),
{
    let content = ical::unfold(resource);
    let calendar = ical::read_calendar(content.as_str());
    let valid = rules::is_accepted(&find_text_to_accept(&calendar, content.as_str()));
    assert(rules::is_verdict(valid, resource_text_to_accept(resource@)));
    map_calendar_given(&calendar, content.as_str(), event_id, calendar_id, valid)
}

/// An event that was read is in the calendar and under the identifier that were asked for, its
/// schedule runs forward, and each of its reminders comes before its start.
pub proof fn law_read_event_is_sound(
    resource: Seq<char>,
    event_id: Uuid,
    calendar_id: Uuid,
    valid: bool,
)
    requires
        mapped_resource(resource, event_id, calendar_id, valid) is Ok,
        ical::calendar_facts(ical::unfolded(resource)).event matches Some(event) ==> event.valid(),
    ensures
        ({
            let mapped = mapped_resource(resource, event_id, calendar_id, valid)->Ok_0;
            &&& mapped.event.id == event_id
            &&& mapped.event.calendar_id == calendar_id
            &&& mapped.event.schedule.runs_forward()
            &&& text::trimmed(mapped.remote_uid).len() > 0
            &&& forall|i: int|
                0 <= i < mapped.event.reminders.len() ==> (
                #[trigger] mapped.event.reminders[i]).seconds_before_start > 0
        }),
{
    let content = ical::unfolded(resource);
    let event = ical::calendar_facts(content).event->0;
    let mapped = mapped_resource(resource, event_id, calendar_id, valid)->Ok_0;
    lemma_reminders_before(event.parts);
    match event.start->0 {
        DateView::Date(day) => {
            date::lemma_date_of(day as int);
            if event.end is None {
                date::lemma_date_of(day + 1);
            } else if let DateView::Date(end) = event.end->0 {
                date::lemma_date_of(end as int);
            }
        },
        _ => {},
    }
}

proof fn lemma_reminders_before(parts: Seq<PartView>)
    ensures
        reminders_of(parts) matches Ok(reminders) ==> (forall|i: int|
            0 <= i < reminders.len() ==> (#[trigger] reminders[i]).seconds_before_start > 0),
    decreases parts.len(),
{
    if parts.len() > 0 {
        lemma_reminders_before(parts.drop_last());
        if reminders_of(parts) is Ok {
            let before = reminders_of(parts.drop_last())->Ok_0;
            let reminders = reminders_of(parts)->Ok_0;
            let trigger = ical::property_named(parts.last().properties, "TRIGGER"@)->0;
            lemma_length_fits(length_start(), unsigned(trigger.value).drop_first());
            assert forall|i: int| 0 <= i < reminders.len() implies (
            #[trigger] reminders[i]).seconds_before_start > 0 by {
                if i < before.len() {
                    assert(reminders[i] == before[i]);
                }
            }
        }
    }
}

// ---------------------------------------------------------------------------------------------
// Laws of what is read
// ---------------------------------------------------------------------------------------------

/// A length that is written with one unit is so many of it: weeks and days before the time mark, and
/// hours, minutes and seconds after it. A minus sign makes it negative, and a plus sign nothing. A
/// length of zero is none.
pub proof fn law_lengths_by_their_units(digits: Seq<char>)
    requires
        text::is_number(digits),
        0 < text::number_value(digits),
        text::number_value(digits) * 604800 <= i64::MAX,
    ensures
        duration_of("P"@ + digits + "W"@) == Some(text::number_value(digits) * 604800),
        duration_of("P"@ + digits + "D"@) == Some(text::number_value(digits) * 86400),
        duration_of("PT"@ + digits + "H"@) == Some(text::number_value(digits) * 3600),
        duration_of("PT"@ + digits + "M"@) == Some(text::number_value(digits) * 60),
        duration_of("PT"@ + digits + "S"@) == Some(text::number_value(digits)),
{
    reveal_strlit("P");
    reveal_strlit("PT");
    reveal_strlit("W");
    reveal_strlit("D");
    reveal_strlit("H");
    reveal_strlit("M");
    reveal_strlit("S");
    lemma_one_unit(digits, 'W', "P"@ + digits + "W"@, false);
    lemma_one_unit(digits, 'D', "P"@ + digits + "D"@, false);
    lemma_one_unit(digits, 'H', "PT"@ + digits + "H"@, true);
    lemma_one_unit(digits, 'M', "PT"@ + digits + "M"@, true);
    lemma_one_unit(digits, 'S', "PT"@ + digits + "S"@, true);
    assert(text::number_value(digits) * 1 == text::number_value(digits));
}

proof fn lemma_one_unit(digits: Seq<char>, unit: char, value: Seq<char>, in_time: bool)
    requires
        text::is_number(digits),
        0 < text::number_value(digits),
        text::number_value(digits) * 604800 <= i64::MAX,
        unit_seconds(LengthView { in_time, have_number: true, ..length_start() }, unit) is Some,
        !text::is_digit(unit),
        unit != 'T',
        value =~= (if in_time {
            seq!['P', 'T']
        } else {
            seq!['P']
        }) + digits.push(unit),
    ensures
        duration_of(value) == Some(
            text::number_value(digits) * unit_seconds(
                LengthView { in_time, have_number: true, ..length_start() },
                unit,
            )->0,
        ),
{
    let state = LengthView { in_time, ..length_start() };
    let rest = digits.push(unit);
    assert(unsigned(value) == value);
    if in_time {
        assert(value.drop_first() =~= seq!['T'] + rest);
        assert((seq!['T'] + rest)[0] == 'T');
        assert((seq!['T'] + rest).drop_first() =~= rest);
        assert(length_step(length_start(), 'T') == Some(state));
    } else {
        assert(value.drop_first() =~= rest);
    }
    assert(length_read(length_start(), value.drop_first()) == length_read(state, rest));
    assert(rest.take(digits.len() as int) =~= digits);
    lemma_digits_then(state, digits, rest, digits.len() as int);
    let reached = LengthView {
        number: text::number_value(digits),
        have_number: true,
        ..state
    };
    assert(digits.take(digits.len() as int) =~= digits);
    assert(rest.skip(digits.len() as int) =~= seq![unit]);
    let seconds = unit_seconds(LengthView { have_number: true, ..state }, unit)->0;
    assert(0 < seconds <= 604800);
    let n = text::number_value(digits);
    assert(n * seconds <= n * 604800 && n * seconds > 0) by (nonlinear_arith)
        requires
            0 < n,
            0 < seconds <= 604800,
    ;
    let after = length_step(reached, unit)->0;
    assert(length_step(reached, unit) is Some);
    assert(seq![unit].drop_first() =~= seq![]);
    assert(length_read(after, seq![unit].drop_first()) == Some(after));
    assert(length_read(reached, seq![unit]) == Some(after));
}

proof fn lemma_digits_then(state: LengthView, digits: Seq<char>, rest: Seq<char>, i: int)
    requires
        text::is_number(digits),
        text::number_value(digits) <= i64::MAX,
        state.number == 0,
        !state.have_number,
        rest.len() >= digits.len(),
        digits == rest.take(digits.len() as int),
        0 <= i <= digits.len(),
    ensures
        length_read(state, rest) == length_read(
            LengthView {
                number: text::number_value(digits.take(i)),
                have_number: i > 0,
                ..state
            },
            rest.skip(i),
        ),
    decreases i,
{
    if i == 0 {
        assert(digits.take(0) =~= seq![]);
        assert(rest.skip(0) =~= rest);
    } else {
        lemma_digits_then(state, digits, rest, i - 1);
        text::lemma_number_value_grows(digits, i);
        text::lemma_number_value_grows(digits, i - 1);
        let before = LengthView {
            number: text::number_value(digits.take(i - 1)),
            have_number: i > 1,
            ..state
        };
        let tail = rest.skip(i - 1);
        assert(tail[0] == digits[i - 1]);
        assert(text::is_digit(digits[i - 1]));
        assert(tail.drop_first() =~= rest.skip(i));
        assert(digits.take(i).drop_last() =~= digits.take(i - 1));
        assert(digits.take(i).last() == digits[i - 1]);
    }
}

/// A sign before a length only turns it around, and nothing is read as a length that does not begin
/// with its mark.
pub proof fn law_signs_of_lengths(length: Seq<char>)
    requires
        length.len() > 0,
        length[0] != '-',
        length[0] != '+',
    ensures
        duration_of(seq!['+'] + length) == duration_of(length),
        duration_of(seq!['-'] + length) is Some <==> duration_of(length) is Some,
        duration_of(length) matches Some(seconds) ==> seconds > 0 && duration_of(seq!['-'] + length)
            == Some(-seconds),
        length[0] != 'P' ==> duration_of(length) is None,
{
    assert((seq!['+'] + length).drop_first() =~= length);
    assert((seq!['-'] + length).drop_first() =~= length);
    assert((seq!['+'] + length)[0] == '+');
    assert((seq!['-'] + length)[0] == '-');
    if length[0] == 'P' && length.len() > 1 {
        lemma_length_is_not_negative(length_start(), length.drop_first());
    }
}

proof fn lemma_length_is_not_negative(state: LengthView, rest: Seq<char>)
    requires
        state.total >= 0,
        state.number >= 0,
    ensures
        length_read(state, rest) matches Some(after) ==> after.total >= 0 && after.number >= 0,
    decreases rest.len(),
{
    if rest.len() > 0 {
        if let Some(next) = length_step(state, rest[0]) {
            assert(next.total >= 0 && next.number >= 0) by {
                if !text::is_digit(rest[0]) && state.have_number && unit_seconds(state, rest[0]) is Some {
                    let unit = unit_seconds(state, rest[0])->0;
                    let n = state.number;
                    assert(n * unit >= 0) by (nonlinear_arith)
                        requires
                            n >= 0,
                            unit > 0,
                    ;
                }
            }
            lemma_length_is_not_negative(next, rest.drop_first());
        }
    }
}

/// An alarm is read as a reminder exactly where it shows a text, relative to the start and once, some
/// time before it. The reminder comes that many seconds before, and has that text.
pub proof fn law_alarms_that_are_read(part: PartView)
    ensures
        alarm_of(part) matches Ok(reminder) ==> {
            let trigger = ical::property_named(part.properties, "TRIGGER"@)->0;
            &&& (ical::value_named(part.properties, "ACTION"@) matches Some(action) && text::lower(action)
                == text::lower("DISPLAY"@))
            &&& !part.has_parts
            &&& !part.lists.contains("TRIGGER"@) && !part.lists.contains("REPEAT"@)
                && !part.lists.contains("DURATION"@)
            &&& ical::property_named(part.properties, "REPEAT"@) is None
            &&& ical::property_named(part.properties, "DURATION"@) is None
            &&& ical::property_named(part.properties, "TRIGGER"@) is Some
            &&& (ical::param_named(trigger.params, "RELATED"@) matches Some(related) ==> text::lower(
                related,
            ) == text::lower("START"@))
            &&& (ical::param_named(trigger.params, "VALUE"@) matches Some(kind) ==> text::lower(kind)
                == text::lower("DURATION"@))
            &&& (duration_of(trigger.value) matches Some(seconds) && seconds < 0)
            &&& ical::value_named(part.properties, "DESCRIPTION"@) == Some(reminder.description)
        },
        alarm_of(part) matches Ok(reminder) ==> duration_of(
            (ical::property_named(part.properties, "TRIGGER"@)->0).value,
        )->0 >= i64::MIN + 1 ==> reminder.seconds_before_start == -duration_of(
            (ical::property_named(part.properties, "TRIGGER"@)->0).value,
        )->0,
        ical::property_named(part.properties, "TRIGGER"@) is None || ical::value_named(
            part.properties,
            "DESCRIPTION"@,
        ) is None || part.has_parts ==> alarm_of(part) is Err,
        ical::property_named(part.properties, "TRIGGER"@) matches Some(trigger) ==> (duration_of(
            trigger.value,
        ) is None || duration_of(trigger.value)->0 >= 0) ==> alarm_of(part) is Err,
{
}

/// An event that is read has the title, place and description of its properties, empty where it has
/// none, the name that it was written with, and the identifiers that it is given.
pub proof fn law_texts_of_a_read_event(
    event: IcalEventView,
    content: Seq<char>,
    event_id: Uuid,
    calendar_id: Uuid,
    valid: bool,
)
    ensures
        mapped_event(event, content, event_id, calendar_id, valid) matches Ok(mapped) ==> {
            let none: Seq<char> = seq![];
            &&& mapped.event.id == event_id && mapped.event.calendar_id == calendar_id
            &&& mapped.event.title == match ical::value_named(event.properties, "SUMMARY"@) {
                Some(value) => value,
                None => none,
            }
            &&& mapped.event.location == match ical::value_named(event.properties, "LOCATION"@) {
                Some(value) => value,
                None => none,
            }
            &&& mapped.event.description == match ical::value_named(event.properties, "DESCRIPTION"@) {
                Some(value) => value,
                None => none,
            }
            &&& ical::value_named(event.properties, "UID"@) == Some(mapped.remote_uid)
            &&& event_schedule(event) == Ok::<ScheduleView, MappingErrorView>(mapped.event.schedule)
            &&& reminders_of(event.parts) == Ok::<Seq<ReminderView>, Seq<char>>(mapped.event.reminders)
            &&& mapped.event.recurrence is Some ==> mapped.event.recurrence == Some(
                written_recurrence(content),
            )
            &&& mapped.event.recurrence is None ==> {
                let written = written_recurrence(content);
                written.rrule.len() == 0 && written.rdate.len() == 0 && written.exdate.len() == 0
            }
        },
{
}

/// An event is not read without a name, as an exception of another, or where it has a length in place
/// of an end; nor where a rule occurs twice or its recurrence is not valid.
pub proof fn law_events_that_are_not_read(
    event: IcalEventView,
    content: Seq<char>,
    event_id: Uuid,
    calendar_id: Uuid,
    valid: bool,
)
    ensures
        ({
            let outcome = mapped_event(event, content, event_id, calendar_id, valid);
            &&& ical::value_named(event.properties, "UID"@) is None ==> outcome == Err::<
                MappedView,
                MappingErrorView,
            >(MappingErrorView::MissingUid)
            &&& (ical::value_named(event.properties, "UID"@) matches Some(uid) && text::trimmed(uid).len()
                == 0) ==> outcome == Err::<MappedView, MappingErrorView>(MappingErrorView::MissingUid)
            &&& ical::has_property_spec(event, "RECURRENCE-ID"@) || ical::has_property_spec(
                event,
                "DURATION"@,
            ) ==> outcome is Err
            &&& written_recurrence(content).rrule.len() > 1 ==> outcome is Err
            &&& !valid && (written_recurrence(content).rrule.len() > 0 || written_recurrence(
                content,
            ).rdate.len() > 0 || written_recurrence(content).exdate.len() > 0) ==> outcome is Err
            &&& event.start is None ==> outcome is Err
        }),
{
}

/// A resource is read only where it is one calendar with exactly one event.
pub proof fn law_resources_that_are_read(calendar: IcalCalendarView)
    ensures
        calendar_refusal(calendar) is None ==> calendar.event is Some && (calendar.roots matches Ok(roots)
            && roots.len() == 1 && roots[0] == "VCALENDAR"@) && (calendar.kinds matches Ok(kinds)
            && kinds.filter(|event: bool| event).len() <= 1),
        calendar.event is Some ==> (calendar.roots matches Ok(roots) && roots.len() == 1 && roots[0]
            == "VCALENDAR"@) ==> (calendar.kinds matches Ok(kinds) && kinds.filter(
            |event: bool| event,
        ).len() <= 1) ==> calendar_refusal(calendar) is None,
        calendar.roots matches Ok(roots) ==> roots.len() == 1 && roots[0] == "VCALENDAR"@ ==> (
        calendar.kinds matches Ok(kinds) ==> (calendar.event is None ==> calendar_refusal(calendar)
            == Some(MappingErrorView::NoEvents)) && (calendar.event is Some && kinds.filter(
            |event: bool| event,
        ).len() > 1 ==> calendar_refusal(calendar) == Some(MappingErrorView::MultipleEvents))),
{
}

/// A date without an end is one whole day; with an end it takes the days up to that one. A day and a
/// time do not make an event, and neither does an end that is not after the start.
pub proof fn law_days_that_are_read(start: i32, end: Option<DateView>)
    requires
        date::is_day(start as int),
        end matches Some(value) ==> value.valid(),
    ensures
        end is None && date::is_day(start + 1) ==> (schedule_of(DateView::Date(start), end) matches Ok(
            ScheduleView::AllDay { start_date, end_date_exclusive },
        ) && start_date@ == start && end_date_exclusive@ == start + 1),
        end matches Some(DateView::Date(last)) ==> (last > start ==> (schedule_of(
            DateView::Date(start),
            end,
        ) matches Ok(ScheduleView::AllDay { start_date, end_date_exclusive }) && start_date@ == start
            && end_date_exclusive@ == last)) && (last <= start ==> schedule_of(
            DateView::Date(start),
            end,
        ) is Err),
        end matches Some(value) ==> !(value is Date) ==> schedule_of(DateView::Date(start), end) is Err,
{
    date::lemma_date_of(start as int);
    if let Some(DateView::Date(last)) = end {
        date::lemma_date_of(last as int);
    }
    if date::is_day(start + 1) {
        date::lemma_date_of(start + 1);
    }
}

/// Two times in UTC, or in one known zone, make an event from the first to the second, in that zone,
/// where the first comes before the second. Times without a zone, or in two zones, make none.
pub proof fn law_times_that_are_read(start: DateView, end: DateView)
    requires
        start.valid(),
        end.valid(),
    ensures
        start is Floating ==> schedule_of(start, Some(end)) is Err,
        !(start is Date) ==> schedule_of(start, None) is Err,
        !(start is Date) && (end is Date || end is Floating) ==> schedule_of(start, Some(end)) is Err,
        (start is Utc && end is Zoned) || (start is Zoned && end is Utc) ==> schedule_of(
            start,
            Some(end),
        ) is Err,
        start matches DateView::Utc(a, n) ==> end matches DateView::Utc(b, m) ==> {
            let first = DateTimeView { seconds: a as int, nanos: n as int, offset: 0 };
            let last = DateTimeView { seconds: b as int, nanos: m as int, offset: 0 };
            &&& first.valid() && last.valid() && first.before(last) ==> (schedule_of(start, Some(end)) matches Ok(
                ScheduleView::Timed { start: from, end: to, timezone },
            ) && from@ == first && to@ == last && timezone is None)
            &&& !first.before(last) ==> schedule_of(start, Some(end)) is Err
        },
        start matches DateView::Zoned(_, _, _, a) ==> end matches DateView::Zoned(_, _, _, b) ==> (a != b
            || !zone::zone_known(a)) ==> schedule_of(start, Some(end)) is Err,
        start matches DateView::Zoned(d, s, n, a) ==> schedule_of(start, Some(end)) matches Ok(
            ScheduleView::Timed { start: from, timezone, .. },
        ) ==> timezone == Some(a) && zone::local_instant(a, d as int, Time { seconds: s, nanos: n })
            is Some && from == date::date_time_of(
            zone::local_instant(a, d as int, Time { seconds: s, nanos: n })->0,
        ),
{
    if let DateView::Utc(a, n) = start {
        if let DateView::Utc(b, m) = end {
            let first = DateTimeView { seconds: a as int, nanos: n as int, offset: 0 };
            let last = DateTimeView { seconds: b as int, nanos: m as int, offset: 0 };
            if first.valid() {
                date::lemma_date_time_of(first);
            }
            if last.valid() {
                date::lemma_date_time_of(last);
            }
        }
    }
}

/// An alarm that shows a text once, some time before the start, is read.
pub proof fn law_plain_alarms_are_read(part: PartView, trigger: PropertyView, seconds: int, description: Seq<char>)
    requires
        ical::value_named(part.properties, "ACTION"@) == Some("DISPLAY"@),
        !part.has_parts,
        part.lists.len() == 0,
        ical::property_named(part.properties, "REPEAT"@) is None,
        ical::property_named(part.properties, "DURATION"@) is None,
        ical::property_named(part.properties, "TRIGGER"@) == Some(trigger),
        ical::value_named(part.properties, "DESCRIPTION"@) == Some(description),
        ical::param_named(trigger.params, "VALUE"@) is None || ical::param_named(trigger.params, "VALUE"@)
            == Some("DURATION"@),
        ical::param_named(trigger.params, "RELATED"@) is None || ical::param_named(
            trigger.params,
            "RELATED"@,
        ) == Some("START"@),
        duration_of(trigger.value) == Some(seconds),
        i64::MIN < seconds < 0,
    ensures
        alarm_of(part) == Ok::<ReminderView, Seq<char>>(
            ReminderView { seconds_before_start: (-seconds) as i64, description },
        ),
{
    reveal_strlit("DURATION");
    reveal_strlit("DATE-TIME");
    reveal_strlit("START");
    reveal_strlit("END");
    assert(text::lower("DURATION"@).len() == 8 && text::lower("DATE-TIME"@).len() == 9);
    assert(text::lower("START"@).len() == 5 && text::lower("END"@).len() == 3);
}

/// The text that a rule engine is asked to accept is that of the recurrence of the event, where it has
/// one that is supported.
pub proof fn law_text_that_is_to_be_accepted(content: Seq<char>, schedule: ScheduleView)
    ensures
        ({
            let recurrence = written_recurrence(content);
            &&& recurrence.rrule.len() == 0 && recurrence.rdate.len() == 0 && recurrence.exdate.len() == 0
                ==> text_to_accept(content, schedule) is None
            &&& recurrence.rrule.len() > 1 ==> text_to_accept(content, schedule) is None
            &&& recurrence.rrule.len() == 1 && recurrence.rdate.len() == 0 && recurrence.exdate.len() == 0
                ==> text_to_accept(content, schedule) == validation_text(schedule, recurrence)
        }),
{
}

/// The returns at the end of a line are taken off, all of them and nothing else.
pub proof fn law_returns_are_taken_off(line: Seq<char>) -> (n: int)
    ensures
        0 <= n <= line.len(),
        without_returns(line) == line.take(n),
        forall|i: int| n <= i < line.len() ==> #[trigger] line[i] == '\r',
        n > 0 ==> line[n - 1] != '\r',
    decreases line.len(),
{
    if line.len() > 0 && line.last() == '\r' {
        let shorter = line.drop_last();
        let n = law_returns_are_taken_off(shorter);
        assert(shorter.take(n) =~= line.take(n));
        assert forall|i: int| n <= i < line.len() implies #[trigger] line[i] == '\r' by {
            if i < shorter.len() {
                assert(shorter[i] == line[i]);
            }
        }
        assert(n > 0 ==> shorter[n - 1] == line[n - 1]);
        n
    } else {
        assert(line.take(line.len() as int) =~= line);
        line.len() as int
    }
}

/// The lines of an event are those between its beginning and its end.
pub proof fn law_lines_of_an_event(inner: Seq<Seq<char>>, rest: Seq<Seq<char>>, before: Seq<char>)
    requires
        forall|i: int|
            0 <= i < inner.len() ==> text::lower(without_returns(#[trigger] inner[i])) != text::lower(
                "BEGIN:VEVENT"@,
            ) && text::lower(without_returns(inner[i])) != text::lower("END:VEVENT"@),
        text::lower(without_returns(before)) != text::lower("BEGIN:VEVENT"@),
    ensures
        event_lines(seq!["BEGIN:VEVENT"@] + (inner + (seq!["END:VEVENT"@] + rest)), false) == Seq::new(
            inner.len(),
            |i: int| without_returns(inner[i]),
        ) + event_lines(rest, false),
        event_lines(seq![before] + rest, false) == event_lines(rest, false),
{
    reveal_strlit("BEGIN:VEVENT");
    reveal_strlit("END:VEVENT");
    assert("BEGIN:VEVENT"@.last() == 'T' && "END:VEVENT"@.last() == 'T');
    assert(without_returns("BEGIN:VEVENT"@) == "BEGIN:VEVENT"@);
    assert(without_returns("END:VEVENT"@) == "END:VEVENT"@);
    let tail = inner + (seq!["END:VEVENT"@] + rest);
    let all = seq!["BEGIN:VEVENT"@] + tail;
    assert(all.drop_first() =~= tail);
    lemma_lines_inside(inner, rest);
    let other = seq![before] + rest;
    assert(other.drop_first() =~= rest);
    assert(event_lines(other, false) == event_lines(rest, false));
}

/// Lines inside an event are its lines.
proof fn lemma_lines_inside(inner: Seq<Seq<char>>, rest: Seq<Seq<char>>)
    requires
        forall|i: int|
            0 <= i < inner.len() ==> text::lower(without_returns(#[trigger] inner[i])) != text::lower(
                "BEGIN:VEVENT"@,
            ) && text::lower(without_returns(inner[i])) != text::lower("END:VEVENT"@),
        without_returns("END:VEVENT"@) == "END:VEVENT"@,
    ensures
        event_lines(inner + (seq!["END:VEVENT"@] + rest), true) == Seq::new(
            inner.len(),
            |i: int| without_returns(inner[i]),
        ) + event_lines(rest, false),
    decreases inner.len(),
{
    reveal_strlit("BEGIN:VEVENT");
    reveal_strlit("END:VEVENT");
    let all = inner + (seq!["END:VEVENT"@] + rest);
    let kept = Seq::new(inner.len(), |i: int| without_returns(inner[i]));
    assert(text::lower("BEGIN:VEVENT"@).len() == 12 && text::lower("END:VEVENT"@).len() == 10);
    if inner.len() == 0 {
        assert(all[0] == "END:VEVENT"@);
        assert(all.drop_first() =~= rest);
        assert(kept + event_lines(rest, false) =~= event_lines(rest, false));
    } else {
        let shorter = inner.drop_first();
        assert(all[0] == inner[0]);
        assert(all.drop_first() =~= shorter + (seq!["END:VEVENT"@] + rest));
        assert forall|i: int| 0 <= i < shorter.len() implies text::lower(
            without_returns(#[trigger] shorter[i]),
        ) != text::lower("BEGIN:VEVENT"@) && text::lower(without_returns(shorter[i])) != text::lower(
            "END:VEVENT"@,
        ) by {
            assert(shorter[i] == inner[i + 1]);
        }
        lemma_lines_inside(shorter, rest);
        let fewer = Seq::new(shorter.len(), |i: int| without_returns(shorter[i]));
        assert(kept =~= seq![without_returns(inner[0])] + fewer);
        assert(seq![without_returns(inner[0])] + (fewer + event_lines(rest, false)) =~= kept + event_lines(
            rest,
            false,
        ));
    }
}

/// A text of an event is the value of its property, and empty where it has none.
pub proof fn law_text_of_a_key(event: IcalEventView, key: Seq<char>)
    ensures
        ical::value_named(event.properties, key) is None ==> text_of(event, key).len() == 0,
        ical::value_named(event.properties, key) matches Some(value) ==> text_of(event, key) == value,
{
}

/// An event that has a name, that is no exception and has an end, is read where its alarms, its time and
/// its recurrence are.
pub proof fn law_plain_events_are_read(
    event: IcalEventView,
    content: Seq<char>,
    event_id: Uuid,
    calendar_id: Uuid,
    valid: bool,
    uid: Seq<char>,
    reminders: Seq<ReminderView>,
    schedule: ScheduleView,
)
    requires
        ical::value_named(event.properties, "UID"@) == Some(uid),
        text::trimmed(uid).len() > 0,
        ical::property_named(event.properties, "RECURRENCE-ID"@) is None,
        ical::property_named(event.properties, "DURATION"@) is None,
        event.lists.len() == 0,
        reminders_of(event.parts) == Ok::<Seq<ReminderView>, Seq<char>>(reminders),
        event_schedule(event) == Ok::<ScheduleView, MappingErrorView>(schedule),
    ensures
        is_empty_recurrence(written_recurrence(content)) ==> (mapped_event(
            event,
            content,
            event_id,
            calendar_id,
            valid,
        ) matches Ok(mapped) && mapped.event.recurrence is None && mapped.event.reminders == reminders
            && mapped.event.schedule == schedule && mapped.remote_uid == uid),
        written_recurrence(content).rrule.len() == 1 && written_recurrence(content).rdate.len() == 0
            && written_recurrence(content).exdate.len() == 0 && valid && start_line(schedule) is Some ==> (
        mapped_event(event, content, event_id, calendar_id, valid) matches Ok(mapped)
            && mapped.event.recurrence == Some(written_recurrence(content))),
        written_recurrence(content).rrule.len() == 1 && !valid ==> mapped_event(
            event,
            content,
            event_id,
            calendar_id,
            valid,
        ) is Err,
{
}

/// The alarms of an event are read in their order, each as it is; an event with anything else in it is
/// not read.
pub proof fn law_alarms_in_their_order(parts: Seq<PartView>, i: int)
    requires
        0 <= i < parts.len(),
    ensures
        reminders_of(parts) matches Ok(reminders) ==> reminders.len() == parts.len() && alarm_of(parts[i])
            == Ok::<ReminderView, Seq<char>>(reminders[i]) && text::lower(parts[i].kind) == text::lower(
            "VALARM"@,
        ),
        (forall|k: int|
            0 <= k < parts.len() ==> (#[trigger] parts[k]).kind == "VALARM"@ && alarm_of(parts[k]) is Ok)
            ==> reminders_of(parts) is Ok,
        reminders_of(Seq::empty()) == Ok::<Seq<ReminderView>, Seq<char>>(Seq::empty()),
    decreases parts.len(),
{
    let shorter = parts.drop_last();
    if forall|k: int|
        0 <= k < parts.len() ==> (#[trigger] parts[k]).kind == "VALARM"@ && alarm_of(parts[k]) is Ok {
        assert(parts[parts.len() - 1].kind == "VALARM"@);
        assert forall|k: int| 0 <= k < shorter.len() implies (#[trigger] shorter[k]).kind == "VALARM"@
            && alarm_of(shorter[k]) is Ok by {
            assert(parts[k] == shorter[k]);
        }
    }
    if shorter.len() > 0 {
        if i < shorter.len() {
            assert(shorter[i] == parts[i]);
            law_alarms_in_their_order(shorter, i);
        } else {
            law_alarms_in_their_order(shorter, 0);
        }
    } else {
        assert(reminders_of(shorter) == Ok::<Seq<ReminderView>, Seq<char>>(Seq::empty()));
    }
}

/// The time of an event is that of its start and its end; one without a start is not read.
pub proof fn law_time_of_a_read_event(event: IcalEventView)
    ensures
        event.start matches Some(start) ==> event_schedule(event) == schedule_of(start, event.end),
        event.start is None ==> event_schedule(event) is Err,
        event.start is None && !ical::has_property_spec(event, "DTSTART"@) ==> event_schedule(event)
            == Err::<ScheduleView, MappingErrorView>(MappingErrorView::MissingDtstart),
{
}

} // verus!
