//! Entering and changing an event.
use vstd::prelude::*;

use crate::backend::ids;
use crate::date;
use crate::date::{Date, DateTime, DateTimeView};
use crate::model;
use crate::model::{Calendar, Event, EventSchedule, EventView, ScheduleView, Uuid};
use crate::text;
use crate::ui::calendar_list;
use crate::ui::date_time_chooser;
use crate::ui::event_popover;

verus! {

// ---------------------------------------------------------------------------------------------
// Instants of wall clocks
// ---------------------------------------------------------------------------------------------

/// The instant at which clocks that are ahead of UTC by `offset` show a date, an hour and a minute,
/// where they do; `offset` is missing where the clocks of the machine never show them.
pub open spec fn local_instant(parts: (Date, i32, i32), offset: Option<i64>) -> Option<DateTimeView> {
    match offset {
        Some(offset) => {
            let v = DateTimeView {
                seconds: date::day_start(parts.0@) + parts.1 * 3600 + parts.2 * 60 - offset,
                nanos: 0,
                offset: offset as int,
            };
            if date_time_chooser::are_parts(parts) && v.valid() {
                Some(v)
            } else {
                None
            }
        },
        None => None,
    }
}

/// The instant at which the clocks of the machine show a date, an hour and a minute, where `offset`
/// is how far they are ahead of UTC then.
pub fn local_datetime(date: Date, hour: i32, minute: i32, offset: Option<i64>) -> (r: Option<DateTime>)
    ensures
        match r {
            Some(instant) => local_instant((date, hour, minute), offset) == Some(instant@),
            None => local_instant((date, hour, minute), offset) is None,
        },
{
    let offset: i64 = match offset {
        Some(offset) => offset,
        None => {
            return None;
        },
    };
    if offset <= -86400 || offset >= 86400 {
        return None;
    }
    if hour < 0 || hour >= 24 || minute < 0 || minute >= 60 {
        return None;
    }
    let day: i64 = date.days() as i64;
    DateTime::new(
        (day - date::EPOCH_DAY) * date::DAY_SECONDS + hour as i64 * 3600 + minute as i64 * 60
            - offset,
        0,
        offset as i32,
    )
}

/// Whether the clocks of an instant show a date, an hour and a minute.
pub open spec fn shows(v: DateTimeView, parts: (Date, i32, i32)) -> bool {
    v.local_day() == parts.0@ && v.local_second() / 3600 == parts.1 && v.local_second() / 60 % 60
        == parts.2
}

/// Whether the clocks of an instant show a date, an hour and a minute.
pub fn same_displayed_minute(original: &DateTime, displayed: (Date, i32, i32)) -> (r: bool)
    ensures
        r == shows(original@, displayed),
{
    let time = original.local_time();
    original.local_date().same(&displayed.0) && time.hour() as i64 == displayed.1 as i64
        && time.minute() as i64 == displayed.2 as i64
}

/// The instant of an end of an event: the one that it had while the display is that of before, and
/// that of the clocks of the machine else.
pub open spec fn endpoint_instant(
    parts: (Date, i32, i32),
    original: Option<DateTime>,
    offset: Option<i64>,
) -> Option<DateTimeView> {
    if original matches Some(instant) && shows(instant@, parts) {
        Some(original->0@)
    } else {
        local_instant(parts, offset)
    }
}

/// The instant of an end of an event.
pub fn endpoint_datetime(parts: (Date, i32, i32), original: Option<DateTime>, offset: Option<i64>) -> (r:
    Option<DateTime>)
    ensures
        match r {
            Some(instant) => endpoint_instant(parts, original, offset) == Some(instant@),
            None => endpoint_instant(parts, original, offset) is None,
        },
{
    if let Some(instant) = original {
        if same_displayed_minute(&instant, parts) {
            return Some(instant);
        }
    }
    local_datetime(parts.0, parts.1, parts.2, offset)
}

/// A date, an hour and a minute a number of minutes later, where a clock shows them.
pub fn shift_wall_clock(displayed: (Date, i32, i32), minutes: i64) -> (r: Option<(Date, i32, i32)>)
    requires
        date_time_chooser::are_parts(displayed) ==> date_time_chooser::has_after(
            displayed,
            minutes as int,
        ),
    ensures
        r is Some <==> date_time_chooser::are_parts(displayed),
        r matches Some(later) ==> date_time_chooser::is_after(displayed, minutes as int, later),
{
    if displayed.1 < 0 || displayed.1 >= 24 || displayed.2 < 0 || displayed.2 >= 60 {
        return None;
    }
    let day: i64 = displayed.0.days() as i64;
    date_time_chooser::parts_of(
        day * date_time_chooser::DAY_MINUTES + displayed.1 as i64 * 60 + displayed.2 as i64
            + minutes,
    )
}

// ---------------------------------------------------------------------------------------------
// The schedule of the form
// ---------------------------------------------------------------------------------------------

/// The dates and times that are entered, for whole days and for a time slot.
#[derive(Clone, Copy, Debug)]
pub struct ScheduleForm {
    pub all_day: bool,
    pub start_date: Option<Date>,
    pub end_date: Option<Date>,
    pub start_time: Option<(Date, i32, i32)>,
    pub end_time: Option<(Date, i32, i32)>,
}

/// How far the clocks of the machine are ahead of UTC at the two ends that are entered.
#[derive(Clone, Copy, Debug)]
pub struct LocalOffsets {
    pub start: Option<i64>,
    pub end: Option<i64>,
}

/// The instants that an event had before it is changed.
#[derive(Debug)]
pub struct OriginalTimedEvent {
    pub start: DateTime,
    pub end: DateTime,
    pub timezone: Option<String>,
}

/// The start that an event had.
pub open spec fn start_before(original: Option<OriginalTimedEvent>) -> Option<DateTime> {
    match original {
        Some(event) => Some(event.start),
        None => None,
    }
}

/// The end that an event had.
pub open spec fn end_before(original: Option<OriginalTimedEvent>) -> Option<DateTime> {
    match original {
        Some(event) => Some(event.end),
        None => None,
    }
}

/// Whether the end of an event is displayed as it was, and its start is not.
pub open spec fn only_start_changed(
    start: (Date, i32, i32),
    end: (Date, i32, i32),
    original: Option<OriginalTimedEvent>,
) -> bool {
    match original {
        Some(event) => shows(event.end@, end) && !shows(event.start@, start),
        None => false,
    }
}

impl ScheduleForm {
    /// Whether there is room in the calendar for an hour, where the range that is entered has to be
    /// moved by one to run forward: before its end where its start alone was changed, and after its
    /// start else.
    pub open spec fn has_room(self, original: Option<OriginalTimedEvent>, offsets: LocalOffsets) -> bool {
        if self.all_day {
            true
        } else {
            match (self.start_time, self.end_time) {
                (Some(start), Some(end)) => match (
                    endpoint_instant(start, start_before(original), offsets.start),
                    endpoint_instant(end, end_before(original), offsets.end),
                ) {
                    (Some(from), Some(to)) => if from.before(to) {
                        true
                    } else if only_start_changed(start, end, original) {
                        date_time_chooser::has_after(end, -60)
                    } else {
                        date_time_chooser::has_after(start, 60)
                    },
                    _ => true,
                },
                _ => true,
            }
        }
    }

    /// Whether the form is another one whose range was made to run forward. Whole days end on the
    /// first day where they would end before it. A time slot that does not end after its start ends
    /// an hour after it; only where its start alone was changed, it starts an hour before its end.
    pub open spec fn forward_from(
        self,
        before: ScheduleForm,
        original: Option<OriginalTimedEvent>,
        offsets: LocalOffsets,
    ) -> bool {
        if before.all_day {
            match (before.start_date, before.end_date) {
                (Some(start), Some(end)) => if end@ < start@ {
                    self == ScheduleForm {
                        end_date: Some(start),
                        end_time: match before.end_time {
                            Some(parts) => Some((start, parts.1, parts.2)),
                            None => None,
                        },
                        ..before
                    }
                } else {
                    self == before
                },
                _ => self == before,
            }
        } else {
            match (before.start_time, before.end_time) {
                (Some(start), Some(end)) => match (
                    endpoint_instant(start, start_before(original), offsets.start),
                    endpoint_instant(end, end_before(original), offsets.end),
                ) {
                    (Some(from), Some(to)) => if from.before(to) {
                        self == before
                    } else if only_start_changed(start, end, original) {
                        self.start_time matches Some(parts) && date_time_chooser::is_after(
                            end,
                            -60,
                            parts,
                        ) && self == (ScheduleForm {
                            start_time: Some(parts),
                            start_date: Some(parts.0),
                            ..before
                        })
                    } else {
                        self.end_time matches Some(parts) && date_time_chooser::is_after(
                            start,
                            60,
                            parts,
                        ) && self == (ScheduleForm {
                            end_time: Some(parts),
                            end_date: Some(parts.0),
                            ..before
                        })
                    },
                    _ => self == before,
                },
                _ => self == before,
            }
        }
    }

    /// Make the range that is entered run forward.
    pub fn ensure_forward_range(
        &mut self,
        original: &Option<OriginalTimedEvent>,
        offsets: LocalOffsets,
    )
        requires
            old(self).has_room(*original, offsets),
        ensures
            final(self).forward_from(*old(self), *original, offsets),
    {
        if self.all_day {
            if let (Some(start), Some(end)) = (self.start_date, self.end_date) {
                if end.before(&start) {
                    self.end_date = Some(start);
                    if let Some((_, hour, minute)) = self.end_time {
                        self.end_time = Some((start, hour, minute));
                    }
                }
            }
            return;
        }
        if let (Some(start), Some(end)) = (self.start_time, self.end_time) {
            let (start_original, end_original) = match original {
                Some(event) => (Some(event.start), Some(event.end)),
                None => (None, None),
            };
            if let (Some(from), Some(to)) = (
                endpoint_datetime(start, start_original, offsets.start),
                endpoint_datetime(end, end_original, offsets.end),
            ) {
                if from.before(&to) {
                    return;
                }
                let start_alone = match original {
                    Some(event) => same_displayed_minute(&event.end, end)
                        && !same_displayed_minute(&event.start, start),
                    None => false,
                };
                if start_alone {
                    if let Some(parts) = shift_wall_clock(end, -60) {
                        self.start_time = Some(parts);
                        self.start_date = Some(parts.0);
                    }
                } else {
                    if let Some(parts) = shift_wall_clock(start, 60) {
                        self.end_time = Some(parts);
                        self.end_date = Some(parts.0);
                    }
                }
            }
        }
    }

    /// The form after a date or a time was changed: what is entered for whole days and for a time
    /// slot is kept on the same dates.
    pub open spec fn aligned(self) -> ScheduleForm {
        if self.all_day {
            match (self.start_date, self.end_date) {
                (Some(start), Some(end)) => ScheduleForm {
                    start_time: Some(
                        match self.start_time {
                            Some(parts) => (start, parts.1, parts.2),
                            None => (start, 9, 0),
                        },
                    ),
                    end_time: Some(
                        match self.end_time {
                            Some(parts) => (end, parts.1, parts.2),
                            None => (end, 10, 0),
                        },
                    ),
                    ..self
                },
                _ => self,
            }
        } else {
            match (self.start_time, self.end_time) {
                (Some(start), Some(end)) => ScheduleForm {
                    start_date: Some(start.0),
                    end_date: Some(end.0),
                    ..self
                },
                _ => self,
            }
        }
    }

    /// Whether there is anything to do after a change of whole days: both dates are entered.
    pub open spec fn is_complete(self) -> bool {
        self.all_day ==> self.start_date is Some && self.end_date is Some
    }

    /// A date or a time was changed: keep both kinds of entry on the same dates, and the range
    /// running forward.
    pub fn schedule_changed(&mut self, original: &Option<OriginalTimedEvent>, offsets: LocalOffsets)
        requires
            old(self).aligned().has_room(*original, offsets),
        ensures
            if old(self).is_complete() {
                final(self).forward_from(old(self).aligned(), *original, offsets)
            } else {
                *final(self) == *old(self)
            },
    {
        if self.all_day {
            if let (Some(start), Some(end)) = (self.start_date, self.end_date) {
                let (start_hour, start_minute): (i32, i32) = match self.start_time {
                    Some((_, hour, minute)) => (hour, minute),
                    None => (9, 0),
                };
                let (end_hour, end_minute): (i32, i32) = match self.end_time {
                    Some((_, hour, minute)) => (hour, minute),
                    None => (10, 0),
                };
                self.start_time = Some((start, start_hour, start_minute));
                self.end_time = Some((end, end_hour, end_minute));
            } else {
                return;
            }
        } else if let (Some(start), Some(end)) = (self.start_time, self.end_time) {
            self.start_date = Some(start.0);
            self.end_date = Some(end.0);
        }
        assert(*self == old(self).aligned());
        self.ensure_forward_range(original, offsets);
    }
}

/// Whole days run forward once they were made to.
pub proof fn law_whole_days_run_forward(
    before: ScheduleForm,
    after: ScheduleForm,
    original: Option<OriginalTimedEvent>,
    offsets: LocalOffsets,
)
    requires
        before.all_day,
        before.start_date is Some,
        before.end_date is Some,
        after.forward_from(before, original, offsets),
    ensures
        after.start_date->0@ <= after.end_date->0@,
{
}

/// A time slot that was made to run forward is an hour long by its clocks.
pub proof fn law_moved_slot_is_an_hour(
    before: ScheduleForm,
    after: ScheduleForm,
    original: Option<OriginalTimedEvent>,
    offsets: LocalOffsets,
)
    requires
        !before.all_day,
        after.forward_from(before, original, offsets),
        after != before,
    ensures
        after.start_time is Some,
        after.end_time is Some,
        date_time_chooser::minute_of(after.end_time->0) == date_time_chooser::minute_of(
            after.start_time->0,
        ) + 60,
{
}

// ---------------------------------------------------------------------------------------------
// The form
// ---------------------------------------------------------------------------------------------

/// Why an event is not saved.
#[derive(Clone, Copy, Debug, PartialEq, Eq, Structural)]
pub enum SaveRefusal {
    NoCalendar,
    NoStartDate,
    NoEndDate,
    EndOutOfRange,
    NoStartTime,
    NoEndTime,
    InvalidEvent,
}

/// What is said of a refusal.
pub open spec fn refusal_text(refusal: SaveRefusal) -> Seq<char> {
    match refusal {
        SaveRefusal::NoCalendar => "Choose a writable calendar."@,
        SaveRefusal::NoStartDate => "Choose a valid start date."@,
        SaveRefusal::NoEndDate => "Choose a valid end date."@,
        SaveRefusal::EndOutOfRange => "The end date is out of range."@,
        SaveRefusal::NoStartTime => "Choose a valid start time."@,
        SaveRefusal::NoEndTime => "Choose a valid end time."@,
        SaveRefusal::InvalidEvent => "Enter a title and a range where the end is after the start."@,
    }
}

impl SaveRefusal {
    /// What is said of a refusal.
    pub fn message(&self) -> (r: &'static str)
        ensures
            r@ == refusal_text(*self),
    {
        match self {
            SaveRefusal::NoCalendar => "Choose a writable calendar.",
            SaveRefusal::NoStartDate => "Choose a valid start date.",
            SaveRefusal::NoEndDate => "Choose a valid end date.",
            SaveRefusal::EndOutOfRange => "The end date is out of range.",
            SaveRefusal::NoStartTime => "Choose a valid start time.",
            SaveRefusal::NoEndTime => "Choose a valid end time.",
            SaveRefusal::InvalidEvent => "Enter a title and a range where the end is after the start.",
        }
    }
}

/// An event that is being entered, or changed where there is one already.
#[derive(Debug)]
pub struct EventEditor {
    /// The calendars to choose from.
    pub calendars: Vec<Calendar>,
    /// The place of the chosen calendar.
    pub selected: usize,
    pub editing_event: Option<Event>,
    pub original: Option<OriginalTimedEvent>,
    pub title: String,
    pub location: String,
    pub description: String,
    pub schedule: ScheduleForm,
}

/// The schedule that is entered, or why there is none.
pub open spec fn entered_schedule(
    form: ScheduleForm,
    original: Option<OriginalTimedEvent>,
    offsets: LocalOffsets,
) -> Result<ScheduleView, SaveRefusal> {
    if form.all_day {
        match (form.start_date, form.end_date) {
            (None, _) => Err(SaveRefusal::NoStartDate),
            (_, None) => Err(SaveRefusal::NoEndDate),
            (Some(start), Some(end)) => if date::is_day(end@ + 1) {
                Ok(
                    ScheduleView::AllDay {
                        start_date: start,
                        end_date_exclusive: date::date_of(end@ + 1),
                    },
                )
            } else {
                Err(SaveRefusal::EndOutOfRange)
            },
        }
    } else {
        match (form.start_time, form.end_time) {
            (None, _) => Err(SaveRefusal::NoStartTime),
            (_, None) => Err(SaveRefusal::NoEndTime),
            (Some(start), Some(end)) => match (
                endpoint_instant(start, start_before(original), offsets.start),
                endpoint_instant(end, end_before(original), offsets.end),
            ) {
                (None, _) => Err(SaveRefusal::NoStartTime),
                (_, None) => Err(SaveRefusal::NoEndTime),
                (Some(from), Some(to)) => Ok(
                    ScheduleView::Timed {
                        start: date::date_time_of(from),
                        end: date::date_time_of(to),
                        timezone: match original {
                            Some(event) => model::text_view(event.timezone),
                            None => None,
                        },
                    },
                ),
            },
        }
    }
}

/// The schedule that is entered.
fn read_schedule(form: &ScheduleForm, original: &Option<OriginalTimedEvent>, offsets: LocalOffsets) -> (r:
    Result<EventSchedule, SaveRefusal>)
    ensures
        match r {
            Ok(schedule) => entered_schedule(*form, *original, offsets) == Ok::<
                ScheduleView,
                SaveRefusal,
            >(schedule@),
            Err(refusal) => entered_schedule(*form, *original, offsets) == Err::<
                ScheduleView,
                SaveRefusal,
            >(refusal),
        },
{
    if form.all_day {
        let start_date = match form.start_date {
            Some(day) => day,
            None => {
                return Err(SaveRefusal::NoStartDate);
            },
        };
        let end_date = match form.end_date {
            Some(day) => day,
            None => {
                return Err(SaveRefusal::NoEndDate);
            },
        };
        match end_date.succ_opt() {
            Some(end_date_exclusive) => {
                proof {
                    date::lemma_date_of_day(end_date_exclusive);
                }
                Ok(EventSchedule::AllDay { start_date, end_date_exclusive })
            },
            None => Err(SaveRefusal::EndOutOfRange),
        }
    } else {
        let start_parts = match form.start_time {
            Some(parts) => parts,
            None => {
                return Err(SaveRefusal::NoStartTime);
            },
        };
        let end_parts = match form.end_time {
            Some(parts) => parts,
            None => {
                return Err(SaveRefusal::NoEndTime);
            },
        };
        let (start_original, end_original) = match original {
            Some(event) => (Some(event.start), Some(event.end)),
            None => (None, None),
        };
        let start = match endpoint_datetime(start_parts, start_original, offsets.start) {
            Some(instant) => instant,
            None => {
                return Err(SaveRefusal::NoStartTime);
            },
        };
        let end = match endpoint_datetime(end_parts, end_original, offsets.end) {
            Some(instant) => instant,
            None => {
                return Err(SaveRefusal::NoEndTime);
            },
        };
        let timezone = match original {
            Some(event) => model::copy_text(&event.timezone),
            None => None,
        };
        proof {
            date::lemma_date_time_of_view(start);
            date::lemma_date_time_of_view(end);
        }
        Ok(EventSchedule::Timed { start, end, timezone })
    }
}

impl EventEditor {
    /// The event that is entered, with the identifier `fresh` where it is a new one, or why it
    /// cannot be saved.
    pub open spec fn saved(self, fresh: Uuid, offsets: LocalOffsets) -> Result<EventView, SaveRefusal> {
        if self.selected >= self.calendars@.len() {
            Err(SaveRefusal::NoCalendar)
        } else {
            match entered_schedule(self.schedule, self.original, offsets) {
                Err(refusal) => Err(refusal),
                Ok(schedule) => {
                    let event = EventView {
                        id: match self.editing_event {
                            Some(event) => event.id,
                            None => fresh,
                        },
                        calendar_id: self.calendars@[self.selected as int]@.id,
                        title: text::trimmed(self.title@),
                        location: self.location@,
                        description: self.description@,
                        schedule,
                        recurrence: match self.editing_event {
                            Some(event) => event@.recurrence,
                            None => None,
                        },
                        reminders: match self.editing_event {
                            Some(event) => event@.reminders,
                            None => seq![],
                        },
                    };
                    if text::trimmed(self.title@).len() > 0 && schedule.runs_forward() {
                        Ok(event)
                    } else {
                        Err(SaveRefusal::InvalidEvent)
                    }
                },
            }
        }
    }

    /// Choose the calendar with an identifier, where it is among those to choose from.
    fn select(&mut self, id: Uuid)
        ensures
            final(self).calendars == old(self).calendars,
            final(self).editing_event == old(self).editing_event,
            final(self).original == old(self).original,
            final(self).title == old(self).title,
            final(self).location == old(self).location,
            final(self).description == old(self).description,
            final(self).schedule == old(self).schedule,
            is_selection(
                final(self).selected as int,
                old(self).calendars@,
                id,
                old(self).selected as int,
            ),
    {
        if let Some(place) = calendar_list::select_calendar(&self.calendars, id) {
            self.selected = place;
        }
    }

    /// A form for a new event on a day: it takes whole days at first.
    pub fn set_create_defaults(&mut self, title: &str, calendar_id: Uuid, date: Date)
        ensures
            final(self).calendars == old(self).calendars,
            final(self).editing_event is None,
            final(self).original is None,
            final(self).title@ == title@,
            final(self).location@ == Seq::<char>::empty(),
            final(self).description@ == Seq::<char>::empty(),
            final(self).schedule == (ScheduleForm {
                all_day: true,
                start_date: Some(date),
                end_date: Some(date),
                start_time: Some((date, 9, 0)),
                end_time: Some((date, 10, 0)),
            }),
            is_selection(
                final(self).selected as int,
                old(self).calendars@,
                calendar_id,
                old(self).selected as int,
            ),
    {
        self.editing_event = None;
        self.original = None;
        self.title = String::from_str(title);
        self.location = String::new();
        self.description = String::new();
        self.schedule = ScheduleForm {
            all_day: true,
            start_date: Some(date),
            end_date: Some(date),
            start_time: Some((date, 9, 0)),
            end_time: Some((date, 10, 0)),
        };
        self.select(calendar_id);
    }

    /// A form for a change of an event, as it is before its range is made to run forward. What is
    /// entered for the other kind of schedule stays, but for the times of whole days.
    pub open spec fn form_of(schedule: ScheduleView, before: ScheduleForm) -> ScheduleForm {
        match schedule {
            ScheduleView::AllDay { start_date, end_date_exclusive } => {
                let last = date::date_of(event_popover::last_day(end_date_exclusive@));
                ScheduleForm {
                    all_day: true,
                    start_date: Some(start_date),
                    end_date: Some(last),
                    start_time: Some((start_date, 9, 0)),
                    end_time: Some((last, 10, 0)),
                }
            },
            ScheduleView::Timed { start, end, .. } => ScheduleForm {
                all_day: false,
                start_time: Some(displayed(start@)),
                end_time: Some(displayed(end@)),
                ..before
            },
        }
    }

    /// Whether the instants that an event had are those of a schedule.
    pub open spec fn is_original(original: OriginalTimedEvent, schedule: ScheduleView) -> bool {
        schedule matches ScheduleView::Timed { start, end, timezone } && original.start == start
            && original.end == end && model::text_view(original.timezone) == timezone
    }

    /// Change an event.
    pub fn set_event(&mut self, event: &Event, offsets: LocalOffsets)
        requires
            event@.schedule matches ScheduleView::Timed { start, end, .. } ==> start@.before(end@)
                || date_time_chooser::has_after(displayed(start@), 60),
        ensures
            final(self).calendars == old(self).calendars,
            final(self).editing_event matches Some(kept) && kept@ == event@,
            match final(self).original {
                None => event@.schedule is AllDay,
                Some(original) => EventEditor::is_original(original, event@.schedule),
            },
            final(self).title@ == event@.title,
            final(self).location@ == event@.location,
            final(self).description@ == event@.description,
            final(self).schedule.forward_from(
                EventEditor::form_of(event@.schedule, old(self).schedule),
                final(self).original,
                offsets,
            ),
            is_selection(
                final(self).selected as int,
                old(self).calendars@,
                event@.calendar_id,
                old(self).selected as int,
            ),
    {
        broadcast use date::lemma_date_of, date::lemma_date_ext;

        self.editing_event = Some(event.clone());
        self.title = event.title.clone();
        self.location = event.location.clone();
        self.description = event.description.clone();
        self.select(event.calendar_id);
        match &event.schedule {
            EventSchedule::AllDay { start_date, end_date_exclusive } => {
                let last = event_popover::display_end(end_date_exclusive);
                proof {
                    date::lemma_date_of_day(last);
                }
                self.original = None;
                self.schedule = ScheduleForm {
                    all_day: true,
                    start_date: Some(*start_date),
                    end_date: Some(last),
                    start_time: Some((*start_date, 9, 0)),
                    end_time: Some((last, 10, 0)),
                };
            },
            EventSchedule::Timed { start, end, timezone } => {
                self.original = Some(
                    OriginalTimedEvent {
                        start: *start,
                        end: *end,
                        timezone: model::copy_text(timezone),
                    },
                );
                self.schedule.all_day = false;
                self.schedule.start_time = Some(display(start));
                self.schedule.end_time = Some(display(end));
                proof {
                    law_unchanged_event_keeps_its_instants(*start, offsets.start);
                    law_unchanged_event_keeps_its_instants(*end, offsets.end);
                }
            },
        }
        assert(self.schedule == EventEditor::form_of(event@.schedule, old(self).schedule));
        self.schedule.ensure_forward_range(&self.original, offsets);
    }

    /// Save what is entered, with the identifier `fresh` where it is a new event.
    pub fn save_given(&self, fresh: Uuid, offsets: LocalOffsets) -> (r: Result<Event, SaveRefusal>)
        ensures
            match r {
                Ok(event) => self.saved(fresh, offsets) == Ok::<EventView, SaveRefusal>(event@),
                Err(refusal) => self.saved(fresh, offsets) == Err::<EventView, SaveRefusal>(refusal),
            },
    {
        if self.selected >= self.calendars.len() {
            return Err(SaveRefusal::NoCalendar);
        }
        let calendar_id: Uuid = self.calendars[self.selected].id;
        let schedule = match read_schedule(&self.schedule, &self.original, offsets) {
            Ok(schedule) => schedule,
            Err(refusal) => {
                return Err(refusal);
            },
        };
        let (id, recurrence, reminders) = match &self.editing_event {
            Some(event) => (
                event.id,
                model::copy_recurrence(&event.recurrence),
                model::copy_reminders(&event.reminders),
            ),
            None => (fresh, None, Vec::new()),
        };
        let candidate = Event {
            id,
            calendar_id,
            title: self.title.clone(),
            location: self.location.clone(),
            description: self.description.clone(),
            schedule,
            recurrence,
            reminders,
        };
        let ghost entered = candidate@;
        match model::validate_event(candidate) {
            Ok(event) => {
                assert(self.editing_event is None ==> event@.reminders =~= seq![]);
                Ok(event)
            },
            Err(_) => Err(SaveRefusal::InvalidEvent),
        }
    }

    /// Save what is entered. A new event gets a new random identifier.
    pub fn save_clicked(&self, offsets: LocalOffsets) -> (r: Result<Event, SaveRefusal>)
        ensures
            exists|fresh: Uuid|
                ids::is_random_id(fresh) && match r {
                    Ok(event) => (#[trigger] self.saved(fresh, offsets)) == Ok::<
                        EventView,
                        SaveRefusal,
                    >(event@),
                    Err(refusal) => self.saved(fresh, offsets) == Err::<EventView, SaveRefusal>(
                        refusal,
                    ),
                },
    {
        let fresh: Uuid = ids::new_id();
        self.save_given(fresh, offsets)
    }
}

/// Whether a place is the one to select for an identifier: that of the first calendar that has it, or
/// the place of before where none has it.
pub open spec fn is_selection(place: int, calendars: Seq<Calendar>, id: Uuid, before: int) -> bool {
    if exists|i: int| 0 <= i < calendars.len() && (#[trigger] calendars[i])@.id == id {
        0 <= place < calendars.len() && calendars[place]@.id == id && forall|k: int|
            0 <= k < place ==> (#[trigger] calendars[k])@.id != id
    } else {
        place == before
    }
}

/// What the clocks of an instant show.
pub open spec fn displayed(v: DateTimeView) -> (Date, i32, i32) {
    (
        date::date_of(v.local_day()),
        (v.local_second() / 3600) as i32,
        (v.local_second() / 60 % 60) as i32,
    )
}

/// What the clocks of an instant show.
fn display(instant: &DateTime) -> (r: (Date, i32, i32))
    ensures
        r == displayed(instant@),
        instant@.valid(),
{
    let day = instant.local_date();
    let time = instant.local_time();
    proof {
        date::lemma_date_of_day(day);
    }
    (day, time.hour() as i32, time.minute() as i32)
}

/// An event that is opened and saved as it stands keeps its instants.
pub proof fn law_unchanged_event_keeps_its_instants(instant: DateTime, offset: Option<i64>)
    requires
        instant@.valid(),
    ensures
        endpoint_instant(displayed(instant@), Some(instant), offset) == Some(instant@),
{
    date::lemma_local_day_in_range(instant@);
    date::lemma_date_of(instant@.local_day());
    let second = instant@.local_second();
    assert(0 <= second / 3600 < 24 && 0 <= second / 60 % 60 < 60);
}

/// An instant that is entered shows, on the clocks with its offset, the date and the time that were
/// entered, on the minute; and it is there where it is representable.
pub proof fn law_entered_instants(parts: (Date, i32, i32), offset: i64)
    ensures
        local_instant(parts, Some(offset)) matches Some(v) ==> v.local_day() == parts.0@
            && v.local_second() == parts.1 * 3600 + parts.2 * 60 && v.nanos == 0 && v.offset == offset,
        local_instant(parts, None) is None,
        0 <= parts.1 < 24 && 0 <= parts.2 < 60 && (DateTimeView {
            seconds: (parts.0@ - 719163) * 86400 + parts.1 * 3600 + parts.2 * 60 - offset,
            nanos: 0,
            offset: offset as int,
        }).valid() ==> local_instant(parts, Some(offset)) is Some,
{
    if 0 <= parts.1 < 24 && 0 <= parts.2 < 60 {
        let local = parts.0@ * 86400 + parts.1 * 3600 + parts.2 * 60;
        assert(local / 86400 == parts.0@);
        assert(local % 86400 == parts.1 * 3600 + parts.2 * 60);
    }
}

/// An end of an event that was not changed keeps its instant, with its seconds and its offset; one that
/// was changed is what was entered.
pub proof fn law_ends_that_were_changed(parts: (Date, i32, i32), original: DateTime, offset: Option<i64>)
    ensures
        original@.local_day() == parts.0@ && original@.local_second() / 3600 == parts.1
            && original@.local_second() / 60 % 60 == parts.2 ==> endpoint_instant(
            parts,
            Some(original),
            offset,
        ) == Some(original@),
        !(original@.local_day() == parts.0@ && original@.local_second() / 3600 == parts.1
            && original@.local_second() / 60 % 60 == parts.2) ==> endpoint_instant(
            parts,
            Some(original),
            offset,
        ) == local_instant(parts, offset),
        endpoint_instant(parts, None, offset) == local_instant(parts, offset),
{
}

/// An event on whole days that is entered ends on the day after its last; what is missing is asked for.
pub proof fn law_entered_days(form: ScheduleForm, original: Option<OriginalTimedEvent>, offsets: LocalOffsets)
    requires
        form.all_day,
    ensures
        form.start_date is None ==> entered_schedule(form, original, offsets) == Err::<
            ScheduleView,
            SaveRefusal,
        >(SaveRefusal::NoStartDate),
        form.start_date is Some && form.end_date is None ==> entered_schedule(form, original, offsets)
            == Err::<ScheduleView, SaveRefusal>(SaveRefusal::NoEndDate),
        form.start_date matches Some(start) ==> form.end_date matches Some(end) ==> {
            &&& date::is_day(end@ + 1) ==> entered_schedule(form, original, offsets) is Ok && (
            entered_schedule(form, original, offsets)->Ok_0 matches ScheduleView::AllDay {
                start_date,
                end_date_exclusive,
            } && start_date == start && end_date_exclusive@ == end@ + 1)
            &&& !date::is_day(end@ + 1) ==> entered_schedule(form, original, offsets) == Err::<
                ScheduleView,
                SaveRefusal,
            >(SaveRefusal::EndOutOfRange)
        },
{
    if form.start_date is Some && form.end_date is Some && date::is_day(form.end_date->0@ + 1) {
        date::lemma_date_of(form.end_date->0@ + 1);
    }
}

/// An event with times that is entered lies between the instants of its two ends, in the zone that it
/// had; what is missing is asked for.
pub proof fn law_entered_times(
    form: ScheduleForm,
    original: Option<OriginalTimedEvent>,
    offsets: LocalOffsets,
    from: DateTimeView,
    to: DateTimeView,
)
    requires
        !form.all_day,
    ensures
        form.start_time is None ==> entered_schedule(form, original, offsets) == Err::<
            ScheduleView,
            SaveRefusal,
        >(SaveRefusal::NoStartTime),
        form.start_time is Some && form.end_time is None ==> entered_schedule(form, original, offsets)
            == Err::<ScheduleView, SaveRefusal>(SaveRefusal::NoEndTime),
        form.start_time is Some && form.end_time is Some && original is None && local_instant(
            form.start_time->0,
            offsets.start,
        ) == Some(from) && local_instant(form.end_time->0, offsets.end) == Some(to) ==> (entered_schedule(
            form,
            original,
            offsets,
        ) matches Ok(ScheduleView::Timed { start, end, timezone }) && start@ == from && end@ == to
            && timezone is None),
        form.start_time is Some && form.end_time is Some && original is None && local_instant(
            form.start_time->0,
            offsets.start,
        ) is None ==> entered_schedule(form, original, offsets) == Err::<ScheduleView, SaveRefusal>(
            SaveRefusal::NoStartTime,
        ),
{
    if from.valid() {
        date::lemma_date_time_of(from);
    }
    if to.valid() {
        date::lemma_date_time_of(to);
    }
}

/// An event that is opened and saved without a change keeps its time.
pub proof fn law_opened_event_keeps_its_time(
    schedule: ScheduleView,
    before: ScheduleForm,
    original: Option<OriginalTimedEvent>,
    offsets: LocalOffsets,
)
    requires
        schedule matches ScheduleView::AllDay { end_date_exclusive, .. } ==> date::is_day(
            end_date_exclusive@,
        ) && date::is_day(end_date_exclusive@ - 1),
        schedule matches ScheduleView::Timed { start, end, .. } ==> start@.valid() && end@.valid() && (
        original matches Some(event) && EventEditor::is_original(event, schedule)),
    ensures
        entered_schedule(EventEditor::form_of(schedule, before), original, offsets) == Ok::<
            ScheduleView,
            SaveRefusal,
        >(schedule),
{
    match schedule {
        ScheduleView::AllDay { start_date, end_date_exclusive } => {
            date::lemma_date_of(end_date_exclusive@ - 1);
            date::lemma_date_of_day(end_date_exclusive);
        },
        ScheduleView::Timed { start, end, .. } => {
            law_unchanged_event_keeps_its_instants(start, offsets.start);
            law_unchanged_event_keeps_its_instants(end, offsets.end);
            date::lemma_date_time_of_view(start);
            date::lemma_date_time_of_view(end);
        },
    }
}

/// An event is saved with what was entered, in the chosen calendar; it keeps its identifier, its rule
/// and its reminders where it was there before. It is refused without a calendar, a title, or an end
/// after its start.
pub proof fn law_saved_event(editor: EventEditor, fresh: Uuid, offsets: LocalOffsets)
    ensures
        editor.selected >= editor.calendars@.len() ==> editor.saved(fresh, offsets) == Err::<
            EventView,
            SaveRefusal,
        >(SaveRefusal::NoCalendar),
        editor.selected < editor.calendars@.len() ==> match entered_schedule(
            editor.schedule,
            editor.original,
            offsets,
        ) {
            Err(refusal) => editor.saved(fresh, offsets) == Err::<EventView, SaveRefusal>(refusal),
            Ok(schedule) => {
                let proper = text::trimmed(editor.title@) != Seq::<char>::empty()
                    && schedule.runs_forward();
                &&& !proper ==> editor.saved(fresh, offsets) == Err::<EventView, SaveRefusal>(
                    SaveRefusal::InvalidEvent,
                )
                &&& proper ==> {
                    &&& editor.saved(fresh, offsets) matches Ok(event)
                    &&& event.calendar_id == editor.calendars@[editor.selected as int]@.id
                    &&& event.title == text::trimmed(editor.title@)
                    &&& event.location == editor.location@
                    &&& event.description == editor.description@
                    &&& event.schedule == schedule
                    &&& editor.editing_event is None ==> event.id == fresh && event.recurrence is None
                        && event.reminders == Seq::<model::ReminderView>::empty()
                    &&& editor.editing_event matches Some(before) ==> event.id == before.id
                        && event.recurrence == before@.recurrence && event.reminders
                        == before@.reminders
                }
            },
        },
{
    assert(text::trimmed(editor.title@).len() == 0 ==> text::trimmed(editor.title@) =~= Seq::empty());
}

/// Dates and times that are entered twice agree: those not in use take the days of those in use, and
/// keep their times, which are nine and ten o'clock where there were none.
pub proof fn law_dates_and_times_agree(form: ScheduleForm)
    ensures
        form.all_day && form.start_date is Some && form.end_date is Some ==> {
            let after = form.aligned();
            &&& after.start_time is Some && after.end_time is Some
            &&& (after.start_time->0).0 == form.start_date->0 && (after.end_time->0).0 == form.end_date->0
            &&& form.start_time matches Some(parts) ==> (after.start_time->0).1 == parts.1
                && (after.start_time->0).2 == parts.2
            &&& form.end_time matches Some(parts) ==> (after.end_time->0).1 == parts.1
                && (after.end_time->0).2 == parts.2
            &&& form.start_time is None ==> (after.start_time->0).1 == 9 && (after.start_time->0).2 == 0
            &&& form.end_time is None ==> (after.end_time->0).1 == 10 && (after.end_time->0).2 == 0
            &&& after.start_date == form.start_date && after.end_date == form.end_date && after.all_day
        },
        !form.all_day && form.start_time is Some && form.end_time is Some ==> {
            let after = form.aligned();
            &&& after.start_date == Some((form.start_time->0).0)
            &&& after.end_date == Some((form.end_time->0).0)
            &&& after.start_time == form.start_time && after.end_time == form.end_time && !after.all_day
        },
        form.aligned().aligned() == form.aligned(),
{
}

/// What is said where an event cannot be saved.
pub proof fn law_refusals_that_are_said()
    ensures
        refusal_text(SaveRefusal::NoCalendar) == "Choose a writable calendar."@,
        refusal_text(SaveRefusal::NoStartDate) == "Choose a valid start date."@,
        refusal_text(SaveRefusal::NoEndDate) == "Choose a valid end date."@,
        refusal_text(SaveRefusal::EndOutOfRange) == "The end date is out of range."@,
        refusal_text(SaveRefusal::NoStartTime) == "Choose a valid start time."@,
        refusal_text(SaveRefusal::NoEndTime) == "Choose a valid end time."@,
        refusal_text(SaveRefusal::InvalidEvent)
            == "Enter a title and a range where the end is after the start."@,
{
}

/// A time that runs forward is left as it is; otherwise the end that was not changed stays, and the
/// other is moved to an hour from it.
pub proof fn law_which_end_is_moved(
    before: ScheduleForm,
    after: ScheduleForm,
    original: Option<OriginalTimedEvent>,
    offsets: LocalOffsets,
)
    requires
        after.forward_from(before, original, offsets),
    ensures
        after.all_day == before.all_day,
        before.all_day ==> after.start_date == before.start_date && after.start_time
            == before.start_time,
        before.all_day && before.start_date is Some && before.end_date is Some ==> after.end_date == Some(
            if before.end_date->0@ < before.start_date->0@ {
                before.start_date->0
            } else {
                before.end_date->0
            },
        ),
        !before.all_day ==> after.start_time == before.start_time || after.end_time == before.end_time,
        !before.all_day && after != before ==> (before.start_time matches Some(start)
            && before.end_time matches Some(end) && (if only_start_changed(start, end, original) {
            after.end_time == before.end_time
        } else {
            after.start_time == before.start_time
        })),
{
}

/// The calendar that is chosen is the one with the identifier; where there is none, the choice stays.
pub proof fn law_chosen_calendar(place: int, calendars: Seq<Calendar>, id: Uuid, before: int, i: int)
    requires
        is_selection(place, calendars, id, before),
    ensures
        0 <= i < calendars.len() && calendars[i]@.id == id && (forall|k: int|
            0 <= k < calendars.len() && k != i ==> (#[trigger] calendars[k])@.id != id) ==> place == i,
        (forall|k: int| 0 <= k < calendars.len() ==> (#[trigger] calendars[k])@.id != id) ==> place == before,
{
    if 0 <= i < calendars.len() && calendars[i]@.id == id {
        assert(0 <= place < calendars.len() && calendars[place]@.id == id);
    }
}

} // verus!
