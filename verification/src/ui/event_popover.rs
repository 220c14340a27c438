//! The details of an event.
use vstd::prelude::*;

use crate::date;
use crate::date::{Date, DateTime, DateTimeView};
use crate::model;
use crate::model::{CalendarView, Calendar, Event, EventSchedule, ScheduleView};
use crate::lists;
use crate::text;
use crate::time_format;
use crate::ui::names;

verus! {

/// A day as seen from today.
pub open spec fn relative_date(day: int, today: int) -> Seq<char> {
    let (year, month, day_of_month) = date::civil_of(day);
    let plain = names::month_word(month) + " "@ + text::decimal(day_of_month as nat);
    if day == today {
        "Today"@
    } else if day == today + 1 {
        "Tomorrow"@
    } else if day == today - 1 {
        "Yesterday"@
    } else if year == date::civil_of(today).0 {
        plain
    } else {
        plain + ", "@ + text::signed_decimal(year)
    }
}

/// A day as seen from today: the year is given where it is another.
pub fn format_relative_date(date: &Date, today: &Date) -> (r: String)
    ensures
        r@ == relative_date(date@, today@),
{
    let ahead: i64 = date.days() as i64 - today.days() as i64;
    if ahead == 0 {
        return String::from_str("Today");
    }
    if ahead == 1 {
        return String::from_str("Tomorrow");
    }
    if ahead == -1 {
        return String::from_str("Yesterday");
    }
    let (year, month, day): (i32, u32, u32) = date.ymd();
    let (this_year, _, _): (i32, u32, u32) = today.ymd();
    let mut out = text::joined(names::month_name(month), " ");
    out.append(text::decimal_text(day as u64).as_str());
    if year != this_year {
        out.append(", ");
        out.append(text::signed_decimal_text(year as i64).as_str());
    }
    assert(out@ =~= relative_date(date@, today@));
    out
}

/// A time of an instant by its clocks, with twenty-four hours.
pub open spec fn clock(v: DateTimeView) -> Seq<char> {
    time_format::twenty_four_hour_text(v.local_second() / 3600, v.local_second() / 60 % 60)
}

/// A time of an instant by its clocks.
fn clock_text(instant: &DateTime) -> (r: String)
    ensures
        r@ == clock(instant@),
{
    let time = instant.local_time();
    let mut out = text::two_digit_text(time.hour());
    out.push(':');
    out.append(text::two_digit_text(time.minute()).as_str());
    assert(out@ =~= clock(instant@));
    out
}

/// What stands between the two ends of a range.
pub open spec fn dash() -> Seq<char> {
    " – "@
}

/// The last day of a range of whole days; the first day after it where there is none before.
pub open spec fn last_day(end_date_exclusive: int) -> int {
    if date::is_day(end_date_exclusive - 1) {
        end_date_exclusive - 1
    } else {
        end_date_exclusive
    }
}

/// The last day of a range of whole days.
pub fn display_end(end_date_exclusive: &Date) -> (r: Date)
    ensures
        r@ == last_day(end_date_exclusive@),
{
    match end_date_exclusive.plus_days(-1) {
        Some(day) => day,
        None => *end_date_exclusive,
    }
}

/// When an event takes place, as seen from today.
pub open spec fn schedule_text(schedule: ScheduleView, today: int) -> Seq<char> {
    match schedule {
        ScheduleView::AllDay { start_date, end_date_exclusive } => {
            let last = last_day(end_date_exclusive@);
            if start_date@ == last {
                relative_date(last, today)
            } else {
                relative_date(start_date@, today) + dash() + relative_date(last, today)
            }
        },
        ScheduleView::Timed { start, end, .. } => {
            let first = relative_date(start@.local_day(), today) + ", "@ + clock(start@) + dash();
            if start@.local_day() == end@.local_day() {
                first + clock(end@)
            } else {
                first + relative_date(end@.local_day(), today) + ", "@ + clock(end@)
            }
        },
    }
}

/// When an event takes place, as seen from today.
pub fn format_schedule(schedule: &EventSchedule, today: &Date) -> (r: String)
    ensures
        r@ == schedule_text(schedule@, today@),
{
    match schedule {
        EventSchedule::AllDay { start_date, end_date_exclusive } => {
            let last = display_end(end_date_exclusive);
            let mut out = format_relative_date(start_date, today);
            if !start_date.same(&last) {
                out.append(" – ");
                out.append(format_relative_date(&last, today).as_str());
            }
            assert(out@ =~= schedule_text(schedule@, today@));
            out
        },
        EventSchedule::Timed { start, end, .. } => {
            let first = start.local_date();
            let last = end.local_date();
            let mut out = format_relative_date(&first, today);
            out.append(", ");
            out.append(clock_text(start).as_str());
            out.append(" – ");
            if !first.same(&last) {
                out.append(format_relative_date(&last, today).as_str());
                out.append(", ");
            }
            out.append(clock_text(end).as_str());
            assert(out@ =~= schedule_text(schedule@, today@));
            out
        },
    }
}

/// The details of an event. A text that is blank is not shown.
#[derive(Debug)]
pub struct EventDetails {
    pub summary: String,
    pub date_time: String,
    pub description: Option<String>,
    pub location: Option<String>,
    pub action_icon: &'static str,
    pub action_tooltip: &'static str,
}

/// A text without the white space around it; none where nothing is left.
pub open spec fn not_blank(value: Seq<char>) -> Option<Seq<char>> {
    if text::trimmed(value).len() == 0 {
        None
    } else {
        Some(text::trimmed(value))
    }
}

/// A text without the white space around it, where something is left.
fn shown_text(value: &String) -> (r: Option<String>)
    ensures
        model::text_view(r) == not_blank(value@),
{
    let chars = text::chars_of(value.as_str());
    let kept = text::trim_chars(&chars);
    if kept.len() == 0 {
        None
    } else {
        Some(text::string_of(&kept))
    }
}

impl EventDetails {
    /// The details of an event in a calendar, as seen from today. What is in a calendar that cannot
    /// be changed is offered for viewing only.
    pub fn of_event(event: &Event, calendar: &Option<Calendar>, today: &Date) -> (r: EventDetails)
        ensures
            r.summary@ == event@.title,
            r.date_time@ == schedule_text(event@.schedule, today@),
            model::text_view(r.description) == not_blank(event@.description),
            model::text_view(r.location) == not_blank(event@.location),
            r.action_icon@ == (if only_viewed(lists::view_of(*calendar)) {
                "dialog-information-symbolic"@
            } else {
                "document-edit-symbolic"@
            }),
            r.action_tooltip@ == (if only_viewed(lists::view_of(*calendar)) {
                "View Details"@
            } else {
                "Edit Details"@
            }),
    {
        let read_only = match calendar {
            Some(calendar) => calendar.read_only,
            None => false,
        };
        EventDetails {
            summary: event.title.clone(),
            date_time: format_schedule(&event.schedule, today),
            description: shown_text(&event.description),
            location: shown_text(&event.location),
            action_icon: if read_only {
                "dialog-information-symbolic"
            } else {
                "document-edit-symbolic"
            },
            action_tooltip: if read_only {
                "View Details"
            } else {
                "Edit Details"
            },
        }
    }
}

/// Whether an event in a calendar can only be viewed.
pub open spec fn only_viewed(calendar: Option<CalendarView>) -> bool {
    match calendar {
        Some(calendar) => calendar.read_only,
        None => false,
    }
}

/// A day is called by how it lies to today, or by its month and day, and by its year too where that is
/// not the year of today.
pub proof fn law_what_days_are_called(today: int, year: int, month: int, day: int)
    requires
        date::is_civil(year, month, day),
    ensures
        relative_date(today, today) == "Today"@,
        relative_date(today + 1, today) == "Tomorrow"@,
        relative_date(today - 1, today) == "Yesterday"@,
        ({
            let number = date::day_number(year, month, day);
            let plain = names::month_word(month) + " "@ + text::decimal(day as nat);
            number < today - 1 || number > today + 1 ==> relative_date(number, today) == (if date::civil_of(
                today,
            ).0 == year {
                plain
            } else {
                plain + ", "@ + text::signed_decimal(year)
            })
        }),
{
    date::lemma_civil_of(year, month, day);
}

/// The time of an event names its first day and, where it is another, its last, which is the day before
/// the one that it ends on; an event with times names both times too.
pub proof fn law_time_of_a_shown_event(schedule: ScheduleView, today: int)
    ensures
        schedule matches ScheduleView::AllDay { start_date, end_date_exclusive } ==> date::is_day(
            end_date_exclusive@ - 1,
        ) ==> {
            &&& end_date_exclusive@ == start_date@ + 1 ==> schedule_text(schedule, today)
                == relative_date(start_date@, today)
            &&& end_date_exclusive@ != start_date@ + 1 ==> schedule_text(schedule, today)
                == relative_date(start_date@, today) + " – "@ + relative_date(
                end_date_exclusive@ - 1,
                today,
            )
        },
        schedule matches ScheduleView::Timed { start, end, .. } ==> {
            let first = relative_date(start@.local_day(), today) + ", "@ + text::two_digits(
                start@.local_second() / 3600,
            ) + ":"@ + text::two_digits(start@.local_second() / 60 % 60) + " – "@;
            let last = text::two_digits(end@.local_second() / 3600) + ":"@ + text::two_digits(
                end@.local_second() / 60 % 60,
            );
            &&& start@.local_day() == end@.local_day() ==> schedule_text(schedule, today) == first + last
            &&& start@.local_day() != end@.local_day() ==> schedule_text(schedule, today) == first
                + relative_date(end@.local_day(), today) + ", "@ + last
        },
{
    reveal_strlit(":");
    assert(":"@ =~= seq![':']);
    if let ScheduleView::Timed { start, end, .. } = schedule {
        let first = relative_date(start@.local_day(), today) + ", "@ + text::two_digits(
            start@.local_second() / 3600,
        ) + ":"@ + text::two_digits(start@.local_second() / 60 % 60) + " – "@;
        let last = text::two_digits(end@.local_second() / 3600) + ":"@ + text::two_digits(
            end@.local_second() / 60 % 60,
        );
        assert(clock(end@) =~= last);
        assert(relative_date(start@.local_day(), today) + ", "@ + clock(start@) + dash() =~= first);
    }
}

/// A text that is blank is not shown, and any other without the blanks at its ends. Where nobody can
/// change the calendar of an event, the event is only viewed.
pub proof fn law_what_is_shown_of_an_event(value: Seq<char>, calendar: CalendarView)
    ensures
        not_blank(value) is None <==> text::trimmed(value) == Seq::<char>::empty(),
        not_blank(value) is Some ==> not_blank(value) == Some(text::trimmed(value)),
        only_viewed(Some(calendar)) == calendar.read_only,
        !only_viewed(None),
{
    assert(text::trimmed(value).len() == 0 ==> text::trimmed(value) =~= Seq::empty());
}

} // verus!
