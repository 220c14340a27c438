//! Rows of the store: how the values of the model are written to columns and read back.
use vstd::prelude::*;

use crate::backend::exceptions::Child;
use crate::backend::occurrences;
use crate::date;
use crate::date::{Date, DateTime};
use crate::lines;
use crate::model;
use crate::model::{Account, AccountView, Calendar, CalendarSource, CalendarView, DetachedEvent, DetachedView, Event, EventSchedule, EventView, PendingSyncOperation, PendingView, RecurrenceId, RecurrenceIdView, RecurrenceSpec, RecurrenceView, ScheduleView, Uuid};
use crate::text;

verus! {

/// A row holds what no value of the model is written as.
#[derive(Clone, Copy, Debug, PartialEq, Eq, Structural)]
pub struct RowError;

// ---------------------------------------------------------------------------------------------
// Recurrences
// ---------------------------------------------------------------------------------------------

/// All the lines of a recurrence: rules, dates, then exceptions.
pub open spec fn all_lines(recurrence: RecurrenceView) -> Seq<Seq<char>> {
    recurrence.rrule + recurrence.rdate + recurrence.exdate
}

/// A recurrence as one text: its lines with line feeds between them.
pub open spec fn stored_recurrence(recurrence: Option<RecurrenceView>) -> Option<Seq<char>> {
    match recurrence {
        Some(recurrence) => Some(text::join(all_lines(recurrence), "\n"@)),
        None => None,
    }
}

/// A recurrence as one text.
pub fn recurrence_to_storage(recurrence: &Option<RecurrenceSpec>) -> (r: Option<String>)
    ensures
        model::text_view(r) == stored_recurrence(model::recurrence_view(*recurrence)),
{
    match recurrence {
        Some(recurrence) => {
            let mut all = text::copy_texts(&recurrence.rrule);
            push_all(&mut all, &recurrence.rdate);
            push_all(&mut all, &recurrence.exdate);
            Some(text::join_texts(&all, "\n"))
        },
        None => None,
    }
}

/// Put copies of texts at the end of a list.
fn push_all(list: &mut Vec<String>, more: &Vec<String>)
    ensures
        text::views(final(list)@) == text::views(old(list)@) + text::views(more@),
{
    let ghost before = text::views(list@);
    assert(before + text::views(more@.take(0)) =~= before);
    for i in 0..more.len()
        invariant
            text::views(list@) == before + text::views(more@.take(i as int)),
    {
        let ghost so_far = list@;
        list.push(more[i].clone());
        assert(text::views(list@) =~= text::views(so_far).push(more@[i as int]@));
        assert(text::views(more@.take(i + 1)) =~= text::views(more@.take(i as int)).push(
            more@[i as int]@,
        ));
        assert(text::views(list@) =~= before + text::views(more@.take(i + 1)));
    }
    assert(more@.take(more@.len() as int) =~= more@);
}

/// The recurrence that a text holds: its lines by the properties that they write, other lines left
/// out.
pub fn recurrence_from_storage(data: &str) -> (r: RecurrenceSpec)
    ensures
        r@ == lines::recurrence_of(lines::lines(data@)),
{
    lines::collect_recurrence(&lines::split_lines(&text::chars_of(data)))
}

/// Whether a line stays one line in a text of lines.
pub open spec fn is_one_line(line: Seq<char>) -> bool {
    !line.contains('\n') && lines::without_return(line) == line
}

/// Whether a recurrence holds what it should: each list the lines of its property, each on one line.
pub open spec fn is_proper(recurrence: RecurrenceView) -> bool {
    &&& lines::all_write(recurrence.rrule, "RRULE"@)
    &&& lines::all_write(recurrence.rdate, "RDATE"@)
    &&& lines::all_write(recurrence.exdate, "EXDATE"@)
    &&& forall|i: int|
        0 <= i < all_lines(recurrence).len() ==> is_one_line(#[trigger] all_lines(recurrence)[i])
}

/// The last line of a recurrence is not empty.
proof fn lemma_last_line(recurrence: RecurrenceView)
    requires
        is_proper(recurrence),
        all_lines(recurrence).len() > 0,
    ensures
        all_lines(recurrence).last().len() > 0,
{
    let all = all_lines(recurrence);
    let last = all.len() - 1;
    let (a, b, c) = (recurrence.rrule, recurrence.rdate, recurrence.exdate);
    if last < a.len() {
        assert(all[last] == a[last]);
    } else if last < a.len() + b.len() {
        assert(all[last] == b[last - a.len()]);
    } else {
        assert(all[last] == c[last - a.len() - b.len()]);
    }
}

/// The lines of a recurrence come back from one text.
proof fn lemma_lines_come_back(recurrence: RecurrenceView)
    requires
        is_proper(recurrence),
    ensures
        lines::lines(text::join(all_lines(recurrence), "\n"@)) == all_lines(recurrence),
{
    let all = all_lines(recurrence);
    reveal_strlit("\n");
    assert("\n"@ =~= seq!['\n']);
    if all.len() > 0 {
        lemma_last_line(recurrence);
    }
    assert forall|i: int| 0 <= i < all.len() implies !(#[trigger] all[i]).contains('\n')
        && lines::without_return(all[i]) == all[i] by {
        assert(is_one_line(all_lines(recurrence)[i]));
    }
    lines::lemma_lines_of_join(all);
}

/// A recurrence that was stored is read back unchanged.
pub proof fn law_recurrence_is_read_back(recurrence: RecurrenceView)
    requires
        is_proper(recurrence),
    ensures
        stored_recurrence(Some(recurrence)) is Some,
        lines::recurrence_of(lines::lines(stored_recurrence(Some(recurrence))->0)) == recurrence,
{
    let data = stored_recurrence(Some(recurrence))->0;
    let all = all_lines(recurrence);
    assert(lines::lines(data) == all) by {
        lemma_lines_come_back(recurrence);
    }
    let back = lines::recurrence_of(all);
    assert(back == recurrence) by {
        lines::lemma_recurrence_of(recurrence);
    }
    assert(lines::recurrence_of(lines::lines(data)) == back);
}

// ---------------------------------------------------------------------------------------------
// Schedules
// ---------------------------------------------------------------------------------------------

/// The columns of a schedule.
#[derive(Debug)]
pub struct ScheduleRow {
    pub schedule_type: Option<String>,
    pub start_date: Option<Date>,
    pub end_date_exclusive: Option<Date>,
    pub start_datetime: Option<DateTime>,
    pub end_datetime: Option<DateTime>,
    pub timezone: Option<String>,
}

/// The values of a [`ScheduleRow`].
pub struct ScheduleRowView {
    pub schedule_type: Option<Seq<char>>,
    pub start_date: Option<Date>,
    pub end_date_exclusive: Option<Date>,
    pub start_datetime: Option<DateTime>,
    pub end_datetime: Option<DateTime>,
    pub timezone: Option<Seq<char>>,
}

impl View for ScheduleRow {
    type V = ScheduleRowView;

    open spec fn view(&self) -> ScheduleRowView {
        ScheduleRowView {
            schedule_type: model::text_view(self.schedule_type),
            start_date: self.start_date,
            end_date_exclusive: self.end_date_exclusive,
            start_datetime: self.start_datetime,
            end_datetime: self.end_datetime,
            timezone: model::text_view(self.timezone),
        }
    }
}

/// The columns of a schedule; all empty where there is none.
pub open spec fn schedule_row(schedule: Option<ScheduleView>) -> ScheduleRowView {
    match schedule {
        Some(ScheduleView::AllDay { start_date, end_date_exclusive }) => ScheduleRowView {
            schedule_type: Some("all_day"@),
            start_date: Some(start_date),
            end_date_exclusive: Some(end_date_exclusive),
            start_datetime: None,
            end_datetime: None,
            timezone: None,
        },
        Some(ScheduleView::Timed { start, end, timezone }) => ScheduleRowView {
            schedule_type: Some("timed"@),
            start_date: None,
            end_date_exclusive: None,
            start_datetime: Some(start),
            end_datetime: Some(end),
            timezone,
        },
        None => ScheduleRowView {
            schedule_type: None,
            start_date: None,
            end_date_exclusive: None,
            start_datetime: None,
            end_datetime: None,
            timezone: None,
        },
    }
}

/// The columns of a schedule.
pub fn make_schedule_row(schedule: &EventSchedule) -> (r: ScheduleRow)
    ensures
        r@ == schedule_row(Some(schedule@)),
{
    match schedule {
        EventSchedule::AllDay { start_date, end_date_exclusive } => ScheduleRow {
            schedule_type: Some("all_day".to_owned()),
            start_date: Some(*start_date),
            end_date_exclusive: Some(*end_date_exclusive),
            start_datetime: None,
            end_datetime: None,
            timezone: None,
        },
        EventSchedule::Timed { start, end, timezone } => ScheduleRow {
            schedule_type: Some("timed".to_owned()),
            start_date: None,
            end_date_exclusive: None,
            start_datetime: Some(*start),
            end_datetime: Some(*end),
            timezone: model::copy_text(timezone),
        },
    }
}

/// The schedule that columns hold, where they hold one.
pub open spec fn schedule_of_row(row: ScheduleRowView) -> Option<ScheduleView> {
    match row.schedule_type {
        Some(kind) => if kind == "all_day"@ {
            match (row.start_date, row.end_date_exclusive) {
                (Some(start_date), Some(end_date_exclusive)) => Some(
                    ScheduleView::AllDay { start_date, end_date_exclusive },
                ),
                _ => None,
            }
        } else if kind == "timed"@ {
            match (row.start_datetime, row.end_datetime) {
                (Some(start), Some(end)) => Some(
                    ScheduleView::Timed { start, end, timezone: row.timezone },
                ),
                _ => None,
            }
        } else {
            None
        },
        None => None,
    }
}

/// The values of the outcome of [`schedule_from_row`].
pub open spec fn schedule_view(r: Result<EventSchedule, RowError>) -> Option<ScheduleView> {
    match r {
        Ok(schedule) => Some(schedule@),
        Err(_) => None,
    }
}

/// The schedule that columns hold.
pub fn schedule_from_row(row: &ScheduleRow) -> (r: Result<EventSchedule, RowError>)
    ensures
        schedule_view(r) == schedule_of_row(row@),
{
    let kind = match &row.schedule_type {
        Some(kind) => kind,
        None => {
            return Err(RowError);
        },
    };
    if text::same_text(kind.as_str(), "all_day") {
        match (row.start_date, row.end_date_exclusive) {
            (Some(start_date), Some(end_date_exclusive)) => Ok(
                EventSchedule::AllDay { start_date, end_date_exclusive },
            ),
            _ => Err(RowError),
        }
    } else if text::same_text(kind.as_str(), "timed") {
        match (row.start_datetime, row.end_datetime) {
            (Some(start), Some(end)) => Ok(
                EventSchedule::Timed { start, end, timezone: model::copy_text(&row.timezone) },
            ),
            _ => Err(RowError),
        }
    } else {
        Err(RowError)
    }
}

/// The kinds of a schedule and of an identity are told apart.
proof fn lemma_kinds()
    ensures
        "all_day"@ != "timed"@,
{
    reveal_strlit("all_day");
    reveal_strlit("timed");
    assert("all_day"@.len() != "timed"@.len());
}

/// A schedule that was stored is read back unchanged.
pub proof fn law_schedule_is_read_back(schedule: ScheduleView)
    ensures
        schedule_of_row(schedule_row(Some(schedule))) == Some(schedule),
{
    lemma_kinds();
}

// ---------------------------------------------------------------------------------------------
// Events
// ---------------------------------------------------------------------------------------------

/// The columns of an event. Its reminders have rows of their own.
#[derive(Debug)]
pub struct EventRow {
    pub id: Uuid,
    pub calendar_id: Uuid,
    pub title: String,
    pub location: String,
    pub description: String,
    pub schedule: ScheduleRow,
    /// The instants of a timed event in whole seconds, for comparisons whatever their offsets.
    pub start_unix: i64,
    pub end_unix: i64,
    pub recurrence_enabled: i32,
    pub recurrence_data: Option<String>,
}

/// The values of an [`EventRow`].
pub struct EventRowView {
    pub id: Uuid,
    pub calendar_id: Uuid,
    pub title: Seq<char>,
    pub location: Seq<char>,
    pub description: Seq<char>,
    pub schedule: ScheduleRowView,
    pub start_unix: int,
    pub end_unix: int,
    pub recurrence_enabled: i32,
    pub recurrence_data: Option<Seq<char>>,
}

impl View for EventRow {
    type V = EventRowView;

    open spec fn view(&self) -> EventRowView {
        EventRowView {
            id: self.id,
            calendar_id: self.calendar_id,
            title: self.title@,
            location: self.location@,
            description: self.description@,
            schedule: self.schedule@,
            start_unix: self.start_unix as int,
            end_unix: self.end_unix as int,
            recurrence_enabled: self.recurrence_enabled,
            recurrence_data: model::text_view(self.recurrence_data),
        }
    }
}

/// The whole seconds in which a schedule starts and ends; zero for whole days.
pub open spec fn unix_bounds(schedule: ScheduleView) -> (int, int) {
    match schedule {
        ScheduleView::AllDay { .. } => (0, 0),
        ScheduleView::Timed { start, end, .. } => (start@.seconds, end@.seconds),
    }
}

/// The columns of an event.
pub open spec fn event_row(event: EventView) -> EventRowView {
    EventRowView {
        id: event.id,
        calendar_id: event.calendar_id,
        title: event.title,
        location: event.location,
        description: event.description,
        schedule: schedule_row(Some(event.schedule)),
        start_unix: unix_bounds(event.schedule).0,
        end_unix: unix_bounds(event.schedule).1,
        recurrence_enabled: if event.recurrence is Some {
            1i32
        } else {
            0i32
        },
        recurrence_data: stored_recurrence(event.recurrence),
    }
}

/// The columns of an event.
pub fn make_event_row(event: &Event) -> (r: EventRow)
    ensures
        r@ == event_row(event@),
{
    let (start_unix, end_unix): (i64, i64) = match &event.schedule {
        EventSchedule::AllDay { .. } => (0, 0),
        EventSchedule::Timed { start, end, .. } => (start.timestamp(), end.timestamp()),
    };
    EventRow {
        id: event.id,
        calendar_id: event.calendar_id,
        title: event.title.clone(),
        location: event.location.clone(),
        description: event.description.clone(),
        schedule: make_schedule_row(&event.schedule),
        start_unix,
        end_unix,
        recurrence_enabled: if event.recurrence.is_some() {
            1
        } else {
            0
        },
        recurrence_data: recurrence_to_storage(&event.recurrence),
    }
}

/// The recurrence that columns hold. Rows of an older layout say only that there is one.
pub open spec fn recurrence_of_row(enabled: i32, data: Option<Seq<char>>) -> Option<RecurrenceView> {
    match data {
        Some(data) => Some(lines::recurrence_of(lines::lines(data))),
        None => if enabled != 0 {
            Some(RecurrenceView { rrule: seq![], rdate: seq![], exdate: seq![] })
        } else {
            None
        },
    }
}

/// The event that columns hold, without its reminders, where they hold one.
pub open spec fn event_of_row(row: EventRowView) -> Option<EventView> {
    match schedule_of_row(row.schedule) {
        Some(schedule) => Some(
            EventView {
                id: row.id,
                calendar_id: row.calendar_id,
                title: row.title,
                location: row.location,
                description: row.description,
                schedule,
                recurrence: recurrence_of_row(row.recurrence_enabled, row.recurrence_data),
                reminders: seq![],
            },
        ),
        None => None,
    }
}

/// The values of the outcome of [`event_from_row`].
pub open spec fn event_view(r: Result<Event, RowError>) -> Option<EventView> {
    match r {
        Ok(event) => Some(event@),
        Err(_) => None,
    }
}

/// The event that columns hold, without its reminders.
pub fn event_from_row(row: &EventRow) -> (r: Result<Event, RowError>)
    ensures
        event_view(r) == event_of_row(row@),
{
    let schedule = match schedule_from_row(&row.schedule) {
        Ok(schedule) => schedule,
        Err(error) => {
            return Err(error);
        },
    };
    let recurrence = match &row.recurrence_data {
        Some(data) => Some(recurrence_from_storage(data.as_str())),
        None => if row.recurrence_enabled != 0 {
            Some(RecurrenceSpec::default())
        } else {
            None
        },
    };
    let event = Event {
        id: row.id,
        calendar_id: row.calendar_id,
        title: row.title.clone(),
        location: row.location.clone(),
        description: row.description.clone(),
        schedule,
        recurrence,
        reminders: Vec::new(),
    };
    assert(event@.reminders =~= seq![]);
    Ok(event)
}

/// An event that was stored is read back unchanged; its reminders are read apart.
pub proof fn law_event_is_read_back(event: EventView)
    requires
        event.recurrence matches Some(recurrence) ==> is_proper(recurrence),
    ensures
        event_of_row(event_row(event)) == Some(EventView { reminders: seq![], ..event }),
{
    law_schedule_is_read_back(event.schedule);
    if event.recurrence is Some {
        law_recurrence_is_read_back(event.recurrence->0);
    }
}

// ---------------------------------------------------------------------------------------------
// Exceptions
// ---------------------------------------------------------------------------------------------

/// The columns of an exception of an event. Its reminders have rows of their own.
#[derive(Debug)]
pub struct ExceptionRow {
    pub id: Uuid,
    pub recurrence_kind: String,
    pub recurrence_date: Option<Date>,
    pub recurrence_datetime: Option<DateTime>,
    pub recurrence_timezone: Option<String>,
    pub recurrence_sort: String,
    pub cancelled: i32,
    pub title: String,
    pub location: String,
    pub description: String,
    pub schedule: ScheduleRow,
}

/// The values of an [`ExceptionRow`].
pub struct ExceptionRowView {
    pub id: Uuid,
    pub recurrence_kind: Seq<char>,
    pub recurrence_date: Option<Date>,
    pub recurrence_datetime: Option<DateTime>,
    pub recurrence_timezone: Option<Seq<char>>,
    pub recurrence_sort: Seq<char>,
    pub cancelled: i32,
    pub title: Seq<char>,
    pub location: Seq<char>,
    pub description: Seq<char>,
    pub schedule: ScheduleRowView,
}

impl View for ExceptionRow {
    type V = ExceptionRowView;

    open spec fn view(&self) -> ExceptionRowView {
        ExceptionRowView {
            id: self.id,
            recurrence_kind: self.recurrence_kind@,
            recurrence_date: self.recurrence_date,
            recurrence_datetime: self.recurrence_datetime,
            recurrence_timezone: model::text_view(self.recurrence_timezone),
            recurrence_sort: self.recurrence_sort@,
            cancelled: self.cancelled,
            title: self.title@,
            location: self.location@,
            description: self.description@,
            schedule: self.schedule@,
        }
    }
}

/// The columns of an exception.
pub open spec fn exception_row(id: Uuid, detached: DetachedView) -> ExceptionRowView {
    let (kind, date, date_time, timezone) = match detached.identity() {
        RecurrenceIdView::AllDay(date) => ("all_day"@, Some(date), None, None),
        RecurrenceIdView::Timed { date_time, timezone } => (
            "timed"@,
            None,
            Some(date_time),
            timezone,
        ),
    };
    let sort = occurrences::sort_key(detached.identity());
    match detached {
        DetachedView::Modified { title, location, description, schedule, .. } => ExceptionRowView {
            id,
            recurrence_kind: kind,
            recurrence_date: date,
            recurrence_datetime: date_time,
            recurrence_timezone: timezone,
            recurrence_sort: sort,
            cancelled: 0i32,
            title,
            location,
            description,
            schedule: schedule_row(Some(schedule)),
        },
        DetachedView::Cancelled { .. } => ExceptionRowView {
            id,
            recurrence_kind: kind,
            recurrence_date: date,
            recurrence_datetime: date_time,
            recurrence_timezone: timezone,
            recurrence_sort: sort,
            cancelled: 1i32,
            title: ""@,
            location: ""@,
            description: ""@,
            schedule: schedule_row(None),
        },
    }
}

/// The columns of an exception.
pub fn make_exception_row(id: Uuid, detached: &DetachedEvent) -> (r: ExceptionRow)
    ensures
        r@ == exception_row(id, detached@),
{
    let recurrence_sort = occurrences::detached_recurrence_sort(detached.identity());
    let (recurrence_kind, recurrence_date, recurrence_datetime, recurrence_timezone): (
        String,
        Option<Date>,
        Option<DateTime>,
        Option<String>,
    ) = match detached.identity() {
        RecurrenceId::AllDay(date) => ("all_day".to_owned(), Some(*date), None, None),
        RecurrenceId::Timed { date_time, timezone } => (
            "timed".to_owned(),
            None,
            Some(*date_time),
            model::copy_text(timezone),
        ),
    };
    match detached {
        DetachedEvent::Modified { title, location, description, schedule, .. } => ExceptionRow {
            id,
            recurrence_kind,
            recurrence_date,
            recurrence_datetime,
            recurrence_timezone,
            recurrence_sort,
            cancelled: 0,
            title: title.clone(),
            location: location.clone(),
            description: description.clone(),
            schedule: make_schedule_row(schedule),
        },
        DetachedEvent::Cancelled { .. } => ExceptionRow {
            id,
            recurrence_kind,
            recurrence_date,
            recurrence_datetime,
            recurrence_timezone,
            recurrence_sort,
            cancelled: 1,
            title: "".to_owned(),
            location: "".to_owned(),
            description: "".to_owned(),
            schedule: ScheduleRow {
                schedule_type: None,
                start_date: None,
                end_date_exclusive: None,
                start_datetime: None,
                end_datetime: None,
                timezone: None,
            },
        },
    }
}

/// The identity that columns hold, where they hold one.
pub open spec fn identity_of_row(row: ExceptionRowView) -> Option<RecurrenceIdView> {
    if row.recurrence_kind == "all_day"@ {
        match row.recurrence_date {
            Some(date) => Some(RecurrenceIdView::AllDay(date)),
            None => None,
        }
    } else if row.recurrence_kind == "timed"@ {
        match row.recurrence_datetime {
            Some(date_time) => Some(
                RecurrenceIdView::Timed { date_time, timezone: row.recurrence_timezone },
            ),
            None => None,
        }
    } else {
        None
    }
}

/// The exception that columns hold, without its reminders, where they hold one.
pub open spec fn exception_of_row(row: ExceptionRowView) -> Option<(Uuid, DetachedView)> {
    match identity_of_row(row) {
        Some(recurrence_id) => if row.cancelled != 0 {
            Some((row.id, DetachedView::Cancelled { recurrence_id }))
        } else {
            match schedule_of_row(row.schedule) {
                Some(schedule) => Some(
                    (
                        row.id,
                        DetachedView::Modified {
                            recurrence_id,
                            title: row.title,
                            location: row.location,
                            description: row.description,
                            schedule,
                            reminders: seq![],
                        },
                    ),
                ),
                None => None,
            }
        },
        None => None,
    }
}

/// The values of the outcome of [`detached_event_from_row`].
pub open spec fn child_view(r: Result<Child, RowError>) -> Option<(Uuid, DetachedView)> {
    match r {
        Ok(child) => Some((child.0, child.1@)),
        Err(_) => None,
    }
}

/// The exception that columns hold, without its reminders.
pub fn detached_event_from_row(row: &ExceptionRow) -> (r: Result<Child, RowError>)
    ensures
        child_view(r) == exception_of_row(row@),
{
    let recurrence_id = if text::same_text(row.recurrence_kind.as_str(), "all_day") {
        match row.recurrence_date {
            Some(date) => RecurrenceId::AllDay(date),
            None => {
                return Err(RowError);
            },
        }
    } else if text::same_text(row.recurrence_kind.as_str(), "timed") {
        match row.recurrence_datetime {
            Some(date_time) => RecurrenceId::Timed {
                date_time,
                timezone: model::copy_text(&row.recurrence_timezone),
            },
            None => {
                return Err(RowError);
            },
        }
    } else {
        return Err(RowError);
    };
    if row.cancelled != 0 {
        return Ok((row.id, DetachedEvent::Cancelled { recurrence_id }));
    }
    let schedule = match schedule_from_row(&row.schedule) {
        Ok(schedule) => schedule,
        Err(error) => {
            return Err(error);
        },
    };
    let detached = DetachedEvent::Modified {
        recurrence_id,
        title: row.title.clone(),
        location: row.location.clone(),
        description: row.description.clone(),
        schedule,
        reminders: Vec::new(),
    };
    proof {
        assert(model::reminder_views(Seq::<model::ReminderSpec>::empty()) =~= seq![]);
    }
    Ok((row.id, detached))
}

/// An exception without its reminders.
pub open spec fn without_reminders(detached: DetachedView) -> DetachedView {
    match detached {
        DetachedView::Modified { recurrence_id, title, location, description, schedule, .. } => {
            DetachedView::Modified {
                recurrence_id,
                title,
                location,
                description,
                schedule,
                reminders: seq![],
            }
        },
        DetachedView::Cancelled { recurrence_id } => DetachedView::Cancelled { recurrence_id },
    }
}

/// An exception that was stored is read back unchanged; its reminders are read apart.
pub proof fn law_exception_is_read_back(id: Uuid, detached: DetachedView)
    ensures
        exception_of_row(exception_row(id, detached)) == Some((id, without_reminders(detached))),
{
    lemma_kinds();
    if detached is Modified {
        law_schedule_is_read_back(detached->schedule);
    }
}

// ---------------------------------------------------------------------------------------------
// Waiting changes
// ---------------------------------------------------------------------------------------------

/// The columns of a change that waits for its upload.
#[derive(Debug)]
pub struct PendingRow {
    pub event_id: Uuid,
    pub calendar_id: Uuid,
    pub operation_kind: String,
    pub remote_href: Option<String>,
    pub remote_uid: String,
    pub base_etag: Option<String>,
}

/// The values of a [`PendingRow`].
pub struct PendingRowView {
    pub event_id: Uuid,
    pub calendar_id: Uuid,
    pub operation_kind: Seq<char>,
    pub remote_href: Option<Seq<char>>,
    pub remote_uid: Seq<char>,
    pub base_etag: Option<Seq<char>>,
}

impl View for PendingRow {
    type V = PendingRowView;

    open spec fn view(&self) -> PendingRowView {
        PendingRowView {
            event_id: self.event_id,
            calendar_id: self.calendar_id,
            operation_kind: self.operation_kind@,
            remote_href: model::text_view(self.remote_href),
            remote_uid: self.remote_uid@,
            base_etag: model::text_view(self.base_etag),
        }
    }
}

/// The columns of a waiting change.
pub open spec fn pending_row(operation: PendingView) -> PendingRowView {
    match operation {
        PendingView::Create { calendar_id, event_id, remote_uid } => PendingRowView {
            event_id,
            calendar_id,
            operation_kind: "create"@,
            remote_href: None,
            remote_uid,
            base_etag: None,
        },
        PendingView::Update { calendar_id, event_id, remote_href, remote_uid, base_etag } => {
            PendingRowView {
                event_id,
                calendar_id,
                operation_kind: "update"@,
                remote_href: Some(remote_href),
                remote_uid,
                base_etag,
            }
        },
        PendingView::Delete { calendar_id, event_id, remote_href, remote_uid, base_etag } => {
            PendingRowView {
                event_id,
                calendar_id,
                operation_kind: "delete"@,
                remote_href: Some(remote_href),
                remote_uid,
                base_etag,
            }
        },
    }
}

/// The columns of a waiting change.
pub fn make_pending_row(operation: &PendingSyncOperation) -> (r: PendingRow)
    ensures
        r@ == pending_row(operation@),
{
    match operation {
        PendingSyncOperation::Create { calendar_id, event_id, remote_uid } => PendingRow {
            event_id: *event_id,
            calendar_id: *calendar_id,
            operation_kind: "create".to_owned(),
            remote_href: None,
            remote_uid: remote_uid.clone(),
            base_etag: None,
        },
        PendingSyncOperation::Update { calendar_id, event_id, remote_href, remote_uid, base_etag } => {
            PendingRow {
                event_id: *event_id,
                calendar_id: *calendar_id,
                operation_kind: "update".to_owned(),
                remote_href: Some(remote_href.clone()),
                remote_uid: remote_uid.clone(),
                base_etag: model::copy_text(base_etag),
            }
        },
        PendingSyncOperation::Delete { calendar_id, event_id, remote_href, remote_uid, base_etag } => {
            PendingRow {
                event_id: *event_id,
                calendar_id: *calendar_id,
                operation_kind: "delete".to_owned(),
                remote_href: Some(remote_href.clone()),
                remote_uid: remote_uid.clone(),
                base_etag: model::copy_text(base_etag),
            }
        },
    }
}

/// The waiting change that columns hold, where they hold one.
pub open spec fn pending_of_row(row: PendingRowView) -> Option<PendingView> {
    if row.operation_kind == "create"@ {
        Some(
            PendingView::Create {
                calendar_id: row.calendar_id,
                event_id: row.event_id,
                remote_uid: row.remote_uid,
            },
        )
    } else if row.operation_kind == "update"@ {
        match row.remote_href {
            Some(remote_href) => Some(
                PendingView::Update {
                    calendar_id: row.calendar_id,
                    event_id: row.event_id,
                    remote_href,
                    remote_uid: row.remote_uid,
                    base_etag: row.base_etag,
                },
            ),
            None => None,
        }
    } else if row.operation_kind == "delete"@ {
        match row.remote_href {
            Some(remote_href) => Some(
                PendingView::Delete {
                    calendar_id: row.calendar_id,
                    event_id: row.event_id,
                    remote_href,
                    remote_uid: row.remote_uid,
                    base_etag: row.base_etag,
                },
            ),
            None => None,
        }
    } else {
        None
    }
}

/// The values of the outcome of [`pending_sync_operation_from_row`].
pub open spec fn operation_view(r: Result<PendingSyncOperation, RowError>) -> Option<PendingView> {
    match r {
        Ok(operation) => Some(operation@),
        Err(_) => None,
    }
}

/// The waiting change that columns hold.
pub fn pending_sync_operation_from_row(row: &PendingRow) -> (r: Result<PendingSyncOperation, RowError>)
    ensures
        operation_view(r) == pending_of_row(row@),
{
    if text::same_text(row.operation_kind.as_str(), "create") {
        return Ok(
            PendingSyncOperation::Create {
                calendar_id: row.calendar_id,
                event_id: row.event_id,
                remote_uid: row.remote_uid.clone(),
            },
        );
    }
    let update = text::same_text(row.operation_kind.as_str(), "update");
    if !update && !text::same_text(row.operation_kind.as_str(), "delete") {
        return Err(RowError);
    }
    match &row.remote_href {
        Some(remote_href) => if update {
            Ok(
                PendingSyncOperation::Update {
                    calendar_id: row.calendar_id,
                    event_id: row.event_id,
                    remote_href: remote_href.clone(),
                    remote_uid: row.remote_uid.clone(),
                    base_etag: model::copy_text(&row.base_etag),
                },
            )
        } else {
            Ok(
                PendingSyncOperation::Delete {
                    calendar_id: row.calendar_id,
                    event_id: row.event_id,
                    remote_href: remote_href.clone(),
                    remote_uid: row.remote_uid.clone(),
                    base_etag: model::copy_text(&row.base_etag),
                },
            )
        },
        None => Err(RowError),
    }
}

/// A waiting change that was stored is read back unchanged.
pub proof fn law_pending_is_read_back(operation: PendingView)
    ensures
        pending_of_row(pending_row(operation)) == Some(operation),
{
    reveal_strlit("create");
    reveal_strlit("update");
    reveal_strlit("delete");
    assert("create"@[0] != "update"@[0]);
    assert("create"@[0] != "delete"@[0]);
    assert("update"@[0] != "delete"@[0]);
}

// ---------------------------------------------------------------------------------------------
// Calendars and accounts
// ---------------------------------------------------------------------------------------------

/// The columns of a calendar.
#[derive(Debug)]
pub struct CalendarRow {
    pub id: Uuid,
    pub name: String,
    pub color: String,
    pub visible: i32,
    pub read_only: i32,
    pub source: String,
    pub account_id: Option<Uuid>,
}

/// The values of a [`CalendarRow`].
pub struct CalendarRowView {
    pub id: Uuid,
    pub name: Seq<char>,
    pub color: Seq<char>,
    pub visible: i32,
    pub read_only: i32,
    pub source: Seq<char>,
    pub account_id: Option<Uuid>,
}

impl View for CalendarRow {
    type V = CalendarRowView;

    open spec fn view(&self) -> CalendarRowView {
        CalendarRowView {
            id: self.id,
            name: self.name@,
            color: self.color@,
            visible: self.visible,
            read_only: self.read_only,
            source: self.source@,
            account_id: self.account_id,
        }
    }
}

/// A mark as a number.
pub open spec fn flag(value: bool) -> i32 {
    if value {
        1i32
    } else {
        0i32
    }
}

/// The columns that say where a calendar is kept.
pub open spec fn source_values(source: CalendarSource) -> (Seq<char>, Option<Uuid>) {
    match source {
        CalendarSource::Local => ("Local"@, None),
        CalendarSource::CalDav { account_id } => ("CalDav"@, Some(account_id)),
    }
}

/// The columns that say where a calendar is kept.
pub fn calendar_source_values(source: &CalendarSource) -> (r: (&'static str, Option<Uuid>))
    ensures
        (r.0@, r.1) == source_values(*source),
{
    match source {
        CalendarSource::Local => ("Local", None),
        CalendarSource::CalDav { account_id } => ("CalDav", Some(*account_id)),
    }
}

/// The columns of a calendar.
pub open spec fn calendar_row(calendar: CalendarView) -> CalendarRowView {
    CalendarRowView {
        id: calendar.id,
        name: calendar.name,
        color: calendar.color,
        visible: flag(calendar.visible),
        read_only: flag(calendar.read_only),
        source: source_values(calendar.source).0,
        account_id: source_values(calendar.source).1,
    }
}

/// The columns of a calendar.
pub fn make_calendar_row(calendar: &Calendar) -> (r: CalendarRow)
    ensures
        r@ == calendar_row(calendar@),
{
    let (source, account_id): (&'static str, Option<Uuid>) = calendar_source_values(
        &calendar.source,
    );
    CalendarRow {
        id: calendar.id,
        name: calendar.name.clone(),
        color: calendar.color.clone(),
        visible: if calendar.visible {
            1
        } else {
            0
        },
        read_only: if calendar.read_only {
            1
        } else {
            0
        },
        source: source.to_owned(),
        account_id,
    }
}

/// The calendar that columns hold. One that is said to be remote without an account is local, and so
/// is one that is said to be anything else.
pub open spec fn calendar_of_row(row: CalendarRowView) -> CalendarView {
    CalendarView {
        id: row.id,
        name: row.name,
        color: row.color,
        visible: row.visible != 0,
        read_only: row.read_only != 0,
        source: match row.account_id {
            Some(account_id) => if row.source == "CalDav"@ {
                CalendarSource::CalDav { account_id }
            } else {
                CalendarSource::Local
            },
            None => CalendarSource::Local,
        },
    }
}

/// The calendar that columns hold.
pub fn calendar_from_row(row: &CalendarRow) -> (r: Calendar)
    ensures
        r@ == calendar_of_row(row@),
{
    let source = match row.account_id {
        Some(account_id) => if text::same_text(row.source.as_str(), "CalDav") {
            CalendarSource::CalDav { account_id }
        } else {
            CalendarSource::Local
        },
        None => CalendarSource::Local,
    };
    Calendar {
        id: row.id,
        name: row.name.clone(),
        color: row.color.clone(),
        visible: row.visible != 0,
        read_only: row.read_only != 0,
        source,
    }
}

/// A calendar that was stored is read back unchanged.
pub proof fn law_calendar_is_read_back(calendar: CalendarView)
    ensures
        calendar_of_row(calendar_row(calendar)) == calendar,
{
}

/// The columns of an account.
#[derive(Debug)]
pub struct AccountRow {
    pub id: Uuid,
    pub name: String,
    pub server_url: String,
    pub username: String,
    pub enabled: i32,
}

/// The values of an [`AccountRow`].
pub struct AccountRowView {
    pub id: Uuid,
    pub name: Seq<char>,
    pub server_url: Seq<char>,
    pub username: Seq<char>,
    pub enabled: i32,
}

impl View for AccountRow {
    type V = AccountRowView;

    open spec fn view(&self) -> AccountRowView {
        AccountRowView {
            id: self.id,
            name: self.name@,
            server_url: self.server_url@,
            username: self.username@,
            enabled: self.enabled,
        }
    }
}

/// The columns of an account.
pub open spec fn account_row(account: AccountView) -> AccountRowView {
    AccountRowView {
        id: account.id,
        name: account.name,
        server_url: account.server_url,
        username: account.username,
        enabled: flag(account.enabled),
    }
}

/// The columns of an account.
pub fn make_account_row(account: &Account) -> (r: AccountRow)
    ensures
        r@ == account_row(account@),
{
    AccountRow {
        id: account.id,
        name: account.name.clone(),
        server_url: account.server_url.clone(),
        username: account.username.clone(),
        enabled: if account.enabled {
            1
        } else {
            0
        },
    }
}

/// The account that columns hold.
pub open spec fn account_of_row(row: AccountRowView) -> AccountView {
    AccountView {
        id: row.id,
        name: row.name,
        server_url: row.server_url,
        username: row.username,
        enabled: row.enabled != 0,
    }
}

/// The account that columns hold.
pub fn account_from_row(row: &AccountRow) -> (r: Account)
    ensures
        r@ == account_of_row(row@),
{
    Account {
        id: row.id,
        name: row.name.clone(),
        server_url: row.server_url.clone(),
        username: row.username.clone(),
        enabled: row.enabled != 0,
    }
}

/// An account that was stored is read back unchanged.
pub proof fn law_account_is_read_back(account: AccountView)
    ensures
        account_of_row(account_row(account)) == account,
{
}

/// How the times of events are kept: by the name of their kind, with the days or the instants that the
/// kind has, and nothing of the other kind.
pub proof fn law_kept_times(schedule: ScheduleView)
    ensures
        schedule matches ScheduleView::AllDay { start_date, end_date_exclusive } ==> {
            let row = schedule_row(Some(schedule));
            row.schedule_type == Some("all_day"@) && row.start_date == Some(start_date)
                && row.end_date_exclusive == Some(end_date_exclusive) && row.start_datetime is None
                && row.end_datetime is None && row.timezone is None
        },
        schedule matches ScheduleView::Timed { start, end, timezone } ==> {
            let row = schedule_row(Some(schedule));
            row.schedule_type == Some("timed"@) && row.start_date is None && row.end_date_exclusive is None
                && row.start_datetime == Some(start) && row.end_datetime == Some(end) && row.timezone
                == timezone
        },
        schedule_row(None).schedule_type is None,
{
}

/// How events are kept: with their texts, with the seconds of their instants to search by, and with the
/// lines of their recurrence.
pub proof fn law_kept_events(event: EventView)
    ensures
        ({
            let row = event_row(event);
            &&& row.id == event.id && row.calendar_id == event.calendar_id && row.title == event.title
                && row.location == event.location && row.description == event.description
            &&& event.schedule matches ScheduleView::Timed { start, end, .. } ==> row.start_unix
                == start@.seconds && row.end_unix == end@.seconds
            &&& event.schedule is AllDay ==> row.start_unix == 0 && row.end_unix == 0
            &&& row.recurrence_enabled == 1 <==> event.recurrence is Some
            &&& row.recurrence_enabled == 0 <==> event.recurrence is None
            &&& row.recurrence_data is Some <==> event.recurrence is Some
        }),
        event.recurrence matches Some(recurrence) ==> stored_recurrence(Some(recurrence)) == Some(
            text::join(recurrence.rrule + recurrence.rdate + recurrence.exdate, seq!['\n']),
        ),
{
    reveal_strlit("\n");
    assert("\n"@ =~= seq!['\n']);
}

/// How exceptions are kept: by the kind and the value of the occurrence that they stand for, with a
/// mark for those that are cancelled, which hold nothing else.
pub proof fn law_kept_exceptions(id: Uuid, detached: DetachedView)
    ensures
        ({
            let row = exception_row(id, detached);
            &&& row.id == id
            &&& detached.identity() matches RecurrenceIdView::AllDay(day) ==> row.recurrence_kind
                == "all_day"@ && row.recurrence_date == Some(day) && row.recurrence_datetime is None
                && row.recurrence_timezone is None
            &&& detached.identity() matches RecurrenceIdView::Timed { date_time, timezone }
                ==> row.recurrence_kind == "timed"@ && row.recurrence_date is None
                && row.recurrence_datetime == Some(date_time) && row.recurrence_timezone == timezone
            &&& detached is Cancelled ==> row.cancelled == 1 && row.title == ""@ && row.location == ""@
                && row.description == ""@ && row.schedule == schedule_row(None)
            &&& detached matches DetachedView::Modified { title, location, description, schedule, .. }
                ==> row.cancelled == 0 && row.title == title && row.location == location
                && row.description == description && row.schedule == schedule_row(Some(schedule))
        }),
{
}

/// How changes that wait are kept: by the name of what they do.
pub proof fn law_kept_changes(operation: PendingView)
    ensures
        operation is Create ==> pending_row(operation).operation_kind == "create"@ && pending_row(
            operation,
        ).remote_href is None && pending_row(operation).base_etag is None,
        operation is Update ==> pending_row(operation).operation_kind == "update"@ && pending_row(
            operation,
        ).remote_href is Some,
        operation is Delete ==> pending_row(operation).operation_kind == "delete"@ && pending_row(
            operation,
        ).remote_href is Some,
{
}

/// How calendars and accounts are kept: with ones for what holds and zeros for what does not, and a
/// calendar by the name of where it is from.
pub proof fn law_kept_calendars_and_accounts(calendar: CalendarView, account: AccountView)
    ensures
        calendar_row(calendar).visible == 1 <==> calendar.visible,
        calendar_row(calendar).visible == 0 <==> !calendar.visible,
        calendar_row(calendar).read_only == 1 <==> calendar.read_only,
        calendar_row(calendar).read_only == 0 <==> !calendar.read_only,
        calendar.source is Local ==> calendar_row(calendar).source == "Local"@ && calendar_row(
            calendar,
        ).account_id is None,
        calendar.source matches CalendarSource::CalDav { account_id } ==> calendar_row(calendar).source
            == "CalDav"@ && calendar_row(calendar).account_id == Some(account_id),
        account_row(account).enabled == 1 <==> account.enabled,
        account_row(account).enabled == 0 <==> !account.enabled,
{
}

/// What cannot be read: a time, an exception or a change of an unknown kind, or without what its kind
/// needs.
pub proof fn law_rows_that_cannot_be_read(schedule: ScheduleRowView, exception: ExceptionRowView, pending: PendingRowView)
    ensures
        schedule.schedule_type is None ==> schedule_of_row(schedule) is None,
        schedule.schedule_type matches Some(kind) ==> kind != "all_day"@ && kind != "timed"@
            ==> schedule_of_row(schedule) is None,
        schedule.schedule_type == Some("all_day"@) ==> (schedule_of_row(schedule) is Some
            <==> schedule.start_date is Some && schedule.end_date_exclusive is Some),
        schedule.schedule_type == Some("timed"@) ==> (schedule_of_row(schedule) is Some
            <==> schedule.start_datetime is Some && schedule.end_datetime is Some),
        exception.recurrence_kind != "all_day"@ && exception.recurrence_kind != "timed"@
            ==> exception_of_row(exception) is None,
        pending.operation_kind != "create"@ && pending.operation_kind != "update"@
            && pending.operation_kind != "delete"@ ==> pending_of_row(pending) is None,
        pending.operation_kind == "update"@ && pending.remote_href is None ==> pending_of_row(pending)
            is None,
        pending.operation_kind == "delete"@ && pending.remote_href is None ==> pending_of_row(pending)
            is None,
{
    reveal_strlit("all_day");
    reveal_strlit("timed");
    reveal_strlit("create");
    reveal_strlit("update");
    reveal_strlit("delete");
    assert("all_day"@[0] == 'a' && "timed"@[0] == 't');
    assert("create"@[0] == 'c' && "update"@[0] == 'u' && "delete"@[0] == 'd');
}

/// A row that says that an event repeats, without lines, is an event that repeats by no rule.
pub proof fn law_repeating_without_lines(enabled: i32)
    ensures
        recurrence_of_row(0, None) is None,
        enabled != 0 ==> (recurrence_of_row(enabled, None) matches Some(recurrence)
            && recurrence.rrule.len() == 0 && recurrence.rdate.len() == 0 && recurrence.exdate.len() == 0),
        forall|data: Seq<char>|
            #[trigger] recurrence_of_row(enabled, Some(data)) == Some(
                lines::recurrence_of(lines::lines(data)),
            ),
{
}

} // verus!
