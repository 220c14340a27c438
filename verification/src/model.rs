//! Accounts, calendars, events and what is known of them on a remote server.
use vstd::prelude::*;

use crate::date;
use crate::date::{Date, DateTime};
use crate::text;

verus! {

/// A universally unique identifier, as the number that its bytes write, first byte highest.
pub type Uuid = u128;

// ---------------------------------------------------------------------------------------------
// Accounts and calendars
// ---------------------------------------------------------------------------------------------

/// A remote account.
#[derive(Debug)]
pub struct Account {
    pub id: Uuid,
    pub name: String,
    pub server_url: String,
    pub username: String,
    pub enabled: bool,
}

/// The values of an [`Account`].
pub struct AccountView {
    pub id: Uuid,
    pub name: Seq<char>,
    pub server_url: Seq<char>,
    pub username: Seq<char>,
    pub enabled: bool,
}

impl View for Account {
    type V = AccountView;

    open spec fn view(&self) -> AccountView {
        AccountView {
            id: self.id,
            name: self.name@,
            server_url: self.server_url@,
            username: self.username@,
            enabled: self.enabled,
        }
    }
}

impl Clone for Account {
    fn clone(&self) -> (r: Self)
        ensures
            r@ == self@,
    {
        Account {
            id: self.id,
            name: self.name.clone(),
            server_url: self.server_url.clone(),
            username: self.username.clone(),
            enabled: self.enabled,
        }
    }
}

/// Where a calendar is kept.
#[derive(Clone, Copy, Debug, PartialEq, Eq, Structural)]
pub enum CalendarSource {
    Local,
    CalDav { account_id: Uuid },
}

/// A calendar.
#[derive(Debug)]
pub struct Calendar {
    pub id: Uuid,
    pub name: String,
    pub color: String,
    pub visible: bool,
    pub read_only: bool,
    pub source: CalendarSource,
}

/// The values of a [`Calendar`].
pub struct CalendarView {
    pub id: Uuid,
    pub name: Seq<char>,
    pub color: Seq<char>,
    pub visible: bool,
    pub read_only: bool,
    pub source: CalendarSource,
}

impl View for Calendar {
    type V = CalendarView;

    open spec fn view(&self) -> CalendarView {
        CalendarView {
            id: self.id,
            name: self.name@,
            color: self.color@,
            visible: self.visible,
            read_only: self.read_only,
            source: self.source,
        }
    }
}

impl Clone for Calendar {
    fn clone(&self) -> (r: Self)
        ensures
            r@ == self@,
    {
        Calendar {
            id: self.id,
            name: self.name.clone(),
            color: self.color.clone(),
            visible: self.visible,
            read_only: self.read_only,
            source: self.source,
        }
    }
}

// ---------------------------------------------------------------------------------------------
// Optional text
// ---------------------------------------------------------------------------------------------

/// The contents of an optional text.
pub open spec fn text_view(value: Option<String>) -> Option<Seq<char>> {
    match value {
        Some(text) => Some(text@),
        None => None,
    }
}

/// A copy of an optional text.
pub fn copy_text(value: &Option<String>) -> (r: Option<String>)
    ensures
        text_view(r) == text_view(*value),
{
    match value {
        Some(text) => Some(text.clone()),
        None => None,
    }
}

/// Whether two optional texts are the same.
pub fn same_optional_text(a: &Option<String>, b: &Option<String>) -> (r: bool)
    ensures
        r == (text_view(*a) == text_view(*b)),
{
    match (a, b) {
        (Some(left), Some(right)) => text::same_text(left.as_str(), right.as_str()),
        (None, None) => true,
        _ => false,
    }
}

// ---------------------------------------------------------------------------------------------
// Schedules
// ---------------------------------------------------------------------------------------------

/// When an event takes place.
#[derive(Debug)]
pub enum EventSchedule {
    AllDay { start_date: Date, end_date_exclusive: Date },
    Timed { start: DateTime, end: DateTime, timezone: Option<String> },
}

/// The values of an [`EventSchedule`].
pub enum ScheduleView {
    AllDay { start_date: Date, end_date_exclusive: Date },
    Timed { start: DateTime, end: DateTime, timezone: Option<Seq<char>> },
}

impl View for EventSchedule {
    type V = ScheduleView;

    open spec fn view(&self) -> ScheduleView {
        match *self {
            EventSchedule::AllDay { start_date, end_date_exclusive } => ScheduleView::AllDay {
                start_date,
                end_date_exclusive,
            },
            EventSchedule::Timed { start, end, timezone } => ScheduleView::Timed {
                start,
                end,
                timezone: text_view(timezone),
            },
        }
    }
}

impl ScheduleView {
    /// Whether the end comes after the start.
    pub open spec fn runs_forward(self) -> bool {
        match self {
            ScheduleView::AllDay { start_date, end_date_exclusive } => start_date@
                < end_date_exclusive@,
            ScheduleView::Timed { start, end, .. } => start@.before(end@),
        }
    }

    /// Whether the two say the same, instants compared whatever their offsets.
    pub open spec fn same(self, other: ScheduleView) -> bool {
        match (self, other) {
            (
                ScheduleView::AllDay { start_date: s, end_date_exclusive: e },
                ScheduleView::AllDay { start_date: s2, end_date_exclusive: e2 },
            ) => s@ == s2@ && e@ == e2@,
            (
                ScheduleView::Timed { start: s, end: e, timezone: z },
                ScheduleView::Timed { start: s2, end: e2, timezone: z2 },
            ) => s@.same_instant(s2@) && e@.same_instant(e2@) && z == z2,
            _ => false,
        }
    }
}

impl Clone for EventSchedule {
    fn clone(&self) -> (r: Self)
        ensures
            r@ == self@,
    {
        match self {
            EventSchedule::AllDay { start_date, end_date_exclusive } => EventSchedule::AllDay {
                start_date: *start_date,
                end_date_exclusive: *end_date_exclusive,
            },
            EventSchedule::Timed { start, end, timezone } => EventSchedule::Timed {
                start: *start,
                end: *end,
                timezone: copy_text(timezone),
            },
        }
    }
}

impl EventSchedule {
    /// Whether the two say the same, instants compared whatever their offsets.
    pub fn same(&self, other: &EventSchedule) -> (r: bool)
        ensures
            r == self@.same(other@),
    {
        match (self, other) {
            (
                EventSchedule::AllDay { start_date: s, end_date_exclusive: e },
                EventSchedule::AllDay { start_date: s2, end_date_exclusive: e2 },
            ) => s.same(s2) && e.same(e2),
            (
                EventSchedule::Timed { start: s, end: e, timezone: z },
                EventSchedule::Timed { start: s2, end: e2, timezone: z2 },
            ) => s.same_instant(s2) && e.same_instant(e2) && same_optional_text(z, z2),
            _ => false,
        }
    }

    /// Whether the end comes after the start.
    pub fn runs_forward(&self) -> (r: bool)
        ensures
            r == self@.runs_forward(),
    {
        match self {
            EventSchedule::AllDay { start_date, end_date_exclusive } => start_date.before(
                end_date_exclusive,
            ),
            EventSchedule::Timed { start, end, .. } => start.before(end),
        }
    }
}

// ---------------------------------------------------------------------------------------------
// Recurrences and reminders
// ---------------------------------------------------------------------------------------------

/// The recurrence properties that belong to an event: the lines keep their iCalendar parameters.
#[derive(Debug)]
pub struct RecurrenceSpec {
    pub rrule: Vec<String>,
    pub rdate: Vec<String>,
    pub exdate: Vec<String>,
}

/// The values of a [`RecurrenceSpec`].
#[verifier::ext_equal]
pub struct RecurrenceView {
    pub rrule: Seq<Seq<char>>,
    pub rdate: Seq<Seq<char>>,
    pub exdate: Seq<Seq<char>>,
}

impl View for RecurrenceSpec {
    type V = RecurrenceView;

    open spec fn view(&self) -> RecurrenceView {
        RecurrenceView {
            rrule: text::views(self.rrule@),
            rdate: text::views(self.rdate@),
            exdate: text::views(self.exdate@),
        }
    }
}

impl Clone for RecurrenceSpec {
    fn clone(&self) -> (r: Self)
        ensures
            r@ == self@,
    {
        RecurrenceSpec {
            rrule: text::copy_texts(&self.rrule),
            rdate: text::copy_texts(&self.rdate),
            exdate: text::copy_texts(&self.exdate),
        }
    }
}

impl Default for RecurrenceSpec {
    fn default() -> (r: Self)
        ensures
            r@ == (RecurrenceView { rrule: seq![], rdate: seq![], exdate: seq![] }),
    {
        let r = RecurrenceSpec { rrule: Vec::new(), rdate: Vec::new(), exdate: Vec::new() };
        assert(r@ =~= (RecurrenceView { rrule: seq![], rdate: seq![], exdate: seq![] }));
        r
    }
}

impl RecurrenceSpec {
    /// The recurrence of a single rule.
    pub fn of_rule(rule: String) -> (r: RecurrenceSpec)
        ensures
            r@ == rule_recurrence(rule@),
    {
        let mut rrule: Vec<String> = Vec::new();
        rrule.push(rule);
        let r = RecurrenceSpec { rrule, rdate: Vec::new(), exdate: Vec::new() };
        assert(r@ =~= rule_recurrence(rule@));
        r
    }

    /// Whether the two hold the same lines.
    pub fn same(&self, other: &RecurrenceSpec) -> (r: bool)
        ensures
            r == (self@ == other@),
    {
        text::same_texts(&self.rrule, &other.rrule) && text::same_texts(&self.rdate, &other.rdate)
            && text::same_texts(&self.exdate, &other.exdate)
    }
}

/// The recurrence of a single rule.
pub open spec fn rule_recurrence(rule: Seq<char>) -> RecurrenceView {
    RecurrenceView { rrule: seq![rule], rdate: seq![], exdate: seq![] }
}

/// The values of an optional recurrence.
pub open spec fn recurrence_view(value: Option<RecurrenceSpec>) -> Option<RecurrenceView> {
    match value {
        Some(recurrence) => Some(recurrence@),
        None => None,
    }
}

/// A copy of an optional recurrence.
pub fn copy_recurrence(value: &Option<RecurrenceSpec>) -> (r: Option<RecurrenceSpec>)
    ensures
        recurrence_view(r) == recurrence_view(*value),
{
    match value {
        Some(recurrence) => Some(recurrence.clone()),
        None => None,
    }
}

/// Whether two optional recurrences are the same.
pub fn same_recurrence(a: &Option<RecurrenceSpec>, b: &Option<RecurrenceSpec>) -> (r: bool)
    ensures
        r == (recurrence_view(*a) == recurrence_view(*b)),
{
    match (a, b) {
        (Some(left), Some(right)) => left.same(right),
        (None, None) => true,
        _ => false,
    }
}

/// A reminder before an event.
#[derive(Debug)]
pub struct ReminderSpec {
    pub seconds_before_start: i64,
    pub description: String,
}

/// The values of a [`ReminderSpec`].
pub struct ReminderView {
    pub seconds_before_start: i64,
    pub description: Seq<char>,
}

impl View for ReminderSpec {
    type V = ReminderView;

    open spec fn view(&self) -> ReminderView {
        ReminderView {
            seconds_before_start: self.seconds_before_start,
            description: self.description@,
        }
    }
}

impl Clone for ReminderSpec {
    fn clone(&self) -> (r: Self)
        ensures
            r@ == self@,
    {
        ReminderSpec {
            seconds_before_start: self.seconds_before_start,
            description: self.description.clone(),
        }
    }
}

/// The values of a list of reminders.
pub open spec fn reminder_views(reminders: Seq<ReminderSpec>) -> Seq<ReminderView> {
    Seq::new(reminders.len(), |i: int| reminders[i]@)
}

/// A copy of a list of reminders.
pub fn copy_reminders(reminders: &Vec<ReminderSpec>) -> (r: Vec<ReminderSpec>)
    ensures
        reminder_views(r@) == reminder_views(reminders@),
{
    let mut out: Vec<ReminderSpec> = Vec::new();
    for i in 0..reminders.len()
        invariant
            reminder_views(out@) == reminder_views(reminders@.take(i as int)),
    {
        let ghost before = out@;
        out.push(reminders[i].clone());
        assert(reminder_views(out@) =~= reminder_views(before).push(reminders@[i as int]@));
        assert(reminder_views(reminders@.take(i + 1)) =~= reminder_views(
            reminders@.take(i as int),
        ).push(reminders@[i as int]@));
    }
    assert(reminders@.take(reminders@.len() as int) =~= reminders@);
    out
}

/// Whether two lists hold the same reminders in the same order.
pub fn same_reminders(a: &Vec<ReminderSpec>, b: &Vec<ReminderSpec>) -> (r: bool)
    ensures
        r == (reminder_views(a@) == reminder_views(b@)),
{
    if a.len() != b.len() {
        assert(reminder_views(a@).len() != reminder_views(b@).len());
        return false;
    }
    for i in 0..a.len()
        invariant
            a@.len() == b@.len(),
            forall|k: int| 0 <= k < i ==> (#[trigger] a@[k])@ == b@[k]@,
    {
        if a[i].seconds_before_start != b[i].seconds_before_start || !text::same_text(
            a[i].description.as_str(),
            b[i].description.as_str(),
        ) {
            assert(reminder_views(a@)[i as int] != reminder_views(b@)[i as int]);
            return false;
        }
    }
    assert(reminder_views(a@) =~= reminder_views(b@));
    true
}

// ---------------------------------------------------------------------------------------------
// Events
// ---------------------------------------------------------------------------------------------

/// An event.
#[derive(Debug)]
pub struct Event {
    pub id: Uuid,
    pub calendar_id: Uuid,
    pub title: String,
    pub location: String,
    pub description: String,
    pub schedule: EventSchedule,
    pub recurrence: Option<RecurrenceSpec>,
    pub reminders: Vec<ReminderSpec>,
}

/// The values of an [`Event`].
#[verifier::ext_equal]
pub struct EventView {
    pub id: Uuid,
    pub calendar_id: Uuid,
    pub title: Seq<char>,
    pub location: Seq<char>,
    pub description: Seq<char>,
    pub schedule: ScheduleView,
    pub recurrence: Option<RecurrenceView>,
    pub reminders: Seq<ReminderView>,
}

impl View for Event {
    type V = EventView;

    open spec fn view(&self) -> EventView {
        EventView {
            id: self.id,
            calendar_id: self.calendar_id,
            title: self.title@,
            location: self.location@,
            description: self.description@,
            schedule: self.schedule@,
            recurrence: recurrence_view(self.recurrence),
            reminders: reminder_views(self.reminders@),
        }
    }
}

impl EventView {
    /// Whether the two say the same, instants compared whatever their offsets.
    pub open spec fn same(self, other: EventView) -> bool {
        &&& self.id == other.id
        &&& self.calendar_id == other.calendar_id
        &&& self.title == other.title
        &&& self.location == other.location
        &&& self.description == other.description
        &&& self.schedule.same(other.schedule)
        &&& self.recurrence == other.recurrence
        &&& self.reminders == other.reminders
    }
}

impl Clone for Event {
    fn clone(&self) -> (r: Self)
        ensures
            r@ == self@,
    {
        Event {
            id: self.id,
            calendar_id: self.calendar_id,
            title: self.title.clone(),
            location: self.location.clone(),
            description: self.description.clone(),
            schedule: self.schedule.clone(),
            recurrence: copy_recurrence(&self.recurrence),
            reminders: copy_reminders(&self.reminders),
        }
    }
}

impl Event {
    /// Whether the two say the same, instants compared whatever their offsets.
    pub fn same(&self, other: &Event) -> (r: bool)
        ensures
            r == self@.same(other@),
    {
        self.id == other.id && self.calendar_id == other.calendar_id && text::same_text(
            self.title.as_str(),
            other.title.as_str(),
        ) && text::same_text(self.location.as_str(), other.location.as_str()) && text::same_text(
            self.description.as_str(),
            other.description.as_str(),
        ) && self.schedule.same(&other.schedule) && same_recurrence(
            &self.recurrence,
            &other.recurrence,
        ) && same_reminders(&self.reminders, &other.reminders)
    }
}

/// The values of a list of events.
pub open spec fn event_views(events: Seq<Event>) -> Seq<EventView> {
    Seq::new(events.len(), |i: int| events[i]@)
}

/// The values of a list of calendars.
pub open spec fn calendar_views(calendars: Seq<Calendar>) -> Seq<CalendarView> {
    Seq::new(calendars.len(), |i: int| calendars[i]@)
}

// ---------------------------------------------------------------------------------------------
// Single occurrences of a recurring event
// ---------------------------------------------------------------------------------------------

/// Which occurrence of a recurring event is meant.
#[derive(Debug)]
pub enum RecurrenceId {
    AllDay(Date),
    Timed { date_time: DateTime, timezone: Option<String> },
}

/// The values of a [`RecurrenceId`].
pub enum RecurrenceIdView {
    AllDay(Date),
    Timed { date_time: DateTime, timezone: Option<Seq<char>> },
}

impl View for RecurrenceId {
    type V = RecurrenceIdView;

    open spec fn view(&self) -> RecurrenceIdView {
        match *self {
            RecurrenceId::AllDay(date) => RecurrenceIdView::AllDay(date),
            RecurrenceId::Timed { date_time, timezone } => RecurrenceIdView::Timed {
                date_time,
                timezone: text_view(timezone),
            },
        }
    }
}

impl RecurrenceIdView {
    /// Whether the two say the same, instants compared whatever their offsets.
    pub open spec fn same(self, other: RecurrenceIdView) -> bool {
        match (self, other) {
            (RecurrenceIdView::AllDay(date), RecurrenceIdView::AllDay(date2)) => date@ == date2@,
            (
                RecurrenceIdView::Timed { date_time, timezone },
                RecurrenceIdView::Timed { date_time: date_time2, timezone: timezone2 },
            ) => date_time@.same_instant(date_time2@) && timezone == timezone2,
            _ => false,
        }
    }
}

impl Clone for RecurrenceId {
    fn clone(&self) -> (r: Self)
        ensures
            r@ == self@,
    {
        match self {
            RecurrenceId::AllDay(date) => RecurrenceId::AllDay(*date),
            RecurrenceId::Timed { date_time, timezone } => RecurrenceId::Timed {
                date_time: *date_time,
                timezone: copy_text(timezone),
            },
        }
    }
}

impl RecurrenceId {
    /// Whether the two say the same, instants compared whatever their offsets.
    pub fn same(&self, other: &RecurrenceId) -> (r: bool)
        ensures
            r == self@.same(other@),
    {
        match (self, other) {
            (RecurrenceId::AllDay(date), RecurrenceId::AllDay(date2)) => date.same(date2),
            (
                RecurrenceId::Timed { date_time, timezone },
                RecurrenceId::Timed { date_time: date_time2, timezone: timezone2 },
            ) => date_time.same_instant(date_time2) && same_optional_text(timezone, timezone2),
            _ => false,
        }
    }
}

/// An occurrence that was changed or cancelled on its own.
#[derive(Debug)]
pub enum DetachedEvent {
    Modified {
        recurrence_id: RecurrenceId,
        title: String,
        location: String,
        description: String,
        schedule: EventSchedule,
        reminders: Vec<ReminderSpec>,
    },
    Cancelled { recurrence_id: RecurrenceId },
}

/// The values of a [`DetachedEvent`].
#[verifier::ext_equal]
pub enum DetachedView {
    Modified {
        recurrence_id: RecurrenceIdView,
        title: Seq<char>,
        location: Seq<char>,
        description: Seq<char>,
        schedule: ScheduleView,
        reminders: Seq<ReminderView>,
    },
    Cancelled { recurrence_id: RecurrenceIdView },
}

impl View for DetachedEvent {
    type V = DetachedView;

    open spec fn view(&self) -> DetachedView {
        match *self {
            DetachedEvent::Modified {
                recurrence_id,
                title,
                location,
                description,
                schedule,
                reminders,
            } => DetachedView::Modified {
                recurrence_id: recurrence_id@,
                title: title@,
                location: location@,
                description: description@,
                schedule: schedule@,
                reminders: reminder_views(reminders@),
            },
            DetachedEvent::Cancelled { recurrence_id } => DetachedView::Cancelled {
                recurrence_id: recurrence_id@,
            },
        }
    }
}

impl DetachedView {
    /// The occurrence that is meant.
    pub open spec fn identity(self) -> RecurrenceIdView {
        match self {
            DetachedView::Modified { recurrence_id, .. } => recurrence_id,
            DetachedView::Cancelled { recurrence_id } => recurrence_id,
        }
    }

    /// Whether the two say the same, instants compared whatever their offsets.
    pub open spec fn same(self, other: DetachedView) -> bool {
        match (self, other) {
            (
                DetachedView::Modified {
                    recurrence_id: i,
                    title: t,
                    location: l,
                    description: d,
                    schedule: s,
                    reminders: r,
                },
                DetachedView::Modified {
                    recurrence_id: i2,
                    title: t2,
                    location: l2,
                    description: d2,
                    schedule: s2,
                    reminders: r2,
                },
            ) => i.same(i2) && t == t2 && l == l2 && d == d2 && s.same(s2) && r == r2,
            (
                DetachedView::Cancelled { recurrence_id: i },
                DetachedView::Cancelled { recurrence_id: i2 },
            ) => i.same(i2),
            _ => false,
        }
    }
}

impl Clone for DetachedEvent {
    fn clone(&self) -> (r: Self)
        ensures
            r@ == self@,
    {
        match self {
            DetachedEvent::Modified {
                recurrence_id,
                title,
                location,
                description,
                schedule,
                reminders,
            } => DetachedEvent::Modified {
                recurrence_id: recurrence_id.clone(),
                title: title.clone(),
                location: location.clone(),
                description: description.clone(),
                schedule: schedule.clone(),
                reminders: copy_reminders(reminders),
            },
            DetachedEvent::Cancelled { recurrence_id } => DetachedEvent::Cancelled {
                recurrence_id: recurrence_id.clone(),
            },
        }
    }
}

impl DetachedEvent {
    /// Whether the two say the same, instants compared whatever their offsets.
    pub fn same(&self, other: &DetachedEvent) -> (r: bool)
        ensures
            r == self@.same(other@),
    {
        match (self, other) {
            (
                DetachedEvent::Modified {
                    recurrence_id: i,
                    title: t,
                    location: l,
                    description: d,
                    schedule: s,
                    reminders: r,
                },
                DetachedEvent::Modified {
                    recurrence_id: i2,
                    title: t2,
                    location: l2,
                    description: d2,
                    schedule: s2,
                    reminders: r2,
                },
            ) => i.same(i2) && text::same_text(t.as_str(), t2.as_str()) && text::same_text(
                l.as_str(),
                l2.as_str(),
            ) && text::same_text(d.as_str(), d2.as_str()) && s.same(s2) && same_reminders(r, r2),
            (
                DetachedEvent::Cancelled { recurrence_id: i },
                DetachedEvent::Cancelled { recurrence_id: i2 },
            ) => i.same(i2),
            _ => false,
        }
    }

    /// The occurrence that is meant.
    pub fn identity(&self) -> (r: &RecurrenceId)
        ensures
            r@ == self@.identity(),
    {
        match self {
            DetachedEvent::Modified { recurrence_id, .. } => recurrence_id,
            DetachedEvent::Cancelled { recurrence_id } => recurrence_id,
        }
    }
}

/// The values of a list of detached occurrences.
pub open spec fn detached_views(detached: Seq<DetachedEvent>) -> Seq<DetachedView> {
    Seq::new(detached.len(), |i: int| detached[i]@)
}

// ---------------------------------------------------------------------------------------------
// Remote identity
// ---------------------------------------------------------------------------------------------

/// What identifies a calendar on its remote server.
#[derive(Debug)]
pub struct CalendarSyncState {
    pub calendar_id: Uuid,
    pub remote_url: String,
    pub sync_token: Option<String>,
}

/// The values of a [`CalendarSyncState`].
pub struct CalendarSyncView {
    pub calendar_id: Uuid,
    pub remote_url: Seq<char>,
    pub sync_token: Option<Seq<char>>,
}

impl View for CalendarSyncState {
    type V = CalendarSyncView;

    open spec fn view(&self) -> CalendarSyncView {
        CalendarSyncView {
            calendar_id: self.calendar_id,
            remote_url: self.remote_url@,
            sync_token: text_view(self.sync_token),
        }
    }
}

impl Clone for CalendarSyncState {
    fn clone(&self) -> (r: Self)
        ensures
            r@ == self@,
    {
        CalendarSyncState {
            calendar_id: self.calendar_id,
            remote_url: self.remote_url.clone(),
            sync_token: copy_text(&self.sync_token),
        }
    }
}

/// What identifies an event on its remote server.
#[derive(Debug)]
pub struct EventSyncState {
    pub calendar_id: Uuid,
    pub event_id: Uuid,
    pub remote_href: String,
    pub remote_uid: String,
    pub etag: Option<String>,
}

/// The values of an [`EventSyncState`].
pub struct EventSyncView {
    pub calendar_id: Uuid,
    pub event_id: Uuid,
    pub remote_href: Seq<char>,
    pub remote_uid: Seq<char>,
    pub etag: Option<Seq<char>>,
}

impl View for EventSyncState {
    type V = EventSyncView;

    open spec fn view(&self) -> EventSyncView {
        EventSyncView {
            calendar_id: self.calendar_id,
            event_id: self.event_id,
            remote_href: self.remote_href@,
            remote_uid: self.remote_uid@,
            etag: text_view(self.etag),
        }
    }
}

impl Clone for EventSyncState {
    fn clone(&self) -> (r: Self)
        ensures
            r@ == self@,
    {
        EventSyncState {
            calendar_id: self.calendar_id,
            event_id: self.event_id,
            remote_href: self.remote_href.clone(),
            remote_uid: self.remote_uid.clone(),
            etag: copy_text(&self.etag),
        }
    }
}

/// A local change that waits for its upload.
#[derive(Debug)]
pub enum PendingSyncOperation {
    Create { calendar_id: Uuid, event_id: Uuid, remote_uid: String },
    Update {
        calendar_id: Uuid,
        event_id: Uuid,
        remote_href: String,
        remote_uid: String,
        base_etag: Option<String>,
    },
    Delete {
        calendar_id: Uuid,
        event_id: Uuid,
        remote_href: String,
        remote_uid: String,
        base_etag: Option<String>,
    },
}

/// The values of a [`PendingSyncOperation`].
pub enum PendingView {
    Create { calendar_id: Uuid, event_id: Uuid, remote_uid: Seq<char> },
    Update {
        calendar_id: Uuid,
        event_id: Uuid,
        remote_href: Seq<char>,
        remote_uid: Seq<char>,
        base_etag: Option<Seq<char>>,
    },
    Delete {
        calendar_id: Uuid,
        event_id: Uuid,
        remote_href: Seq<char>,
        remote_uid: Seq<char>,
        base_etag: Option<Seq<char>>,
    },
}

impl View for PendingSyncOperation {
    type V = PendingView;

    open spec fn view(&self) -> PendingView {
        match *self {
            PendingSyncOperation::Create { calendar_id, event_id, remote_uid } => PendingView::Create {
                calendar_id,
                event_id,
                remote_uid: remote_uid@,
            },
            PendingSyncOperation::Update {
                calendar_id,
                event_id,
                remote_href,
                remote_uid,
                base_etag,
            } => PendingView::Update {
                calendar_id,
                event_id,
                remote_href: remote_href@,
                remote_uid: remote_uid@,
                base_etag: text_view(base_etag),
            },
            PendingSyncOperation::Delete {
                calendar_id,
                event_id,
                remote_href,
                remote_uid,
                base_etag,
            } => PendingView::Delete {
                calendar_id,
                event_id,
                remote_href: remote_href@,
                remote_uid: remote_uid@,
                base_etag: text_view(base_etag),
            },
        }
    }
}

impl Clone for PendingSyncOperation {
    fn clone(&self) -> (r: Self)
        ensures
            r@ == self@,
    {
        match self {
            PendingSyncOperation::Create { calendar_id, event_id, remote_uid } => {
                PendingSyncOperation::Create {
                    calendar_id: *calendar_id,
                    event_id: *event_id,
                    remote_uid: remote_uid.clone(),
                }
            },
            PendingSyncOperation::Update {
                calendar_id,
                event_id,
                remote_href,
                remote_uid,
                base_etag,
            } => PendingSyncOperation::Update {
                calendar_id: *calendar_id,
                event_id: *event_id,
                remote_href: remote_href.clone(),
                remote_uid: remote_uid.clone(),
                base_etag: copy_text(base_etag),
            },
            PendingSyncOperation::Delete {
                calendar_id,
                event_id,
                remote_href,
                remote_uid,
                base_etag,
            } => PendingSyncOperation::Delete {
                calendar_id: *calendar_id,
                event_id: *event_id,
                remote_href: remote_href.clone(),
                remote_uid: remote_uid.clone(),
                base_etag: copy_text(base_etag),
            },
        }
    }
}

// ---------------------------------------------------------------------------------------------
// Validation
// ---------------------------------------------------------------------------------------------

/// A quick-add title is empty.
#[derive(Clone, Copy, Debug, PartialEq, Eq, Structural)]
pub struct EmptyQuickAddTitle;

/// An event cannot be stored.
#[derive(Clone, Copy, Debug, PartialEq, Eq, Structural)]
pub struct InvalidEvent;

/// A calendar cannot be stored.
#[derive(Clone, Copy, Debug, PartialEq, Eq, Structural)]
pub struct InvalidCalendar;

/// Whether an event can be stored: it has a title and its end comes after its start.
pub open spec fn is_storable_event(event: EventView) -> bool {
    text::trimmed(event.title).len() > 0 && event.schedule.runs_forward()
}

/// Check a complete event before it is stored, and trim its title.
pub fn validate_event(candidate: Event) -> (r: Result<Event, InvalidEvent>)
    ensures
        match r {
            Ok(event) => is_storable_event(candidate@) && event@ == (EventView {
                title: text::trimmed(candidate@.title),
                ..candidate@
            }),
            Err(_) => !is_storable_event(candidate@),
        },
{
    let title = text::trim(candidate.title.as_str());
    if title.as_str().is_empty() {
        return Err(InvalidEvent);
    }
    if !candidate.schedule.runs_forward() {
        return Err(InvalidEvent);
    }
    let mut event = candidate;
    event.title = title;
    Ok(event)
}

/// A stored event is storable as it stands: checking it again changes nothing.
pub proof fn law_validate_event_idempotent(event: EventView)
    requires
        is_storable_event(event),
    ensures
        is_storable_event(EventView { title: text::trimmed(event.title), ..event }),
        text::trimmed(text::trimmed(event.title)) == text::trimmed(event.title),
{
    text::lemma_trimmed(event.title);
}

/// The digits of a colour: what follows an optional number sign.
pub open spec fn color_digits(color: Seq<char>) -> Seq<char> {
    if color.len() > 0 && color[0] == '#' {
        color.drop_first()
    } else {
        color
    }
}

/// Whether a calendar can be stored: it has a name and its colour is six hexadecimal digits.
pub open spec fn is_storable_calendar(calendar: CalendarView) -> bool {
    let digits = color_digits(calendar.color);
    &&& text::trimmed(calendar.name).len() > 0
    &&& digits.len() == 6
    &&& forall|i: int| 0 <= i < 6 ==> text::is_hex_digit(#[trigger] digits[i])
}

/// A calendar with its name trimmed and its colour in the form `#rrggbb`, small letters.
pub open spec fn normal_calendar(calendar: CalendarView) -> CalendarView {
    CalendarView {
        name: text::trimmed(calendar.name),
        color: text::lower(seq!['#'] + color_digits(calendar.color)),
        ..calendar
    }
}

/// Check a complete calendar before it is stored, trim its name and normalise its colour.
pub fn validate_calendar(candidate: Calendar) -> (r: Result<Calendar, InvalidCalendar>)
    ensures
        match r {
            Ok(calendar) => is_storable_calendar(candidate@) && calendar@ == normal_calendar(
                candidate@,
            ),
            Err(_) => !is_storable_calendar(candidate@),
        },
{
    let name = text::trim(candidate.name.as_str());
    if name.as_str().is_empty() {
        return Err(InvalidCalendar);
    }
    let color = text::chars_of(candidate.color.as_str());
    let digits = if color.len() > 0 && color[0] == '#' {
        let rest = text::slice(&color, 1, color.len());
        assert(rest@ =~= color@.drop_first());
        rest
    } else {
        color
    };
    assert(digits@ == color_digits(candidate@.color));
    if digits.len() != 6 {
        return Err(InvalidCalendar);
    }
    let mut normal: Vec<char> = Vec::new();
    normal.push('#');
    for i in 0..6usize
        invariant
            digits@.len() == 6,
            normal@ == seq!['#'] + digits@.take(i as int),
            digits@ == color_digits(candidate@.color),
            forall|k: int| 0 <= k < i ==> text::is_hex_digit(#[trigger] digits@[k]),
    {
        if !text::hex_digit(digits[i]) {
            assert(!text::is_hex_digit(digits@[i as int]));
            return Err(InvalidCalendar);
        }
        normal.push(digits[i]);
        assert(normal@ =~= seq!['#'] + digits@.take(i + 1));
    }
    assert(digits@.take(6) =~= digits@);
    let mut calendar = candidate;
    calendar.name = name;
    calendar.color = text::string_of(&text::lower_chars(&normal));
    Ok(calendar)
}

/// A normalised calendar is storable as it stands: checking it again changes nothing.
pub proof fn law_validate_calendar_idempotent(calendar: CalendarView)
    requires
        is_storable_calendar(calendar),
    ensures
        is_storable_calendar(normal_calendar(calendar)),
        normal_calendar(normal_calendar(calendar)) == normal_calendar(calendar),
{
    text::lemma_trimmed(calendar.name);
    let digits = color_digits(calendar.color);
    let normal = normal_calendar(calendar);
    assert(color_digits(normal.color) =~= text::lower(digits));
    assert(normal_calendar(normal).color =~= normal.color);
}

/// The one-day event that a quick add makes.
pub open spec fn quick_add_event(
    event_id: Uuid,
    calendar_id: Uuid,
    title: Seq<char>,
    date: Date,
    next_day: Date,
) -> EventView {
    EventView {
        id: event_id,
        calendar_id,
        title: text::trimmed(title),
        location: seq![],
        description: seq![],
        schedule: ScheduleView::AllDay { start_date: date, end_date_exclusive: next_day },
        recurrence: None,
        reminders: seq![],
    }
}

/// Build the all-day, one-day event of a quick add, its title trimmed.
pub fn new_quick_add_event(event_id: Uuid, calendar_id: Uuid, title: &str, date: Date) -> (r: Result<
    Event,
    EmptyQuickAddTitle,
>)
    requires
        date@ < date::MAX_DAY,
    ensures
        match r {
            Ok(event) => text::trimmed(title@).len() > 0 && exists|next_day: Date|
                next_day@ == date@ + 1 && event@ == #[trigger] quick_add_event(
                    event_id,
                    calendar_id,
                    title@,
                    date,
                    next_day,
                ),
            Err(_) => text::trimmed(title@).len() == 0,
        },
{
    let trimmed = text::trim(title);
    if trimmed.as_str().is_empty() {
        return Err(EmptyQuickAddTitle);
    }
    let next = date.succ_opt();
    match next {
        Some(next_day) => {
            let event = Event {
                id: event_id,
                calendar_id,
                title: trimmed,
                location: String::new(),
                description: String::new(),
                schedule: EventSchedule::AllDay { start_date: date, end_date_exclusive: next_day },
                recurrence: None,
                reminders: Vec::new(),
            };
            assert(event@ =~= quick_add_event(event_id, calendar_id, title@, date, next_day));
            Ok(event)
        },
        None => Err(EmptyQuickAddTitle),
    }
}

/// What a quick add makes can be stored.
pub proof fn law_quick_add_is_storable(
    event_id: Uuid,
    calendar_id: Uuid,
    title: Seq<char>,
    date: Date,
    next_day: Date,
)
    requires
        text::trimmed(title).len() > 0,
        next_day@ == date@ + 1,
    ensures
        is_storable_event(quick_add_event(event_id, calendar_id, title, date, next_day)),
{
    text::lemma_trimmed(title);
}

// ---------------------------------------------------------------------------------------------
// Ranges of instants
// ---------------------------------------------------------------------------------------------

/// A range of instants, its start inside and its end outside.
#[derive(Clone, Copy, Debug, PartialEq, Eq, Structural)]
pub struct DateTimeRange {
    pub start: DateTime,
    pub end: DateTime,
}

/// A range ends no later than it starts.
#[derive(Clone, Copy, Debug, PartialEq, Eq, Structural)]
pub struct InvalidDateTimeRange;

/// How one range lies to another.
#[derive(Clone, Copy, Debug, PartialEq, Eq, Structural)]
pub enum RangeOverlap {
    Disjoint,
    Intersection,
    Contains,
    ContainedIn,
    Equal,
}

impl DateTimeRange {
    /// Whether the range ends after it starts.
    pub open spec fn wf(self) -> bool {
        self.start@.before(self.end@)
    }

    /// Whether an instant lies in the range.
    pub open spec fn holds(self, instant: date::DateTimeView) -> bool {
        !instant.before(self.start@) && instant.before(self.end@)
    }

    /// How this range lies to `other`.
    pub open spec fn overlap_spec(self, other: DateTimeRange) -> RangeOverlap {
        if !other.start@.before(self.end@) || !self.start@.before(other.end@) {
            RangeOverlap::Disjoint
        } else if self.start@.same_instant(other.start@) && self.end@.same_instant(other.end@) {
            RangeOverlap::Equal
        } else if !other.start@.before(self.start@) && !self.end@.before(other.end@) {
            RangeOverlap::Contains
        } else if !self.start@.before(other.start@) && !other.end@.before(self.end@) {
            RangeOverlap::ContainedIn
        } else {
            RangeOverlap::Intersection
        }
    }

    /// The range from `start` to `end`, which must come later.
    pub fn new(start: DateTime, end: DateTime) -> (r: Result<DateTimeRange, InvalidDateTimeRange>)
        ensures
            match r {
                Ok(range) => range.start == start && range.end == end && range.wf(),
                Err(_) => !start@.before(end@),
            },
    {
        if !start.before(&end) {
            return Err(InvalidDateTimeRange);
        }
        Ok(DateTimeRange { start, end })
    }

    /// How this range lies to `other`; ranges that only touch do not overlap.
    pub fn overlap(&self, other: &DateTimeRange) -> (r: RangeOverlap)
        ensures
            r == self.overlap_spec(*other),
    {
        if !other.start.before(&self.end) || !self.start.before(&other.end) {
            return RangeOverlap::Disjoint;
        }
        if self.start.same_instant(&other.start) && self.end.same_instant(&other.end) {
            return RangeOverlap::Equal;
        }
        if !other.start.before(&self.start) && !self.end.before(&other.end) {
            return RangeOverlap::Contains;
        }
        if !self.start.before(&other.start) && !other.end.before(&self.end) {
            return RangeOverlap::ContainedIn;
        }
        RangeOverlap::Intersection
    }
}

/// Two ranges do not overlap exactly when no instant lies in both.
pub proof fn law_overlap_means_a_common_instant(a: DateTimeRange, b: DateTimeRange)
    requires
        a.wf(),
        b.wf(),
    ensures
        a.overlap_spec(b) == RangeOverlap::Disjoint <==> forall|i: date::DateTimeView|
            !(#[trigger] a.holds(i) && b.holds(i)),
{
    if a.overlap_spec(b) != RangeOverlap::Disjoint {
        let later = if a.start@.before(b.start@) {
            b.start@
        } else {
            a.start@
        };
        assert(a.holds(later) && b.holds(later));
    }
}

/// Seen from the other range the relation turns round.
pub proof fn law_overlap_mirrors(a: DateTimeRange, b: DateTimeRange)
    requires
        a.wf(),
        b.wf(),
    ensures
        b.overlap_spec(a) == (match a.overlap_spec(b) {
            RangeOverlap::Contains => RangeOverlap::ContainedIn,
            RangeOverlap::ContainedIn => RangeOverlap::Contains,
            other => other,
        }),
{
}

/// A range contains another exactly when it holds every instant of it.
pub proof fn law_contains_holds_every_instant(a: DateTimeRange, b: DateTimeRange)
    requires
        a.wf(),
        b.wf(),
        a.overlap_spec(b) == RangeOverlap::Contains || a.overlap_spec(b) == RangeOverlap::Equal,
    ensures
        forall|i: date::DateTimeView| #[trigger] b.holds(i) ==> a.holds(i),
{
}

/// An event can be stored where its title holds something but white space, and its schedule runs
/// forward: its end is after its start.
pub proof fn law_storable_events(event: EventView)
    ensures
        is_storable_event(event) <==> (exists|i: int|
            0 <= i < event.title.len() && !text::is_white(#[trigger] event.title[i])) && match event.schedule {
            ScheduleView::AllDay { start_date, end_date_exclusive } => start_date@
                < end_date_exclusive@,
            ScheduleView::Timed { start, end, .. } => start@.seconds < end@.seconds || (start@.seconds
                == end@.seconds && start@.nanos < end@.nanos),
        },
{
    let at = text::law_trimmed(event.title);
}

/// A calendar can be stored where its name holds something but white space, and its colour is six
/// hexadecimal digits, with or without a mark before them. It is then stored with the name trimmed and
/// the digits small behind a mark, and is otherwise as it was.
pub proof fn law_storable_calendars(calendar: CalendarView)
    ensures
        is_storable_calendar(calendar) ==> text::trimmed(calendar.name).len() > 0,
        is_storable_calendar(calendar) ==> {
            let normal = normal_calendar(calendar);
            &&& normal.name == text::trimmed(calendar.name)
            &&& normal.color.len() == 7 && normal.color[0] == '#'
            &&& forall|i: int|
                0 <= i < 6 ==> #[trigger] normal.color[i + 1] == text::lower_char(
                    if calendar.color[0] == '#' {
                        calendar.color[i + 1]
                    } else {
                        calendar.color[i]
                    },
                )
            &&& normal.id == calendar.id && normal.visible == calendar.visible && normal.read_only
                == calendar.read_only && normal.source == calendar.source
        },
        calendar.color.len() != 6 && calendar.color.len() != 7 ==> !is_storable_calendar(calendar),
        calendar.color.len() == 7 && calendar.color[0] != '#' ==> !is_storable_calendar(calendar),
        calendar.color.len() == 6 && text::trimmed(calendar.name).len() > 0 && (forall|i: int|
            0 <= i < 6 ==> ('0' <= #[trigger] calendar.color[i] <= '9') || ('a' <= calendar.color[i]
                <= 'f') || ('A' <= calendar.color[i] <= 'F')) ==> is_storable_calendar(calendar),
{
    let digits = color_digits(calendar.color);
    if is_storable_calendar(calendar) {
        let marked = seq!['#'] + digits;
        let normal = normal_calendar(calendar);
        assert(text::lower_char('#') == '#');
        assert(normal.color[0] == text::lower_char(marked[0]));
        assert forall|i: int| 0 <= i < 6 implies #[trigger] normal.color[i + 1] == text::lower_char(
            if calendar.color[0] == '#' {
                calendar.color[i + 1]
            } else {
                calendar.color[i]
            },
        ) by {
            assert(marked[i + 1] == digits[i]);
        }
    }
    if calendar.color.len() == 6 && (forall|i: int|
        0 <= i < 6 ==> ('0' <= #[trigger] calendar.color[i] <= '9') || ('a' <= calendar.color[i] <= 'f')
            || ('A' <= calendar.color[i] <= 'F')) {
        assert(calendar.color[0] != '#');
        assert(digits == calendar.color);
    }
}

/// A quickly added event is one whole day with the trimmed title, and has nothing else.
pub proof fn law_quick_add_is_one_day(
    event_id: Uuid,
    calendar_id: Uuid,
    title: Seq<char>,
    date: Date,
    next_day: Date,
)
    ensures
        ({
            let event = quick_add_event(event_id, calendar_id, title, date, next_day);
            &&& event.id == event_id && event.calendar_id == calendar_id
            &&& event.title == text::trimmed(title)
            &&& event.location.len() == 0 && event.description.len() == 0
            &&& event.schedule == (ScheduleView::AllDay { start_date: date, end_date_exclusive: next_day })
            &&& event.recurrence is None && event.reminders.len() == 0
        }),
{
}

/// How two ranges lie to each other: equal where they begin and end together; one holds the other
/// where it begins no later and ends no earlier; apart where one ends before the other begins, or as
/// it begins; and otherwise they overlap in part.
pub proof fn law_how_ranges_lie(a: DateTimeRange, b: DateTimeRange)
    requires
        a.wf(),
        b.wf(),
    ensures
        a.overlap_spec(b) == RangeOverlap::Equal <==> a.start@.same_instant(b.start@)
            && a.end@.same_instant(b.end@),
        a.overlap_spec(b) == RangeOverlap::Contains <==> !b.start@.before(a.start@) && !a.end@.before(
            b.end@,
        ) && !(a.start@.same_instant(b.start@) && a.end@.same_instant(b.end@)),
        a.overlap_spec(b) == RangeOverlap::ContainedIn <==> !a.start@.before(b.start@) && !b.end@.before(
            a.end@,
        ) && !(a.start@.same_instant(b.start@) && a.end@.same_instant(b.end@)),
        a.overlap_spec(b) == RangeOverlap::Disjoint <==> !b.start@.before(a.end@) || !a.start@.before(
            b.end@,
        ),
{
}

/// Two events that say the same agree in every part; instants are compared whatever their offsets.
pub proof fn law_events_that_say_the_same(a: EventView, b: EventView)
    ensures
        a.same(b) <==> a.id == b.id && a.calendar_id == b.calendar_id && a.title == b.title && a.location
            == b.location && a.description == b.description && a.recurrence == b.recurrence && a.reminders
            == b.reminders && match (a.schedule, b.schedule) {
            (
                ScheduleView::AllDay { start_date: s, end_date_exclusive: e },
                ScheduleView::AllDay { start_date: s2, end_date_exclusive: e2 },
            ) => s@ == s2@ && e@ == e2@,
            (
                ScheduleView::Timed { start: s, end: e, timezone: z },
                ScheduleView::Timed { start: s2, end: e2, timezone: z2 },
            ) => s@.seconds == s2@.seconds && s@.nanos == s2@.nanos && e@.seconds == e2@.seconds
                && e@.nanos == e2@.nanos && z == z2,
            _ => false,
        },
        a.same(a),
{
}

} // verus!
