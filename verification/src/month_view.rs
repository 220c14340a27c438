//! Events on the days of a month, a week or an agenda.
use vstd::prelude::*;

use crate::calendar_grid;
use crate::date;
use crate::date::{Date, DateTime, DateTimeView, Time};
use crate::expansion;
use crate::expansion::{MasterEvent, ProjectedEvent, ProjectedView};
use crate::lists;
use crate::model;
use crate::model::{Calendar, CalendarView, Event, EventSchedule, EventView, RecurrenceId, RecurrenceIdView, ScheduleView, Uuid};
use crate::sorting;
use crate::sorting::Ranked;
use crate::zone;

verus! {

// ---------------------------------------------------------------------------------------------
// The viewer's clocks
// ---------------------------------------------------------------------------------------------

/// The clocks by which events are shown.
#[derive(Debug)]
pub enum ViewerZone {
    /// Clocks ahead of UTC by a number of seconds.
    Offset(i32),
    /// The clocks of the zone with a name.
    Named(String),
}

/// An instant as clocks show it. Clocks that do not exist change nothing.
pub open spec fn shown_by(viewer: ViewerZone, v: DateTimeView) -> DateTimeView {
    match viewer {
        ViewerZone::Offset(offset) => if date::is_offset(offset as int) {
            v.at_offset(offset as int)
        } else {
            v
        },
        ViewerZone::Named(name) => if zone::zone_known(name@) {
            zone::shown_in(v, name@)
        } else {
            v
        },
    }
}

impl ViewerZone {
    /// An instant as the clocks show it.
    pub fn localize(&self, value: &DateTime) -> (r: DateTime)
        ensures
            r@ == shown_by(*self, value@),
    {
        match self {
            ViewerZone::Offset(offset) => if -86400 < *offset && *offset < 86400 {
                value.with_offset(*offset)
            } else {
                *value
            },
            ViewerZone::Named(name) => match zone::in_zone(value, name.as_str()) {
                Some(shown) => shown,
                None => *value,
            },
        }
    }
}

/// When an event is shown, by the clocks of the viewer.
#[derive(Clone, Copy, Debug, PartialEq, Eq, Structural)]
pub enum ViewerLocalSchedule {
    Timed { start: DateTime, end: DateTime },
    AllDay { start_date: Date, end_date_exclusive: Date },
}

/// When an event ends, by the clocks of the viewer.
#[derive(Clone, Copy, Debug, PartialEq, Eq, Structural)]
pub enum ViewerLocalEnd {
    Timed(DateTime),
    /// The first day after the event.
    AllDay(Date),
}

/// A schedule by the clocks of the viewer.
pub open spec fn local_schedule(viewer: ViewerZone, schedule: ScheduleView) -> ViewerLocalSchedule {
    match schedule {
        ScheduleView::AllDay { start_date, end_date_exclusive } => ViewerLocalSchedule::AllDay {
            start_date,
            end_date_exclusive,
        },
        ScheduleView::Timed { start, end, .. } => ViewerLocalSchedule::Timed {
            start: date::date_time_of(shown_by(viewer, start@)),
            end: date::date_time_of(shown_by(viewer, end@)),
        },
    }
}

/// An event to show, with its schedule by the clocks of the viewer.
#[derive(Debug)]
pub struct LocalEvent {
    pub shown: ProjectedEvent,
    pub local: ViewerLocalSchedule,
}

/// The values of a [`LocalEvent`].
pub struct LocalView {
    pub event: EventView,
    pub identity: Option<RecurrenceIdView>,
    pub local: ViewerLocalSchedule,
}

impl View for LocalEvent {
    type V = LocalView;

    open spec fn view(&self) -> LocalView {
        LocalView { event: self.shown.event@, identity: self.shown@.identity, local: self.local }
    }
}

/// Events to show, by the clocks of the viewer.
pub open spec fn localized(viewer: ViewerZone, list: Seq<ProjectedView>) -> Seq<LocalView> {
    Seq::new(
        list.len(),
        |i: int|
            LocalView {
                event: list[i].event,
                identity: list[i].identity,
                local: local_schedule(viewer, list[i].event.schedule),
            },
    )
}

/// A copy of an event to show.
fn copy_projected(shown: &ProjectedEvent) -> (r: ProjectedEvent)
    ensures
        r@ == shown@,
{
    let original_recurrence_id = match &shown.original_recurrence_id {
        Some(identity) => Some(identity.clone()),
        None => None,
    };
    ProjectedEvent { event: shown.event.clone(), original_recurrence_id }
}

/// Events to show, by the clocks of the viewer.
pub fn localize_events(viewer: &ViewerZone, list: &Vec<ProjectedEvent>) -> (r: Vec<LocalEvent>)
    ensures
        lists::views_of(r@) == localized(*viewer, lists::views_of(list@)),
{
    let ghost all = lists::views_of(list@);
    let mut out: Vec<LocalEvent> = Vec::new();
    for i in 0..list.len()
        invariant
            all == lists::views_of(list@),
            out@.len() == i,
            forall|k: int|
                0 <= k < i ==> (#[trigger] out@[k])@ == localized(*viewer, all)[k],
    {
        let local = match &list[i].event.schedule {
            EventSchedule::AllDay { start_date, end_date_exclusive } => ViewerLocalSchedule::AllDay {
                start_date: *start_date,
                end_date_exclusive: *end_date_exclusive,
            },
            EventSchedule::Timed { start, end, .. } => {
                let start = viewer.localize(start);
                let end = viewer.localize(end);
                proof {
                    date::lemma_date_time_of_view(start);
                    date::lemma_date_time_of_view(end);
                }
                ViewerLocalSchedule::Timed { start, end }
            },
        };
        out.push(LocalEvent { shown: copy_projected(&list[i]), local });
    }
    assert(lists::views_of(out@) =~= localized(*viewer, all));
    out
}

// ---------------------------------------------------------------------------------------------
// Days of an event
// ---------------------------------------------------------------------------------------------

/// Whether an instant is midnight on its clocks.
pub open spec fn is_midnight(v: DateTimeView) -> bool {
    v.local_second() == 0 && v.nanos == 0
}

/// The first and the last day that an event touches; none where it touches none. One that ends at
/// midnight does not touch the day that begins there.
pub open spec fn date_bounds(local: ViewerLocalSchedule) -> Option<(int, int)> {
    match local {
        ViewerLocalSchedule::AllDay { start_date, end_date_exclusive } => if start_date@
            < end_date_exclusive@ {
            Some((start_date@, end_date_exclusive@ - 1))
        } else {
            None
        },
        ViewerLocalSchedule::Timed { start, end } => if !start@.before(end@) {
            None
        } else if !is_midnight(end@) {
            Some((start@.local_day(), end@.local_day()))
        } else if date::is_day(end@.local_day() - 1) {
            Some((start@.local_day(), end@.local_day() - 1))
        } else {
            None
        },
    }
}

/// The first and the last day that an event touches.
pub fn event_date_bounds(local: &ViewerLocalSchedule) -> (r: Option<(Date, Date)>)
    ensures
        match r {
            Some((first, last)) => date_bounds(*local) == Some((first@, last@)),
            None => date_bounds(*local) is None,
        },
{
    match local {
        ViewerLocalSchedule::AllDay { start_date, end_date_exclusive } => {
            let first: i32 = start_date.days();
            if first >= end_date_exclusive.days() {
                return None;
            }
            match end_date_exclusive.plus_days(-1) {
                Some(last) => Some((*start_date, last)),
                None => None,
            }
        },
        ViewerLocalSchedule::Timed { start, end } => {
            if !start.before(end) {
                return None;
            }
            let time = end.local_time();
            if time.seconds == 0 && time.nanos == 0 {
                match end.local_date().plus_days(-1) {
                    Some(last) => Some((start.local_date(), last)),
                    None => None,
                }
            } else {
                Some((start.local_date(), end.local_date()))
            }
        },
    }
}

// ---------------------------------------------------------------------------------------------
// Chips
// ---------------------------------------------------------------------------------------------

/// An event on a day.
#[derive(Debug)]
pub struct EventChip {
    pub event_id: Uuid,
    pub title: String,
    pub calendar_id: Uuid,
    pub color: String,
    pub is_all_day: bool,
    pub start_time: Option<Time>,
    pub viewer_local_end: ViewerLocalEnd,
    pub viewer_local_schedule: ViewerLocalSchedule,
    pub original_recurrence_id: Option<RecurrenceId>,
}

/// The values of an [`EventChip`].
pub struct ChipView {
    pub event_id: Uuid,
    pub title: Seq<char>,
    pub calendar_id: Uuid,
    pub color: Seq<char>,
    pub is_all_day: bool,
    pub start_time: Option<Time>,
    pub viewer_local_end: ViewerLocalEnd,
    pub viewer_local_schedule: ViewerLocalSchedule,
    pub identity: Option<RecurrenceIdView>,
}

impl View for EventChip {
    type V = ChipView;

    open spec fn view(&self) -> ChipView {
        ChipView {
            event_id: self.event_id,
            title: self.title@,
            calendar_id: self.calendar_id,
            color: self.color@,
            is_all_day: self.is_all_day,
            start_time: self.start_time,
            viewer_local_end: self.viewer_local_end,
            viewer_local_schedule: self.viewer_local_schedule,
            identity: lists::view_of(self.original_recurrence_id),
        }
    }
}

impl Clone for EventChip {
    fn clone(&self) -> (r: Self)
        ensures
            r@ == self@,
    {
        let original_recurrence_id = match &self.original_recurrence_id {
            Some(identity) => Some(identity.clone()),
            None => None,
        };
        EventChip {
            event_id: self.event_id,
            title: self.title.clone(),
            calendar_id: self.calendar_id,
            color: self.color.clone(),
            is_all_day: self.is_all_day,
            start_time: self.start_time,
            viewer_local_end: self.viewer_local_end,
            viewer_local_schedule: self.viewer_local_schedule,
            original_recurrence_id,
        }
    }
}

impl EventChip {
    /// Whether an end lies before an instant: for whole days, whether the clocks show a later time
    /// than midnight of the first day after the event.
    pub open spec fn ended_before(end: ViewerLocalEnd, now: DateTimeView) -> bool {
        match end {
            ViewerLocalEnd::Timed(end) => end@.before(now),
            ViewerLocalEnd::AllDay(day) => day@ < now.local_day() || (day@ == now.local_day()
                && !is_midnight(now)),
        }
    }

    /// Whether the event ended before an instant.
    pub fn is_past_at(&self, now: &DateTime) -> (r: bool)
        ensures
            r == EventChip::ended_before(self.viewer_local_end, now@),
    {
        match &self.viewer_local_end {
            ViewerLocalEnd::Timed(end) => end.before(now),
            ViewerLocalEnd::AllDay(day) => {
                let today = now.local_date();
                let time = now.local_time();
                day.before(&today) || (day.same(&today) && (time.seconds > 0 || time.nanos > 0))
            },
        }
    }
}

/// The last visible calendar of a list with an identifier.
pub open spec fn visible_calendar(calendars: Seq<CalendarView>, id: Uuid) -> Option<CalendarView>
    decreases calendars.len(),
{
    if calendars.len() == 0 {
        None
    } else if calendars.last().visible && calendars.last().id == id {
        Some(calendars.last())
    } else {
        visible_calendar(calendars.drop_last(), id)
    }
}

/// Where the last visible calendar of a list with an identifier stands.
fn find_visible_calendar(calendars: &Vec<Calendar>, id: Uuid) -> (r: Option<usize>)
    ensures
        match r {
            Some(i) => i < calendars@.len() && visible_calendar(
                model::calendar_views(calendars@),
                id,
            ) == Some(calendars@[i as int]@),
            None => visible_calendar(model::calendar_views(calendars@), id) is None,
        },
{
    let ghost all = model::calendar_views(calendars@);
    let mut i: usize = calendars.len();
    assert(all.take(i as int) =~= all);
    while i > 0
        invariant
            i <= calendars@.len(),
            all == model::calendar_views(calendars@),
            visible_calendar(all, id) == visible_calendar(all.take(i as int), id),
        decreases i,
    {
        assert(all.take(i as int).last() == calendars@[i - 1]@);
        assert(all.take(i as int).drop_last() =~= all.take(i - 1));
        if calendars[i - 1].visible && calendars[i - 1].id == id {
            return Some(i - 1);
        }
        i -= 1;
    }
    None
}

/// Whether a list has a visible calendar with an identifier.
pub fn is_calendar_visible(calendars: &Vec<Calendar>, id: Uuid) -> (r: bool)
    ensures
        r == visible_calendar(model::calendar_views(calendars@), id) is Some,
{
    find_visible_calendar(calendars, id).is_some()
}

/// An event on a day, in the colour of its calendar.
pub open spec fn chip_of(event: LocalView, color: Seq<char>) -> ChipView {
    ChipView {
        event_id: event.event.id,
        title: event.event.title,
        calendar_id: event.event.calendar_id,
        color,
        is_all_day: event.local is AllDay,
        start_time: match event.local {
            ViewerLocalSchedule::Timed { start, .. } => Some(
                Time { seconds: start@.local_second() as u32, nanos: start@.nanos as u32 },
            ),
            ViewerLocalSchedule::AllDay { .. } => None,
        },
        viewer_local_end: match event.local {
            ViewerLocalSchedule::Timed { end, .. } => ViewerLocalEnd::Timed(end),
            ViewerLocalSchedule::AllDay { end_date_exclusive, .. } => ViewerLocalEnd::AllDay(
                end_date_exclusive,
            ),
        },
        viewer_local_schedule: event.local,
        identity: event.identity,
    }
}

/// An event on a day, in the colour of its calendar.
fn make_chip(event: &LocalEvent, color: &str) -> (r: EventChip)
    ensures
        r@ == chip_of(event@, color@),
{
    let original_recurrence_id = match &event.shown.original_recurrence_id {
        Some(identity) => Some(identity.clone()),
        None => None,
    };
    let (is_all_day, start_time, viewer_local_end): (bool, Option<Time>, ViewerLocalEnd) = match event.local {
        ViewerLocalSchedule::Timed { start, end } => (
            false,
            Some(start.local_time()),
            ViewerLocalEnd::Timed(end),
        ),
        ViewerLocalSchedule::AllDay { end_date_exclusive, .. } => (
            true,
            None,
            ViewerLocalEnd::AllDay(end_date_exclusive),
        ),
    };
    EventChip {
        event_id: event.shown.event.id,
        title: event.shown.event.title.clone(),
        calendar_id: event.shown.event.calendar_id,
        color: color.to_owned(),
        is_all_day,
        start_time,
        viewer_local_end,
        viewer_local_schedule: event.local,
        original_recurrence_id,
    }
}

/// Whether an event touches a day.
pub open spec fn touches(local: ViewerLocalSchedule, day: int) -> bool {
    date_bounds(local) matches Some((first, last)) && first <= day <= last
}

/// The chip of an event on a day, in the list of whole days or in that of times; none where its
/// calendar is hidden, it does not touch the day, or it belongs to the other list.
pub open spec fn chip_on(event: LocalView, calendars: Seq<CalendarView>, day: int, all_day: bool) -> Option<
    ChipView,
> {
    match visible_calendar(calendars, event.event.calendar_id) {
        Some(calendar) => if touches(event.local, day) && (event.local is AllDay) == all_day {
            Some(chip_of(event, calendar.color))
        } else {
            None
        },
        None => None,
    }
}

/// The chips of events on a day, in the list of whole days or in that of times.
pub open spec fn chips_on(events: Seq<LocalView>, calendars: Seq<CalendarView>, day: int, all_day: bool) -> Seq<
    ChipView,
>
    decreases events.len(),
{
    if events.len() == 0 {
        seq![]
    } else {
        let before = chips_on(events.drop_last(), calendars, day, all_day);
        match chip_on(events.last(), calendars, day, all_day) {
            Some(chip) => before.push(chip),
            None => before,
        }
    }
}

/// The order in which events are shown: those on whole days first, as they come, and the others by
/// the instant of their start, then by identifier.
pub open spec fn by_start() -> spec_fn(LocalView, LocalView) -> bool {
    |a: LocalView, b: LocalView|
        match (a.event.schedule, b.event.schedule) {
            (
                ScheduleView::Timed { start: first, .. },
                ScheduleView::Timed { start: second, .. },
            ) => first@.before(second@) || (first@.same_instant(second@) && a.event.id < b.event.id),
            (ScheduleView::AllDay { .. }, ScheduleView::Timed { .. }) => true,
            _ => false,
        }
}

impl Ranked for LocalEvent {
    open spec fn order() -> spec_fn(LocalView, LocalView) -> bool {
        by_start()
    }

    fn comes_before(&self, other: &LocalEvent) -> (r: bool) {
        match (&self.shown.event.schedule, &other.shown.event.schedule) {
            (
                EventSchedule::Timed { start: first, .. },
                EventSchedule::Timed { start: second, .. },
            ) => first.before(second) || (first.same_instant(second) && self.shown.event.id
                < other.shown.event.id),
            (EventSchedule::AllDay { .. }, EventSchedule::Timed { .. }) => true,
            _ => false,
        }
    }
}

// ---------------------------------------------------------------------------------------------
// Days
// ---------------------------------------------------------------------------------------------

/// A day with the events on it.
#[derive(Debug)]
pub struct DayProjection {
    pub date: Date,
    pub in_displayed_month: bool,
    pub all_day: Vec<EventChip>,
    pub timed: Vec<EventChip>,
}

/// The values of a [`DayProjection`].
pub struct DayView {
    pub date: Date,
    pub in_displayed_month: bool,
    pub all_day: Seq<ChipView>,
    pub timed: Seq<ChipView>,
}

impl View for DayProjection {
    type V = DayView;

    open spec fn view(&self) -> DayView {
        DayView {
            date: self.date,
            in_displayed_month: self.in_displayed_month,
            all_day: lists::views_of(self.all_day@),
            timed: lists::views_of(self.timed@),
        }
    }
}

/// A copy of a list of chips.
fn copy_chips(chips: &Vec<EventChip>) -> (r: Vec<EventChip>)
    ensures
        lists::views_of(r@) == lists::views_of(chips@),
{
    let mut out: Vec<EventChip> = Vec::new();
    for i in 0..chips.len()
        invariant
            out@.len() == i,
            forall|k: int| 0 <= k < i ==> (#[trigger] out@[k])@ == chips@[k]@,
    {
        out.push(chips[i].clone());
    }
    assert(lists::views_of(out@) =~= lists::views_of(chips@));
    out
}

impl Clone for DayProjection {
    fn clone(&self) -> (r: Self)
        ensures
            r@ == self@,
    {
        DayProjection {
            date: self.date,
            in_displayed_month: self.in_displayed_month,
            all_day: copy_chips(&self.all_day),
            timed: copy_chips(&self.timed),
        }
    }
}

/// A day to show, and whether it is in the month that is shown.
pub type Day = (Date, bool);

/// Whether a day of a list is the first with its date.
pub open spec fn is_first(days: Seq<Day>, i: int) -> bool {
    forall|k: int| 0 <= k < i ==> (#[trigger] days[k]).0@ != days[i].0@
}

/// A day of a list with the events on it. Where a date occurs again, its events are shown once.
pub open spec fn day_of(
    days: Seq<Day>,
    i: int,
    calendars: Seq<CalendarView>,
    events: Seq<LocalView>,
) -> DayView {
    DayView {
        date: days[i].0,
        in_displayed_month: days[i].1,
        all_day: if is_first(days, i) {
            chips_on(events, calendars, days[i].0@, true)
        } else {
            seq![]
        },
        timed: if is_first(days, i) {
            chips_on(events, calendars, days[i].0@, false)
        } else {
            seq![]
        },
    }
}

/// Days with the events on them.
pub open spec fn projected(days: Seq<Day>, calendars: Seq<CalendarView>, events: Seq<LocalView>) -> Seq<
    DayView,
> {
    let sorted = sorting::sorted(events, by_start());
    Seq::new(days.len(), |i: int| day_of(days, i, calendars, sorted))
}

/// The chip of an event on a day.
fn make_chip_on(event: &LocalEvent, calendars: &Vec<Calendar>, day: &Date, all_day: bool) -> (r: Option<
    EventChip,
>)
    ensures
        lists::view_of(r) == chip_on(event@, model::calendar_views(calendars@), day@, all_day),
{
    let at = match find_visible_calendar(calendars, event.shown.event.calendar_id) {
        Some(at) => at,
        None => {
            return None;
        },
    };
    let is_all_day = match event.local {
        ViewerLocalSchedule::AllDay { .. } => true,
        ViewerLocalSchedule::Timed { .. } => false,
    };
    if is_all_day != all_day {
        return None;
    }
    match event_date_bounds(&event.local) {
        Some((first, last)) => if !day.before(&first) && !last.before(day) {
            Some(make_chip(event, calendars[at].color.as_str()))
        } else {
            None
        },
        None => None,
    }
}

/// The chips of events on a day.
fn make_chips_on(events: &Vec<LocalEvent>, calendars: &Vec<Calendar>, day: &Date, all_day: bool) -> (r: Vec<
    EventChip,
>)
    ensures
        lists::views_of(r@) == chips_on(
            lists::views_of(events@),
            model::calendar_views(calendars@),
            day@,
            all_day,
        ),
{
    let ghost all = lists::views_of(events@);
    let ghost colours = model::calendar_views(calendars@);
    let mut out: Vec<EventChip> = Vec::new();
    assert(lists::views_of(out@) =~= chips_on(all.take(0), colours, day@, all_day));
    for i in 0..events.len()
        invariant
            all == lists::views_of(events@),
            colours == model::calendar_views(calendars@),
            lists::views_of(out@) == chips_on(all.take(i as int), colours, day@, all_day),
    {
        let ghost before = out@;
        proof {
            lists::lemma_views_take(events@, i as int);
        }
        if let Some(chip) = make_chip_on(&events[i], calendars, day, all_day) {
            out.push(chip);
            proof {
                lists::lemma_views_push(before, chip);
            }
        }
    }
    proof {
        lists::lemma_views_all(events@);
    }
    out
}

/// Whether a day of a list is the first with its date.
fn check_first(days: &Vec<Day>, i: usize) -> (r: bool)
    requires
        i < days@.len(),
    ensures
        r == is_first(days@, i as int),
{
    for k in 0..i
        invariant
            i < days@.len(),
            forall|j: int| 0 <= j < k ==> (#[trigger] days@[j]).0@ != days@[i as int].0@,
    {
        if days[k].0.same(&days[i].0) {
            assert(days@[k as int].0@ == days@[i as int].0@);
            return false;
        }
    }
    true
}

/// Days with the events on them.
pub fn project_projected_events(days: &Vec<Day>, calendars: &Vec<Calendar>, events: Vec<LocalEvent>) -> (r:
    Vec<DayProjection>)
    ensures
        lists::views_of(r@) == projected(
            days@,
            model::calendar_views(calendars@),
            lists::views_of(events@),
        ),
{
    let sorted = sorting::sort(events);
    let ghost all = lists::views_of(sorted@);
    let ghost colours = model::calendar_views(calendars@);
    let mut out: Vec<DayProjection> = Vec::new();
    for i in 0..days.len()
        invariant
            all == lists::views_of(sorted@),
            colours == model::calendar_views(calendars@),
            out@.len() == i,
            forall|k: int|
                0 <= k < i ==> (#[trigger] out@[k])@ == day_of(days@, k, colours, all),
    {
        let (date, in_displayed_month): (Date, bool) = days[i];
        let (all_day, timed): (Vec<EventChip>, Vec<EventChip>) = if check_first(days, i) {
            (
                make_chips_on(&sorted, calendars, &date, true),
                make_chips_on(&sorted, calendars, &date, false),
            )
        } else {
            let none: Vec<EventChip> = Vec::new();
            let nothing: Vec<EventChip> = Vec::new();
            assert(lists::views_of(none@) =~= seq![]);
            assert(lists::views_of(nothing@) =~= seq![]);
            (none, nothing)
        };
        out.push(DayProjection { date, in_displayed_month, all_day, timed });
    }
    assert(lists::views_of(out@) =~= projected(days@, colours, lists::views_of(events@)));
    out
}

// ---------------------------------------------------------------------------------------------
// The days of a month, a week and a range
// ---------------------------------------------------------------------------------------------

/// Whether the grid of a month lies within the representable days.
pub open spec fn has_grid(year: i32, month: u32) -> bool {
    &&& 1 <= month <= 12
    &&& year >= (if month <= 2 {
        1int
    } else {
        0int
    })
    &&& month == 12 ==> year < i32::MAX
    &&& date::is_day(calendar_grid::grid_start(year as int, month as int))
    &&& date::is_day(calendar_grid::grid_start(year as int, month as int) + 41)
}

/// Whether a list is that of the days of the grid of a month.
pub open spec fn is_month(days: Seq<Day>, year: i32, month: u32) -> bool {
    &&& days.len() == 42
    &&& forall|i: int|
        0 <= i < 42 ==> (#[trigger] days[i]).0@ == calendar_grid::grid_start(
            year as int,
            month as int,
        ) + i
    &&& forall|i: int|
        0 <= i < 42 ==> (#[trigger] days[i]).1 == ({
            let civil = date::civil_of(days[i].0@);
            civil.0 == year && civil.1 == month
        })
}

/// The days of the grid of a month.
pub fn month_days(year: i32, month: u32) -> (r: Vec<Day>)
    requires
        has_grid(year, month),
    ensures
        is_month(r@, year, month),
{
    let grid = calendar_grid::month_grid(year, month);
    let ghost start = calendar_grid::grid_start(year as int, month as int);
    let mut out: Vec<Day> = Vec::new();
    for i in 0..42usize
        invariant
            has_grid(year, month),
            start == calendar_grid::grid_start(year as int, month as int),
            forall|k: int|
                0 <= k < 42 ==> #[trigger] calendar_grid::is_grid_cell(grid@[k], year, month, k),
            out@.len() == i,
            forall|k: int| 0 <= k < i ==> (#[trigger] out@[k]).0@ == start + k,
            forall|k: int|
                0 <= k < i ==> (#[trigger] out@[k]).1 == ({
                    let civil = date::civil_of(out@[k].0@);
                    civil.0 == year && civil.1 == month
                }),
    {
        let cell = grid[i];
        proof {
            assert(calendar_grid::is_grid_cell(grid@[i as int], year, month, i as int));
            date::lemma_civil_of(cell.year as int, cell.month as int, cell.day as int);
            date::lemma_year_in_range(cell.year as int, cell.month as int, cell.day as int);
        }
        match Date::from_ymd_opt(cell.year, cell.month, cell.day) {
            Some(day) => {
                out.push((day, cell.in_displayed_month));
            },
            None => {
                assert(false);
            },
        }
    }
    out
}

/// The Monday of the week of a day.
pub open spec fn monday_of(day: int) -> int {
    day - date::weekday_of(day)
}

/// Whether the week of a day lies within the representable days.
pub open spec fn has_week(day: int) -> bool {
    date::is_day(monday_of(day)) && date::is_day(monday_of(day) + 6)
}

/// Whether a list is that of the days from `first` on.
pub open spec fn are_days_from(days: Seq<Day>, first: int) -> bool {
    forall|i: int| 0 <= i < days.len() ==> (#[trigger] days[i]).0@ == first + i && days[i].1
}

/// The days of the week of a day, Monday first.
pub fn week_days(active_date: &Date) -> (r: Vec<Day>)
    requires
        has_week(active_date@),
    ensures
        r@.len() == 7,
        are_days_from(r@, monday_of(active_date@)),
{
    let back: i64 = active_date.days_from_monday() as i64;
    let mut out: Vec<Day> = Vec::new();
    for i in 0..7i64
        invariant
            has_week(active_date@),
            back == date::weekday_of(active_date@),
            out@.len() == i,
            are_days_from(out@, monday_of(active_date@)),
    {
        match active_date.plus_days(i - back) {
            Some(day) => {
                out.push((day, true));
            },
            None => {
                assert(false);
            },
        }
    }
    out
}

/// The days of a range.
pub fn range_days(start_date: &Date, end_date_exclusive: &Date) -> (r: Vec<Day>)
    ensures
        r@.len() == (if start_date@ < end_date_exclusive@ {
            end_date_exclusive@ - start_date@
        } else {
            0
        }),
        are_days_from(r@, start_date@),
{
    let mut out: Vec<Day> = Vec::new();
    let mut date = *start_date;
    let end: i32 = end_date_exclusive.days();
    while date.days() < end
        invariant
            end == end_date_exclusive@,
            date::is_day(end_date_exclusive@),
            out@.len() == date@ - start_date@,
            are_days_from(out@, start_date@),
            start_date@ < end_date_exclusive@ ==> date@ <= end_date_exclusive@,
            start_date@ >= end_date_exclusive@ ==> date@ == start_date@,
        decreases end_date_exclusive@ - date@,
    {
        out.push((date, true));
        match date.succ_opt() {
            Some(next) => {
                date = next;
            },
            None => {
                assert(false);
            },
        }
    }
    out
}

// ---------------------------------------------------------------------------------------------
// Agenda
// ---------------------------------------------------------------------------------------------

/// A part of an agenda: a day with events, or days without.
#[derive(Debug)]
pub enum AgendaGroup {
    EventDay(DayProjection),
    EmptyRange { start_date: Date, end_date_exclusive: Date },
}

/// The values of an [`AgendaGroup`].
pub enum GroupView {
    EventDay(DayView),
    EmptyRange { start_date: Date, end_date_exclusive: Date },
}

impl View for AgendaGroup {
    type V = GroupView;

    open spec fn view(&self) -> GroupView {
        match *self {
            AgendaGroup::EventDay(day) => GroupView::EventDay(day@),
            AgendaGroup::EmptyRange { start_date, end_date_exclusive } => GroupView::EmptyRange {
                start_date,
                end_date_exclusive,
            },
        }
    }
}

impl Clone for AgendaGroup {
    fn clone(&self) -> (r: Self)
        ensures
            r@ == self@,
    {
        match self {
            AgendaGroup::EventDay(day) => AgendaGroup::EventDay(day.clone()),
            AgendaGroup::EmptyRange { start_date, end_date_exclusive } => AgendaGroup::EmptyRange {
                start_date: *start_date,
                end_date_exclusive: *end_date_exclusive,
            },
        }
    }
}

/// Whether a day has events.
pub open spec fn has_events(day: DayView) -> bool {
    day.all_day.len() > 0 || day.timed.len() > 0
}

/// Days without events from one date to another, where there are any.
pub open spec fn empty_part(start: Option<Date>, end: Date) -> Seq<GroupView> {
    match start {
        Some(start_date) => seq![GroupView::EmptyRange { start_date, end_date_exclusive: end }],
        None => seq![],
    }
}

/// The groups of days up to an end; `empty` is where the days without events before them began.
pub open spec fn groups_of(days: Seq<DayView>, empty: Option<Date>, end: Date) -> Seq<GroupView>
    decreases days.len(),
{
    if days.len() == 0 {
        empty_part(empty, end)
    } else if has_events(days[0]) {
        empty_part(empty, days[0].date) + seq![GroupView::EventDay(days[0])] + groups_of(
            days.drop_first(),
            None,
            end,
        )
    } else {
        groups_of(
            days.drop_first(),
            if empty is Some {
                empty
            } else {
                Some(days[0].date)
            },
            end,
        )
    }
}

/// The groups of days up to an end.
pub fn agenda_groups(days: &Vec<DayProjection>, end_date_exclusive: &Date) -> (r: Vec<AgendaGroup>)
    ensures
        lists::views_of(r@) == groups_of(lists::views_of(days@), None, *end_date_exclusive),
{
    let ghost all = lists::views_of(days@);
    let ghost whole = groups_of(all, None, *end_date_exclusive);
    let mut groups: Vec<AgendaGroup> = Vec::new();
    let mut empty: Option<Date> = None;
    assert(all.skip(0) =~= all);
    assert(lists::views_of(groups@) + whole =~= whole);
    for i in 0..days.len()
        invariant
            all == lists::views_of(days@),
            whole == groups_of(all, None, *end_date_exclusive),
            whole == lists::views_of(groups@) + groups_of(
                all.skip(i as int),
                empty,
                *end_date_exclusive,
            ),
    {
        let ghost before = lists::views_of(groups@);
        let ghost was_empty = empty;
        let day = &days[i];
        proof {
            assert(all.skip(i as int)[0] == day@);
            assert(all.skip(i as int).drop_first() =~= all.skip(i + 1));
            assert(lists::views_of(day.all_day@).len() == day.all_day@.len());
            assert(lists::views_of(day.timed@).len() == day.timed@.len());
        }
        if day.all_day.len() > 0 || day.timed.len() > 0 {
            if let Some(start_date) = empty {
                groups.push(AgendaGroup::EmptyRange { start_date, end_date_exclusive: day.date });
            }
            groups.push(AgendaGroup::EventDay(day.clone()));
            empty = None;
            proof {
                let rest = groups_of(all.skip(i + 1), None, *end_date_exclusive);
                let part = empty_part(was_empty, day@.date);
                assert(lists::views_of(groups@) =~= before + part + seq![GroupView::EventDay(day@)]);
                assert(before + (part + seq![GroupView::EventDay(day@)] + rest) =~= before + part
                    + seq![GroupView::EventDay(day@)] + rest);
            }
        } else if empty.is_none() {
            empty = Some(day.date);
        }
    }
    let ghost before = lists::views_of(groups@);
    assert(all.skip(all.len() as int).len() == 0);
    if let Some(start_date) = empty {
        groups.push(AgendaGroup::EmptyRange { start_date, end_date_exclusive: *end_date_exclusive });
    }
    assert(lists::views_of(groups@) =~= before + empty_part(empty, *end_date_exclusive));
    groups
}

/// The days from a date to the end of its week of which only the first is shown without events.
pub open spec fn is_agenda_day(active_date: int) -> spec_fn(DayView) -> bool {
    |day: DayView| day.date@ >= active_date && (day.date@ == active_date || has_events(day))
}

/// The days of a week that an agenda shows.
pub fn keep_agenda_days(week: &Vec<DayProjection>, active_date: &Date) -> (r: Vec<DayProjection>)
    ensures
        lists::views_of(r@) == lists::views_of(week@).filter(is_agenda_day(active_date@)),
{
    let ghost all = lists::views_of(week@);
    let ghost keep = is_agenda_day(active_date@);
    let mut out: Vec<DayProjection> = Vec::new();
    proof {
        reveal(Seq::filter);
        assert(lists::views_of(out@) =~= all.take(0).filter(keep));
    }
    for i in 0..week.len()
        invariant
            all == lists::views_of(week@),
            keep == is_agenda_day(active_date@),
            lists::views_of(out@) == all.take(i as int).filter(keep),
    {
        let ghost before = out@;
        let day = &week[i];
        proof {
            lists::lemma_views_take(week@, i as int);
            crate::lines::lemma_filter_push(all.take(i as int), all[i as int], keep);
            assert(lists::views_of(day.all_day@).len() == day.all_day@.len());
            assert(lists::views_of(day.timed@).len() == day.timed@.len());
        }
        if !day.date.before(active_date) && (day.date.same(active_date) || day.all_day.len() > 0
            || day.timed.len() > 0) {
            let copy = day.clone();
            out.push(copy);
            proof {
                lists::lemma_views_push(before, copy);
            }
        }
    }
    proof {
        lists::lemma_views_all(week@);
    }
    out
}

// ---------------------------------------------------------------------------------------------
// Projections
// ---------------------------------------------------------------------------------------------

/// Events, by the clocks of the viewer, on the six-week grid of a month.
pub fn project_month(year: i32, month: u32, calendars: &Vec<Calendar>, events: Vec<LocalEvent>) -> (r: Vec<
    DayProjection,
>)
    requires
        has_grid(year, month),
    ensures
        exists|days: Seq<Day>|
            is_month(days, year, month) && lists::views_of(r@) == #[trigger] projected(
                days,
                model::calendar_views(calendars@),
                lists::views_of(events@),
            ),
{
    let days = month_days(year, month);
    project_projected_events(&days, calendars, events)
}

/// Events, by the clocks of the viewer, on the Monday-first week of a day.
pub fn project_week(active_date: &Date, calendars: &Vec<Calendar>, events: Vec<LocalEvent>) -> (r: Vec<
    DayProjection,
>)
    requires
        has_week(active_date@),
    ensures
        exists|days: Seq<Day>|
            days.len() == 7 && are_days_from(days, monday_of(active_date@)) && lists::views_of(r@)
                == #[trigger] projected(
                days,
                model::calendar_views(calendars@),
                lists::views_of(events@),
            ),
{
    let days = week_days(active_date);
    project_projected_events(&days, calendars, events)
}

/// Events, by the clocks of the viewer, from a day to the end of its Monday-first week. The day
/// itself is kept without events, later days are not.
pub fn project_agenda(active_date: &Date, calendars: &Vec<Calendar>, events: Vec<LocalEvent>) -> (r: Vec<
    DayProjection,
>)
    requires
        has_week(active_date@),
    ensures
        exists|days: Seq<Day>|
            days.len() == 7 && are_days_from(days, monday_of(active_date@)) && lists::views_of(r@)
                == #[trigger] projected(
                days,
                model::calendar_views(calendars@),
                lists::views_of(events@),
            ).filter(is_agenda_day(active_date@)),
{
    let week = project_week(active_date, calendars, events);
    keep_agenda_days(&week, active_date)
}

/// The groups of events on the days from one date to another.
pub open spec fn range_groups(
    start: Date,
    end: Date,
    days: Seq<Day>,
    calendars: Seq<CalendarView>,
    events: Seq<LocalView>,
) -> Seq<GroupView> {
    if start@ < end@ {
        groups_of(projected(days, calendars, events), None, end)
    } else {
        seq![]
    }
}

/// Events, by the clocks of the viewer, on the days from one date to another, in groups.
pub fn project_agenda_range(
    start_date: &Date,
    end_date_exclusive: &Date,
    calendars: &Vec<Calendar>,
    events: Vec<LocalEvent>,
) -> (r: Vec<AgendaGroup>)
    ensures
        exists|days: Seq<Day>|
            is_range(days, start_date@, end_date_exclusive@) && lists::views_of(r@)
                == #[trigger] range_groups(
                *start_date,
                *end_date_exclusive,
                days,
                model::calendar_views(calendars@),
                lists::views_of(events@),
            ),
{
    let days = range_days(start_date, end_date_exclusive);
    let ghost colours = model::calendar_views(calendars@);
    let ghost shown = lists::views_of(events@);
    assert(is_range(days@, start_date@, end_date_exclusive@));
    if !start_date.before(end_date_exclusive) {
        let none: Vec<AgendaGroup> = Vec::new();
        assert(lists::views_of(none@) =~= range_groups(
            *start_date,
            *end_date_exclusive,
            days@,
            colours,
            shown,
        ));
        return none;
    }
    let projection = project_projected_events(&days, calendars, events);
    let r = agenda_groups(&projection, end_date_exclusive);
    assert(lists::views_of(r@) == range_groups(
        *start_date,
        *end_date_exclusive,
        days@,
        colours,
        shown,
    ));
    r
}

/// Whether a list is that of the days from one to another.
pub open spec fn is_range(days: Seq<Day>, start: int, end: int) -> bool {
    &&& days.len() == (if start < end {
        end - start
    } else {
        0
    })
    &&& are_days_from(days, start)
}

/// Events on the grid of a month, by given clocks.
pub fn project_month_in_timezone(
    year: i32,
    month: u32,
    calendars: &Vec<Calendar>,
    events: &Vec<Event>,
    viewer: &ViewerZone,
) -> (r: Vec<DayProjection>)
    requires
        has_grid(year, month),
    ensures
        exists|days: Seq<Day>, shown: Seq<ProjectedView>|
            is_month(days, year, month) && #[trigger] expansion::are_shown(
                shown,
                expansion::plain_masters(model::event_views(events@)),
                days[0].0@,
                days[41].0@,
            ) && lists::views_of(r@) == #[trigger] projected(
                days,
                model::calendar_views(calendars@),
                localized(*viewer, shown),
            ),
{
    let days = month_days(year, month);
    let shown = expansion::expand_events(events, &days[0].0, &days[41].0);
    let local = localize_events(viewer, &shown);
    project_projected_events(&days, calendars, local)
}

/// Events with the changes of their occurrences on the grid of a month, by given clocks.
pub fn project_month_with_detached_events_in_timezone(
    year: i32,
    month: u32,
    calendars: &Vec<Calendar>,
    events: &Vec<MasterEvent>,
    viewer: &ViewerZone,
) -> (r: Vec<DayProjection>)
    requires
        has_grid(year, month),
    ensures
        exists|days: Seq<Day>, shown: Seq<ProjectedView>|
            is_month(days, year, month) && #[trigger] expansion::are_shown(
                shown,
                lists::views_of(events@),
                days[0].0@,
                days[41].0@,
            ) && lists::views_of(r@) == #[trigger] projected(
                days,
                model::calendar_views(calendars@),
                localized(*viewer, shown),
            ),
{
    let days = month_days(year, month);
    let shown = expansion::expand_events_with_detached(events, &days[0].0, &days[41].0);
    let local = localize_events(viewer, &shown);
    project_projected_events(&days, calendars, local)
}

/// Whether a list is what events show on the Monday-first week of a day, by given clocks.
pub open spec fn is_week_of(
    week: Seq<DayView>,
    active_date: int,
    calendars: Seq<CalendarView>,
    events: Seq<EventView>,
    viewer: ViewerZone,
) -> bool {
    exists|days: Seq<Day>, shown: Seq<ProjectedView>|
        days.len() == 7 && are_days_from(days, monday_of(active_date))
            && #[trigger] expansion::are_shown(
            shown,
            expansion::plain_masters(events),
            monday_of(active_date),
            monday_of(active_date) + 6,
        ) && week == #[trigger] projected(days, calendars, localized(viewer, shown))
}

/// Whether a list is what events show from a day to the end of its Monday-first week, by given
/// clocks: that day, and those of the later days that show something.
pub open spec fn is_agenda_of(
    agenda: Seq<DayView>,
    active_date: int,
    calendars: Seq<CalendarView>,
    events: Seq<EventView>,
    viewer: ViewerZone,
) -> bool {
    exists|week: Seq<DayView>|
        #[trigger] is_week_of(week, active_date, calendars, events, viewer) && agenda == week.filter(
            is_agenda_day(active_date),
        )
}

/// Events on the Monday-first week of a day, by given clocks.
pub fn project_week_in_timezone(
    active_date: &Date,
    calendars: &Vec<Calendar>,
    events: &Vec<Event>,
    viewer: &ViewerZone,
) -> (r: Vec<DayProjection>)
    requires
        has_week(active_date@),
    ensures
        is_week_of(
            lists::views_of(r@),
            active_date@,
            model::calendar_views(calendars@),
            model::event_views(events@),
            *viewer,
        ),
{
    let days = week_days(active_date);
    let shown = expansion::expand_events(events, &days[0].0, &days[6].0);
    let local = localize_events(viewer, &shown);
    project_projected_events(&days, calendars, local)
}

/// Events with the changes of their occurrences on the Monday-first week of a day, by given clocks.
pub fn project_week_with_detached_events_in_timezone(
    active_date: &Date,
    calendars: &Vec<Calendar>,
    events: &Vec<MasterEvent>,
    viewer: &ViewerZone,
) -> (r: Vec<DayProjection>)
    requires
        has_week(active_date@),
    ensures
        exists|days: Seq<Day>, shown: Seq<ProjectedView>|
            days.len() == 7 && are_days_from(days, monday_of(active_date@))
                && #[trigger] expansion::are_shown(
                shown,
                lists::views_of(events@),
                days[0].0@,
                days[6].0@,
            ) && lists::views_of(r@) == #[trigger] projected(
                days,
                model::calendar_views(calendars@),
                localized(*viewer, shown),
            ),
{
    let days = week_days(active_date);
    let shown = expansion::expand_events_with_detached(events, &days[0].0, &days[6].0);
    let local = localize_events(viewer, &shown);
    project_projected_events(&days, calendars, local)
}

/// Events from a day to the end of its Monday-first week, by given clocks.
pub fn project_agenda_in_timezone(
    active_date: &Date,
    calendars: &Vec<Calendar>,
    events: &Vec<Event>,
    viewer: &ViewerZone,
) -> (r: Vec<DayProjection>)
    requires
        has_week(active_date@),
    ensures
        is_agenda_of(
            lists::views_of(r@),
            active_date@,
            model::calendar_views(calendars@),
            model::event_views(events@),
            *viewer,
        ),
{
    let week = project_week_in_timezone(active_date, calendars, events, viewer);
    let ghost shown = lists::views_of(week@);
    assert(is_week_of(
        shown,
        active_date@,
        model::calendar_views(calendars@),
        model::event_views(events@),
        *viewer,
    ));
    keep_agenda_days(&week, active_date)
}

/// Events on the days from one date to another, in groups, by given clocks.
pub fn project_agenda_range_in_timezone(
    start_date: &Date,
    end_date_exclusive: &Date,
    calendars: &Vec<Calendar>,
    events: &Vec<Event>,
    viewer: &ViewerZone,
) -> (r: Vec<AgendaGroup>)
    ensures
        start_date@ >= end_date_exclusive@ ==> r@.len() == 0,
        start_date@ < end_date_exclusive@ ==> exists|days: Seq<Day>, shown: Seq<ProjectedView>|
            is_range(days, start_date@, end_date_exclusive@) && #[trigger] expansion::are_shown(
                shown,
                expansion::plain_masters(model::event_views(events@)),
                start_date@,
                end_date_exclusive@ - 1,
            ) && lists::views_of(r@) == #[trigger] range_groups(
                *start_date,
                *end_date_exclusive,
                days,
                model::calendar_views(calendars@),
                localized(*viewer, shown),
            ),
{
    if start_date.days() >= end_date_exclusive.days() {
        return Vec::new();
    }
    let last = match end_date_exclusive.plus_days(-1) {
        Some(last) => last,
        None => {
            return Vec::new();
        },
    };
    let shown = expansion::expand_events(events, start_date, &last);
    let ghost views = lists::views_of(shown@);
    let local = localize_events(viewer, &shown);
    let r = project_agenda_range(start_date, end_date_exclusive, calendars, local);
    proof {
        let colours = model::calendar_views(calendars@);
        let days = choose|days: Seq<Day>|
            is_range(days, start_date@, end_date_exclusive@) && lists::views_of(r@)
                == #[trigger] range_groups(
                *start_date,
                *end_date_exclusive,
                days,
                colours,
                localized(*viewer, views),
            );
        assert(expansion::are_shown(
            views,
            expansion::plain_masters(model::event_views(events@)),
            start_date@,
            end_date_exclusive@ - 1,
        ));
        assert(lists::views_of(r@) == range_groups(
            *start_date,
            *end_date_exclusive,
            days,
            colours,
            localized(*viewer, views),
        ));
    }
    r
}

/// Events with the changes of their occurrences on the days from one date to another, in groups, by
/// given clocks.
pub fn project_agenda_range_with_detached_events_in_timezone(
    start_date: &Date,
    end_date_exclusive: &Date,
    calendars: &Vec<Calendar>,
    events: &Vec<MasterEvent>,
    viewer: &ViewerZone,
) -> (r: Vec<AgendaGroup>)
    ensures
        start_date@ >= end_date_exclusive@ ==> r@.len() == 0,
        start_date@ < end_date_exclusive@ ==> exists|days: Seq<Day>, shown: Seq<ProjectedView>|
            is_range(days, start_date@, end_date_exclusive@) && #[trigger] expansion::are_shown(
                shown,
                lists::views_of(events@),
                start_date@,
                end_date_exclusive@ - 1,
            ) && lists::views_of(r@) == #[trigger] range_groups(
                *start_date,
                *end_date_exclusive,
                days,
                model::calendar_views(calendars@),
                localized(*viewer, shown),
            ),
{
    if start_date.days() >= end_date_exclusive.days() {
        return Vec::new();
    }
    let last = match end_date_exclusive.plus_days(-1) {
        Some(last) => last,
        None => {
            return Vec::new();
        },
    };
    let shown = expansion::expand_events_with_detached(events, start_date, &last);
    let ghost views = lists::views_of(shown@);
    let local = localize_events(viewer, &shown);
    let r = project_agenda_range(start_date, end_date_exclusive, calendars, local);
    proof {
        let colours = model::calendar_views(calendars@);
        let days = choose|days: Seq<Day>|
            is_range(days, start_date@, end_date_exclusive@) && lists::views_of(r@)
                == #[trigger] range_groups(
                *start_date,
                *end_date_exclusive,
                days,
                colours,
                localized(*viewer, views),
            );
        assert(expansion::are_shown(
            views,
            lists::views_of(events@),
            start_date@,
            end_date_exclusive@ - 1,
        ));
        assert(lists::views_of(r@) == range_groups(
            *start_date,
            *end_date_exclusive,
            days,
            colours,
            localized(*viewer, views),
        ));
    }
    r
}

// ---------------------------------------------------------------------------------------------
// Laws
// ---------------------------------------------------------------------------------------------

/// A day shows exactly the chips of the events of visible calendars that touch it.
pub proof fn law_day_shows_what_touches_it(
    events: Seq<LocalView>,
    calendars: Seq<CalendarView>,
    day: int,
    all_day: bool,
    chip: ChipView,
)
    ensures
        chips_on(events, calendars, day, all_day).contains(chip) <==> exists|i: int|
            0 <= i < events.len() && chip_on(#[trigger] events[i], calendars, day, all_day) == Some(
                chip,
            ),
    decreases events.len(),
{
    if events.len() > 0 {
        let earlier = events.drop_last();
        law_day_shows_what_touches_it(earlier, calendars, day, all_day, chip);
        let before = chips_on(earlier, calendars, day, all_day);
        let after = chips_on(events, calendars, day, all_day);
        if after.contains(chip) {
            let k = choose|k: int| 0 <= k < after.len() && after[k] == chip;
            if k < before.len() {
                assert(before[k] == chip);
                assert(before.contains(chip));
                let i = choose|i: int|
                    0 <= i < earlier.len() && chip_on(
                        #[trigger] earlier[i],
                        calendars,
                        day,
                        all_day,
                    ) == Some(chip);
                assert(events[i] == earlier[i]);
            } else {
                assert(events[events.len() - 1] == events.last());
            }
        }
        if exists|i: int|
            0 <= i < events.len() && chip_on(#[trigger] events[i], calendars, day, all_day) == Some(
                chip,
            ) {
            let i = choose|i: int|
                0 <= i < events.len() && chip_on(#[trigger] events[i], calendars, day, all_day)
                    == Some(chip);
            if i < earlier.len() {
                assert(earlier[i] == events[i]);
                assert(before.contains(chip));
                let k = choose|k: int| 0 <= k < before.len() && before[k] == chip;
                assert(after[k] == chip);
            } else {
                assert(after[after.len() - 1] == chip);
            }
        }
    }
}

/// Events are shown in the order of their starts, whatever the order in which they come.
pub proof fn law_shown_in_order(events: Seq<LocalView>)
    ensures
        sorting::is_sorted(sorting::sorted(events, by_start()), by_start()),
        sorting::sorted(events, by_start()).to_multiset() == events.to_multiset(),
{
    assert(sorting::is_order(by_start()));
    sorting::law_sorted(events, by_start());
}

/// The first day of a group.
pub open spec fn group_start(group: GroupView) -> int {
    match group {
        GroupView::EventDay(day) => day.date@,
        GroupView::EmptyRange { start_date, .. } => start_date@,
    }
}

/// The first day after a group.
pub open spec fn group_end(group: GroupView) -> int {
    match group {
        GroupView::EventDay(day) => day.date@ + 1,
        GroupView::EmptyRange { end_date_exclusive, .. } => end_date_exclusive@,
    }
}

/// Whether groups follow one another from one day to another: each begins where the one before it
/// ends, none is empty of days, and no two without events meet.
pub open spec fn follow(groups: Seq<GroupView>, start: int, end: int) -> bool
    decreases groups.len(),
{
    if groups.len() == 0 {
        start == end
    } else {
        &&& group_start(groups[0]) == start
        &&& start < group_end(groups[0])
        &&& groups[0] is EmptyRange && groups.len() > 1 ==> groups[1] is EventDay
        &&& follow(groups.drop_first(), group_end(groups[0]), end)
    }
}

/// Whether days follow one another.
pub open spec fn are_consecutive(days: Seq<DayView>, first: int) -> bool {
    forall|i: int| 0 <= i < days.len() ==> (#[trigger] days[i]).date@ == first + i
}

/// The groups of consecutive days follow one another without a gap from the first day to the end,
/// and days without events are taken together.
pub proof fn law_groups_cover_the_days(days: Seq<DayView>, first: int, end: Date)
    requires
        are_consecutive(days, first),
        end@ == first + days.len(),
    ensures
        follow(groups_of(days, None, end), first, end@),
{
    lemma_groups_follow(days, None, first, end);
}

proof fn lemma_groups_follow(days: Seq<DayView>, empty: Option<Date>, first: int, end: Date)
    requires
        are_consecutive(days, first),
        end@ == first + days.len(),
        empty matches Some(start) ==> start@ < first,
    ensures
        empty matches Some(start) ==> follow(groups_of(days, empty, end), start@, end@) && groups_of(
            days,
            empty,
            end,
        ).len() > 0 && groups_of(days, empty, end)[0] is EmptyRange && (groups_of(days, empty, end).len()
            > 1 ==> groups_of(days, empty, end)[1] is EventDay),
        empty is None ==> follow(groups_of(days, empty, end), first, end@),
    decreases days.len(),
{
    let out = groups_of(days, empty, end);
    if days.len() == 0 {
        if let Some(start) = empty {
            assert(out[0] == GroupView::EmptyRange { start_date: start, end_date_exclusive: end });
            assert(out.drop_first() =~= seq![]);
            assert(follow(out.drop_first(), end@, end@));
        }
    } else {
        let rest = days.drop_first();
        assert forall|i: int| 0 <= i < rest.len() implies (#[trigger] rest[i]).date@ == first + 1 + i by {
            assert(rest[i] == days[i + 1]);
        }
        assert(days[0].date@ == first);
        if has_events(days[0]) {
            lemma_groups_follow(rest, None, first + 1, end);
            let tail = groups_of(rest, None, end);
            let day = GroupView::EventDay(days[0]);
            assert((seq![day] + tail).drop_first() =~= tail);
            assert(follow(seq![day] + tail, first, end@));
            if let Some(start) = empty {
                let gap = GroupView::EmptyRange {
                    start_date: start,
                    end_date_exclusive: days[0].date,
                };
                assert(out =~= seq![gap] + (seq![day] + tail));
                assert(out.drop_first() =~= seq![day] + tail);
                assert(out[1] == day);
            } else {
                assert(out =~= seq![day] + tail);
            }
        } else {
            lemma_groups_follow(
                rest,
                if empty is Some {
                    empty
                } else {
                    Some(days[0].date)
                },
                first + 1,
                end,
            );
        }
    }
}

/// Whether the recurrence of every event says of each of its times which zone it is in.
pub open spec fn are_zoned(events: Seq<EventView>) -> bool {
    forall|i: int| 0 <= i < events.len() ==> expansion::is_zoned_event(#[trigger] events[i])
}

/// Whether an agenda is part of a week: it is the days of the week, in order, that are a day or come
/// later and show something. Its first day is that day, even an empty one, and no later day that
/// shows something is missing.
pub open spec fn is_part_of(agenda: Seq<DayView>, week: Seq<DayView>, active_date: int) -> bool {
    &&& agenda == week.filter(is_agenda_day(active_date))
    &&& agenda.len() > 0
    &&& agenda[0].date@ == active_date
    &&& forall|i: int|
        0 <= i < week.len() && week[i].date@ > active_date && has_events(#[trigger] week[i])
            ==> agenda.contains(week[i])
}

/// Whatever the clocks of the machine, the agenda of a day is part of a week that the events show by
/// those clocks.
pub proof fn law_agenda_is_part_of_a_week(
    agenda: Seq<DayView>,
    active_date: int,
    calendars: Seq<CalendarView>,
    events: Seq<EventView>,
    viewer: ViewerZone,
)
    requires
        is_agenda_of(agenda, active_date, calendars, events, viewer),
    ensures
        exists|week: Seq<DayView>|
            #[trigger] is_week_of(week, active_date, calendars, events, viewer) && is_part_of(
                agenda,
                week,
                active_date,
            ),
{
    let week = choose|week: Seq<DayView>|
        #[trigger] is_week_of(week, active_date, calendars, events, viewer) && agenda == week.filter(
            is_agenda_day(active_date),
        );
    lemma_listed_days_are_part(agenda, week, active_date, calendars, events, viewer);
}

/// The agenda of a day is part of its week, where the recurrences of the events say of each time
/// which zone it is in.
pub proof fn law_agenda_is_part_of_the_week(
    week: Seq<DayView>,
    agenda: Seq<DayView>,
    active_date: int,
    calendars: Seq<CalendarView>,
    events: Seq<EventView>,
    viewer: ViewerZone,
)
    requires
        are_zoned(events),
        is_week_of(week, active_date, calendars, events, viewer),
        is_agenda_of(agenda, active_date, calendars, events, viewer),
    ensures
        is_part_of(agenda, week, active_date),
{
    let same = choose|same: Seq<DayView>|
        #[trigger] is_week_of(same, active_date, calendars, events, viewer) && agenda == same.filter(
            is_agenda_day(active_date),
        );
    lemma_week_is_determined(week, same, active_date, calendars, events, viewer);
    lemma_listed_days_are_part(agenda, week, active_date, calendars, events, viewer);
}

proof fn lemma_listed_days_are_part(
    agenda: Seq<DayView>,
    week: Seq<DayView>,
    active_date: int,
    calendars: Seq<CalendarView>,
    events: Seq<EventView>,
    viewer: ViewerZone,
)
    requires
        is_week_of(week, active_date, calendars, events, viewer),
        agenda == week.filter(is_agenda_day(active_date)),
    ensures
        is_part_of(agenda, week, active_date),
{
    let kept = is_agenda_day(active_date);
    let at = date::weekday_of(active_date);
    lemma_week_days(week, active_date, calendars, events, viewer);
    assert(kept(week[at]));
    lemma_first_kept(week, kept, at);
    assert forall|i: int|
        0 <= i < week.len() && week[i].date@ > active_date && has_events(#[trigger] week[i]) implies agenda.contains(
        week[i],
    ) by {
        assert(kept(week[i]));
        lemma_kept_is_there(week, kept, i);
    }
}

proof fn lemma_week_days(
    week: Seq<DayView>,
    active_date: int,
    calendars: Seq<CalendarView>,
    events: Seq<EventView>,
    viewer: ViewerZone,
)
    requires
        is_week_of(week, active_date, calendars, events, viewer),
    ensures
        week.len() == 7,
        forall|i: int| 0 <= i < 7 ==> (#[trigger] week[i]).date@ == monday_of(active_date) + i,
{
    let (days, shown) = choose|days: Seq<Day>, shown: Seq<ProjectedView>|
        days.len() == 7 && are_days_from(days, monday_of(active_date))
            && #[trigger] expansion::are_shown(
            shown,
            expansion::plain_masters(events),
            monday_of(active_date),
            monday_of(active_date) + 6,
        ) && week == #[trigger] projected(days, calendars, localized(viewer, shown));
    assert forall|i: int| 0 <= i < 7 implies (#[trigger] week[i]).date@ == monday_of(active_date)
        + i by {
        assert(days[i].0@ == monday_of(active_date) + i);
    }
}

/// What zoned events show on a week is determined.
proof fn lemma_week_is_determined(
    a: Seq<DayView>,
    b: Seq<DayView>,
    active_date: int,
    calendars: Seq<CalendarView>,
    events: Seq<EventView>,
    viewer: ViewerZone,
)
    requires
        are_zoned(events),
        is_week_of(a, active_date, calendars, events, viewer),
        is_week_of(b, active_date, calendars, events, viewer),
    ensures
        a == b,
{
    let first = monday_of(active_date);
    let masters = expansion::plain_masters(events);
    let (days, shown) = choose|days: Seq<Day>, shown: Seq<ProjectedView>|
        days.len() == 7 && are_days_from(days, first) && #[trigger] expansion::are_shown(
            shown,
            masters,
            first,
            first + 6,
        ) && a == #[trigger] projected(days, calendars, localized(viewer, shown));
    let (others, also) = choose|days: Seq<Day>, shown: Seq<ProjectedView>|
        days.len() == 7 && are_days_from(days, first) && #[trigger] expansion::are_shown(
            shown,
            masters,
            first,
            first + 6,
        ) && b == #[trigger] projected(days, calendars, localized(viewer, shown));
    assert forall|i: int| 0 <= i < masters.len() implies expansion::is_zoned_event(
        (#[trigger] masters[i]).0,
    ) && masters[i].1.len() == 0 by {
        assert(expansion::is_zoned_event(events[i]));
    }
    expansion::lemma_shown_is_determined(shown, also, masters, first, first + 6);
    assert forall|i: int| 0 <= i < 7 implies #[trigger] days[i] == others[i] by {
        assert(days[i].0@ == first + i && others[i].0@ == first + i);
        date::lemma_date_of_day(days[i].0);
        date::lemma_date_of_day(others[i].0);
    }
    assert(days =~= others);
}

proof fn lemma_first_kept<A>(s: Seq<A>, p: spec_fn(A) -> bool, k: int)
    requires
        0 <= k < s.len(),
        p(s[k]),
        forall|i: int| 0 <= i < k ==> !p(#[trigger] s[i]),
    ensures
        s.filter(p).len() > 0,
        s.filter(p)[0] == s[k],
    decreases s.len(),
{
    reveal(Seq::filter);
    let before = s.drop_last();
    if k < s.len() - 1 {
        assert forall|i: int| 0 <= i < k implies !p(#[trigger] before[i]) by {
            assert(!p(s[i]));
        }
        lemma_first_kept(before, p, k);
    } else {
        assert forall|i: int| 0 <= i < before.len() implies !p(#[trigger] before[i]) by {
            assert(!p(s[i]));
        }
        lemma_none_kept(before, p);
    }
}

proof fn lemma_none_kept<A>(s: Seq<A>, p: spec_fn(A) -> bool)
    requires
        forall|i: int| 0 <= i < s.len() ==> !p(#[trigger] s[i]),
    ensures
        s.filter(p).len() == 0,
    decreases s.len(),
{
    reveal(Seq::filter);
    if s.len() > 0 {
        let before = s.drop_last();
        assert forall|i: int| 0 <= i < before.len() implies !p(#[trigger] before[i]) by {
            assert(!p(s[i]));
        }
        lemma_none_kept(before, p);
        assert(!p(s[s.len() - 1]));
    }
}

proof fn lemma_kept_is_there<A>(s: Seq<A>, p: spec_fn(A) -> bool, k: int)
    requires
        0 <= k < s.len(),
        p(s[k]),
    ensures
        s.filter(p).contains(s[k]),
    decreases s.len(),
{
    reveal(Seq::filter);
    let before = s.drop_last();
    let kept = s.filter(p);
    if k < s.len() - 1 {
        lemma_kept_is_there(before, p, k);
        let n = choose|n: int| 0 <= n < before.filter(p).len() && before.filter(p)[n] == s[k];
        assert(kept[n] == s[k]);
    } else {
        assert(kept[kept.len() - 1] == s[k]);
    }
}

// ---------------------------------------------------------------------------------------------
// Laws of the days
// ---------------------------------------------------------------------------------------------

/// An event touches a day where some of its time lies in it: by the clocks of the viewer it starts
/// before the day ends, and ends after the day begins. One on whole days touches those from its first
/// up to the one before its end. An event that does not run forward touches none.
pub proof fn law_event_touches_the_days_of_its_time(local: ViewerLocalSchedule, day: int)
    requires
        local matches ViewerLocalSchedule::Timed { start, end } ==> start@.valid() && end@.valid()
            && date::is_day(end@.local_day() - 1),
    ensures
        local matches ViewerLocalSchedule::AllDay { start_date, end_date_exclusive } ==> (touches(
            local,
            day,
        ) <==> start_date@ <= day < end_date_exclusive@),
        local matches ViewerLocalSchedule::Timed { start, end } ==> (touches(local, day) <==> start@.before(
            end@,
        ) && start@.seconds + start@.offset < (day + 1 - 719163) * 86400 && (end@.seconds + end@.offset
            > (day - 719163) * 86400 || (end@.seconds + end@.offset == (day - 719163) * 86400
            && end@.nanos > 0))),
{
    if let ViewerLocalSchedule::Timed { start, end } = local {
        date::lemma_local_day_in_range(start@);
        date::lemma_local_day_in_range(end@);
    }
}

/// The clocks of a viewer show an instant under their offset; the instant stays the same.
pub proof fn law_viewer_sees_the_same_instant(viewer: ViewerZone, v: DateTimeView)
    ensures
        shown_by(viewer, v).seconds == v.seconds,
        shown_by(viewer, v).nanos == v.nanos,
        viewer matches ViewerZone::Offset(offset) ==> -86400 < offset < 86400 ==> shown_by(
            viewer,
            v,
        ).offset == offset,
        viewer matches ViewerZone::Named(name) ==> zone::zone_known(name@) ==> shown_by(viewer, v)
            == zone::shown_in(v, name@),
{
}

/// An event as a viewer sees it has the days that it has, or the instants that it has under the clocks
/// of the viewer.
pub proof fn law_local_schedule_keeps_the_event(viewer: ViewerZone, schedule: ScheduleView)
    requires
        schedule matches ScheduleView::Timed { start, end, .. } ==> shown_by(viewer, start@).valid()
            && shown_by(viewer, end@).valid(),
    ensures
        match (schedule, local_schedule(viewer, schedule)) {
            (
                ScheduleView::AllDay { start_date, end_date_exclusive },
                ViewerLocalSchedule::AllDay { start_date: first, end_date_exclusive: after },
            ) => first == start_date && after == end_date_exclusive,
            (
                ScheduleView::Timed { start, end, .. },
                ViewerLocalSchedule::Timed { start: from, end: to },
            ) => from@ == shown_by(viewer, start@) && to@ == shown_by(viewer, end@),
            _ => false,
        },
{
    if let ScheduleView::Timed { start, end, .. } = schedule {
        date::lemma_date_time_of(shown_by(viewer, start@));
        date::lemma_date_time_of(shown_by(viewer, end@));
    }
}

/// The calendar of an event is looked up among the visible ones; there is none exactly where no
/// visible calendar has its identifier.
pub proof fn law_visible_calendars(calendars: Seq<CalendarView>, id: Uuid)
    ensures
        visible_calendar(calendars, id) matches Some(calendar) ==> calendar.visible && calendar.id == id
            && calendars.contains(calendar),
        visible_calendar(calendars, id) is None ==> forall|i: int|
            0 <= i < calendars.len() ==> !((#[trigger] calendars[i]).visible && calendars[i].id == id),
    decreases calendars.len(),
{
    if calendars.len() > 0 {
        let before = calendars.drop_last();
        law_visible_calendars(before, id);
        assert(calendars[calendars.len() - 1] == calendars.last());
        if calendars.last().visible && calendars.last().id == id {
        } else if let Some(calendar) = visible_calendar(before, id) {
            let k = choose|k: int| 0 <= k < before.len() && before[k] == calendar;
            assert(calendars[k] == calendar);
        } else {
            assert forall|i: int| 0 <= i < calendars.len() implies !((#[trigger] calendars[i]).visible
                && calendars[i].id == id) by {
                if i < before.len() {
                    assert(before[i] == calendars[i]);
                }
            }
        }
    }
}

/// A day shows an event exactly where the event touches it and its calendar is visible: among the
/// whole days or among those with times, as it is, with its title, the colour of its calendar, the
/// time of day at which it starts for the viewer, and its end.
pub proof fn law_what_a_day_shows_of_an_event(
    event: LocalView,
    calendars: Seq<CalendarView>,
    day: int,
    all_day: bool,
)
    ensures
        chip_on(event, calendars, day, all_day) is Some <==> touches(event.local, day) && (event.local
            is AllDay <==> all_day) && exists|i: int|
            0 <= i < calendars.len() && (#[trigger] calendars[i]).visible && calendars[i].id
                == event.event.calendar_id,
        chip_on(event, calendars, day, all_day) matches Some(chip) ==> {
            &&& chip.event_id == event.event.id && chip.title == event.event.title
            &&& chip.calendar_id == event.event.calendar_id
            &&& exists|i: int|
                0 <= i < calendars.len() && (#[trigger] calendars[i]).visible && calendars[i].id
                    == event.event.calendar_id && chip.color == calendars[i].color
            &&& chip.is_all_day == all_day
            &&& chip.identity == event.identity
            &&& chip.viewer_local_schedule == event.local
            &&& match event.local {
                ViewerLocalSchedule::Timed { start, end } => chip.start_time matches Some(time)
                    && time.seconds == (start@.seconds + start@.offset) % 86400 && (0 <= start@.nanos
                    < 2000000000 ==> time.nanos == start@.nanos) && chip.viewer_local_end
                    == ViewerLocalEnd::Timed(end),
                ViewerLocalSchedule::AllDay { end_date_exclusive, .. } => chip.start_time is None
                    && chip.viewer_local_end == ViewerLocalEnd::AllDay(end_date_exclusive),
            }
        },
{
    law_visible_calendars(calendars, event.event.calendar_id);
    if let Some(calendar) = visible_calendar(calendars, event.event.calendar_id) {
        let i = choose|i: int| 0 <= i < calendars.len() && calendars[i] == calendar;
        assert(calendars[i].visible && calendars[i].id == event.event.calendar_id);
    }
}

/// Each of different days shows exactly what touches it: its whole days and its times are the chips of
/// the events that do.
pub proof fn law_projected_day_shows_what_touches_it(
    days: Seq<Day>,
    calendars: Seq<CalendarView>,
    events: Seq<LocalView>,
    i: int,
    chip: ChipView,
)
    requires
        0 <= i < days.len(),
        forall|a: int, b: int|
            0 <= a < b < days.len() ==> (#[trigger] days[a]).0@ != (#[trigger] days[b]).0@,
    ensures
        projected(days, calendars, events).len() == days.len(),
        projected(days, calendars, events)[i].date == days[i].0,
        projected(days, calendars, events)[i].in_displayed_month == days[i].1,
        projected(days, calendars, events)[i].all_day.contains(chip) <==> exists|k: int|
            0 <= k < events.len() && chip_on(#[trigger] events[k], calendars, days[i].0@, true) == Some(
                chip,
            ),
        projected(days, calendars, events)[i].timed.contains(chip) <==> exists|k: int|
            0 <= k < events.len() && chip_on(#[trigger] events[k], calendars, days[i].0@, false) == Some(
                chip,
            ),
{
    let ordered = sorting::sorted(events, by_start());
    assert(is_first(days, i)) by {
        assert forall|k: int| 0 <= k < i implies (#[trigger] days[k]).0@ != days[i].0@ by {
            assert(days[k].0@ != days[i].0@);
        }
    }
    law_shown_in_order(events);
    law_day_shows_what_touches_it(ordered, calendars, days[i].0@, true, chip);
    law_day_shows_what_touches_it(ordered, calendars, days[i].0@, false, chip);
    lemma_sorted_holds(events);
    lemma_chip_side(events, calendars, days[i].0@, true, chip);
    lemma_chip_side(events, calendars, days[i].0@, false, chip);
}

proof fn lemma_chip_side(
    events: Seq<LocalView>,
    calendars: Seq<CalendarView>,
    day: int,
    all_day: bool,
    chip: ChipView,
)
    ensures
        chip_side(events, calendars, day, all_day, chip) == chip_side(
            sorting::sorted(events, by_start()),
            calendars,
            day,
            all_day,
            chip,
        ),
{
    let ordered = sorting::sorted(events, by_start());
    lemma_sorted_holds(events);
    if chip_side(events, calendars, day, all_day, chip) {
        let k = choose|k: int|
            0 <= k < events.len() && chip_on(#[trigger] events[k], calendars, day, all_day) == Some(chip);
        assert(ordered.contains(events[k]));
        let n = choose|n: int| 0 <= n < ordered.len() && ordered[n] == events[k];
        assert(chip_on(ordered[n], calendars, day, all_day) == Some(chip));
    }
    if chip_side(ordered, calendars, day, all_day, chip) {
        let k = choose|k: int|
            0 <= k < ordered.len() && chip_on(#[trigger] ordered[k], calendars, day, all_day) == Some(
                chip,
            );
        assert(ordered.contains(ordered[k]));
        let n = choose|n: int| 0 <= n < events.len() && events[n] == ordered[k];
        assert(chip_on(events[n], calendars, day, all_day) == Some(chip));
    }
}

/// Whether one of a list of events is shown as a chip.
spec fn chip_side(
    events: Seq<LocalView>,
    calendars: Seq<CalendarView>,
    day: int,
    all_day: bool,
    chip: ChipView,
) -> bool {
    exists|k: int| 0 <= k < events.len() && chip_on(#[trigger] events[k], calendars, day, all_day) == Some(chip)
}

proof fn lemma_sorted_holds(events: Seq<LocalView>)
    ensures
        forall|x: LocalView|
            #![trigger sorting::sorted(events, by_start()).contains(x)]
            #![trigger events.contains(x)]
            sorting::sorted(events, by_start()).contains(x) <==> events.contains(x),
{
    sorting::law_sorted(events, by_start());
}

/// Events are shown whole days first, then by their start, and those with one start by their
/// identifiers.
pub proof fn law_order_of_events(a: LocalView, b: LocalView)
    ensures
        a.event.schedule is AllDay && b.event.schedule is Timed ==> (by_start())(a, b) && !(by_start())(
            b,
            a,
        ),
        a.event.schedule is AllDay && b.event.schedule is AllDay ==> !(by_start())(a, b),
        a.event.schedule matches ScheduleView::Timed { start: first, .. } ==> b.event.schedule matches ScheduleView::Timed {
            start: second,
            ..
        } ==> {
            &&& first@.before(second@) ==> (by_start())(a, b)
            &&& second@.before(first@) ==> !(by_start())(a, b)
            &&& first@.same_instant(second@) ==> ((by_start())(a, b) <==> a.event.id < b.event.id)
        },
{
}

/// An event with an end is over once that instant has passed; one on whole days once the clocks of the
/// viewer show later than midnight after its last day.
pub proof fn law_ended_events(end: ViewerLocalEnd, now: DateTimeView)
    requires
        now.valid(),
    ensures
        end matches ViewerLocalEnd::Timed(at) ==> (EventChip::ended_before(end, now) <==> at@.before(
            now,
        )),
        end matches ViewerLocalEnd::AllDay(day) ==> (EventChip::ended_before(end, now) <==> now.seconds
            + now.offset > (day@ - 719163) * 86400 || (now.seconds + now.offset == (day@ - 719163)
            * 86400 && now.nanos > 0)),
{
    date::lemma_local_day_in_range(now);
}

/// A week begins on the Monday at or before a day. Day 1 is a Monday.
pub proof fn law_week_begins_on_monday(day: int)
    ensures
        monday_of(day) % 7 == 1,
        monday_of(day) <= day <= monday_of(day) + 6,
{
}

/// The groups of an agenda show every day that has events, and only such days; what is between them is
/// shown as ranges.
pub proof fn law_groups_show_the_days_with_events(
    days: Seq<DayView>,
    empty: Option<Date>,
    end: Date,
    day: DayView,
)
    ensures
        groups_of(days, empty, end).contains(GroupView::EventDay(day)) <==> days.contains(day) && (
        day.all_day.len() > 0 || day.timed.len() > 0),
    decreases days.len(),
{
    let wanted = GroupView::EventDay(day);
    let out = groups_of(days, empty, end);
    if days.len() == 0 {
        assert(!out.contains(wanted)) by {
            if out.contains(wanted) {
                let k = choose|k: int| 0 <= k < out.len() && out[k] == wanted;
            }
        }
    } else {
        let rest = days.drop_first();
        let next = if has_events(days[0]) {
            None
        } else if empty is Some {
            empty
        } else {
            Some(days[0].date)
        };
        law_groups_show_the_days_with_events(rest, next, end, day);
        let tail = groups_of(rest, next, end);
        let head: Seq<GroupView> = if has_events(days[0]) {
            empty_part(empty, days[0].date) + seq![GroupView::EventDay(days[0])]
        } else {
            seq![]
        };
        assert(out =~= head + tail);
        if out.contains(wanted) {
            let k = choose|k: int| 0 <= k < out.len() && out[k] == wanted;
            if k < head.len() {
                assert(head[k] == wanted);
                assert(day == days[0]);
                assert(days.contains(days[0]));
            } else {
                assert(tail[k - head.len()] == wanted);
                assert(tail.contains(wanted));
                let n = choose|n: int| 0 <= n < rest.len() && rest[n] == day;
                assert(days[n + 1] == day);
            }
        }
        if days.contains(day) && has_events(day) {
            let n = choose|n: int| 0 <= n < days.len() && days[n] == day;
            if n == 0 {
                assert(out[head.len() - 1] == wanted);
            } else {
                assert(rest[n - 1] == day);
                assert(tail.contains(wanted));
                let k = choose|k: int| 0 <= k < tail.len() && tail[k] == wanted;
                assert(out[head.len() + k] == wanted);
            }
        }
    }
}

/// The agenda of a week shows the chosen day, and the later ones that have events.
pub proof fn law_days_of_the_agenda(active_date: int, day: DayView)
    ensures
        day.date@ < active_date ==> !(is_agenda_day(active_date))(day),
        day.date@ == active_date ==> (is_agenda_day(active_date))(day),
        day.date@ > active_date ==> ((is_agenda_day(active_date))(day) <==> day.all_day.len() > 0
            || day.timed.len() > 0),
{
}

/// The days of a month are six weeks from a Monday on, and hold all the days of the month; those of
/// other months are marked as such.
pub proof fn law_days_of_a_month(days: Seq<Day>, year: i32, month: u32, day: int)
    requires
        1 <= month <= 12,
        is_month(days, year, month),
        1 <= day <= date::month_length(year as int, month as int),
    ensures
        days.len() == 42,
        date::weekday_of(days[0].0@) == 0,
        forall|i: int|
            0 <= i < 42 ==> (#[trigger] days[i]).0@ == days[0].0@ + i && (days[i].1 <==> date::civil_of(
                days[i].0@,
            ).0 == year && date::civil_of(days[i].0@).1 == month),
        exists|i: int|
            0 <= i < 42 && (#[trigger] days[i]).0@ == date::day_number(year as int, month as int, day),
{
    let first = date::day_number(year as int, month as int, 1);
    let at = date::weekday_of(first) + day - 1;
    assert(days[0].0@ == calendar_grid::grid_start(year as int, month as int));
    assert(date::day_number(year as int, month as int, day) == first + day - 1);
    assert(date::month_length(year as int, month as int) <= 31);
    assert(days[at].0@ == calendar_grid::grid_start(year as int, month as int) + at);
}

/// A range of days has as many as lie between its ends, one after the other, and its groups are those of
/// its days; one whose end is not after its start is empty.
pub proof fn law_days_of_a_range(
    days: Seq<Day>,
    start: Date,
    end: Date,
    calendars: Seq<CalendarView>,
    events: Seq<LocalView>,
)
    requires
        is_range(days, start@, end@),
    ensures
        start@ >= end@ ==> days.len() == 0 && range_groups(start, end, days, calendars, events).len() == 0,
        start@ < end@ ==> days.len() == end@ - start@ && days[0].0@ == start@ && days.last().0@ == end@ - 1,
        start@ < end@ ==> range_groups(start, end, days, calendars, events) == groups_of(
            projected(days, calendars, events),
            None,
            end,
        ),
{
}

/// What is shown keeps its event and its identity, at the time that the viewer sees.
pub proof fn law_what_the_viewer_sees(viewer: ViewerZone, list: Seq<ProjectedView>, i: int)
    requires
        0 <= i < list.len(),
    ensures
        localized(viewer, list).len() == list.len(),
        localized(viewer, list)[i].event == list[i].event,
        localized(viewer, list)[i].identity == list[i].identity,
        localized(viewer, list)[i].local == local_schedule(viewer, list[i].event.schedule),
{
}

} // verus!
