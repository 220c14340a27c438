//! When reminders of events are due.
use vstd::prelude::*;

use crate::backend::occurrences;
use crate::date;
use crate::date::{Date, DateTime, DateTimeView, Span};
use crate::formats;
use crate::lists;
use crate::model;
use crate::model::{Event, EventSchedule, EventView, RecurrenceSpec, RecurrenceView, ReminderSpec, ReminderView, ScheduleView, Uuid};
use crate::rules;
use crate::sorting;
use crate::sorting::Ranked;
use crate::text;
use crate::zone;

verus! {

/// The most occurrences that are looked at.
pub const RECURRENCE_LIMIT: u16 = u16::MAX;

/// A reminder that is due.
#[derive(Debug)]
pub struct ReminderOccurrence {
    pub event_id: Uuid,
    pub occurrence_start: DateTime,
    pub trigger_at: DateTime,
    pub description: String,
}

/// The values of a [`ReminderOccurrence`].
pub struct DueView {
    pub event_id: Uuid,
    pub occurrence_start: DateTime,
    pub trigger_at: DateTime,
    pub description: Seq<char>,
}

impl View for ReminderOccurrence {
    type V = DueView;

    open spec fn view(&self) -> DueView {
        DueView {
            event_id: self.event_id,
            occurrence_start: self.occurrence_start,
            trigger_at: self.trigger_at,
            description: self.description@,
        }
    }
}

/// The order of due reminders: by the instant at which they are due, then by the start of their
/// occurrence.
pub open spec fn by_trigger() -> spec_fn(DueView, DueView) -> bool {
    |a: DueView, b: DueView|
        a.trigger_at@.before(b.trigger_at@) || (a.trigger_at@.same_instant(b.trigger_at@)
            && a.occurrence_start@.before(b.occurrence_start@))
}

impl Ranked for ReminderOccurrence {
    open spec fn order() -> spec_fn(DueView, DueView) -> bool {
        by_trigger()
    }

    fn comes_before(&self, other: &ReminderOccurrence) -> (r: bool) {
        self.trigger_at.before(&other.trigger_at) || (self.trigger_at.same_instant(&other.trigger_at)
            && self.occurrence_start.before(&other.occurrence_start))
    }
}

// ---------------------------------------------------------------------------------------------
// Instants
// ---------------------------------------------------------------------------------------------

/// The instant a number of seconds later, where it is representable.
pub open spec fn shifted(instant: DateTime, seconds: int) -> Option<DateTime> {
    if -date::MAX_SPAN_SECONDS <= seconds <= date::MAX_SPAN_SECONDS {
        date::later(instant, Span { seconds: seconds as i64, nanos: 0 })
    } else {
        None
    }
}

/// Whether an instant lies a number of seconds before another, under the same offset.
pub open spec fn is_seconds_before(v: DateTimeView, other: DateTimeView, seconds: int) -> bool {
    v.seconds == other.seconds - seconds && v.nanos == other.nanos && v.offset == other.offset
}

/// A reminder some seconds before an instant that is not in a leap second falls on the instant whose
/// seconds are that many less, under the same offset, exactly where that is a representable instant.
pub proof fn law_reminder_falls_seconds_before(instant: DateTime, seconds: int)
    requires
        instant@.valid(),
        instant@.nanos < date::SECOND_NANOS,
    ensures
        shifted(instant, -seconds) is Some <==> (DateTimeView {
            seconds: instant@.seconds - seconds,
            ..instant@
        }).valid(),
        shifted(instant, -seconds) matches Some(earlier) ==> is_seconds_before(
            earlier@,
            instant@,
            seconds,
        ),
{
    if -date::MAX_SPAN_SECONDS <= -seconds <= date::MAX_SPAN_SECONDS {
        date::lemma_later(instant, Span { seconds: (-seconds) as i64, nanos: 0 });
    }
}

/// The instant a number of seconds later.
fn shift(instant: &DateTime, seconds: i64) -> (r: Option<DateTime>)
    ensures
        r == shifted(*instant, seconds as int),
{
    if seconds < -date::MAX_SPAN_SECONDS || seconds > date::MAX_SPAN_SECONDS {
        return None;
    }
    instant.plus(Span { seconds, nanos: 0 })
}

/// Midnight of a day under an offset.
pub open spec fn midnight(day: int, offset: int) -> DateTimeView {
    DateTimeView { seconds: date::day_start(day) - offset, nanos: 0, offset }
}

/// Midnight of a day under an offset, where it is representable.
fn midnight_at(day: &Date, offset: i32) -> (r: Option<DateTime>)
    requires
        date::is_offset(offset as int),
    ensures
        match r {
            Some(instant) => instant@ == midnight(day@, offset as int) && instant@.valid(),
            None => !midnight(day@, offset as int).valid(),
        },
{
    let days: i64 = day.days() as i64;
    DateTime::new((days - date::EPOCH_DAY) * date::DAY_SECONDS - offset as i64, 0, offset)
}

// ---------------------------------------------------------------------------------------------
// Occurrences
// ---------------------------------------------------------------------------------------------

/// Whether a reminder comes before the start.
pub open spec fn is_early() -> spec_fn(ReminderView) -> bool {
    |reminder: ReminderView| reminder.seconds_before_start > 0
}

/// The reminders that come before the start.
pub open spec fn early(reminders: Seq<ReminderView>) -> Seq<ReminderView> {
    reminders.filter(is_early())
}

/// The start of an event, where its schedule runs forward: whole days begin at midnight under an
/// offset.
pub open spec fn event_start(schedule: ScheduleView, offset: int) -> Option<DateTimeView> {
    if !schedule.runs_forward() {
        None
    } else {
        match schedule {
            ScheduleView::Timed { start, .. } => Some(start@),
            ScheduleView::AllDay { start_date, .. } => if midnight(start_date@, offset).valid() {
                Some(midnight(start_date@, offset))
            } else {
                None
            },
        }
    }
}

/// The smallest number of seconds of a list of reminders.
pub open spec fn least(reminders: Seq<ReminderView>) -> int
    decreases reminders.len(),
{
    if reminders.len() <= 1 {
        reminders[0].seconds_before_start as int
    } else {
        let rest = least(reminders.drop_last());
        let last = reminders.last().seconds_before_start as int;
        if last < rest {
            last
        } else {
            rest
        }
    }
}

/// The greatest number of seconds of a list of reminders.
pub open spec fn greatest(reminders: Seq<ReminderView>) -> int
    decreases reminders.len(),
{
    if reminders.len() <= 1 {
        reminders[0].seconds_before_start as int
    } else {
        let rest = greatest(reminders.drop_last());
        let last = reminders.last().seconds_before_start as int;
        if last > rest {
            last
        } else {
            rest
        }
    }
}

/// One nanosecond.
pub open spec fn one_nanosecond() -> Span {
    Span { seconds: 0, nanos: 1 }
}

/// The bounds between which an occurrence starts that has a reminder due after `start` and no later
/// than `end`: both outside.
pub open spec fn bounds(reminders: Seq<ReminderView>, start: DateTime, end: DateTime) -> Option<
    (DateTime, DateTime),
> {
    match (shifted(start, least(reminders)), shifted(end, greatest(reminders))) {
        (Some(lower), Some(last)) => match date::later(last, one_nanosecond()) {
            Some(upper) => Some((lower, upper)),
            None => None,
        },
        _ => None,
    }
}

/// What is asked of a recurrence: its text, and the instants between which occurrences are wanted.
pub struct Query {
    pub source: String,
    pub after: DateTime,
    pub before: DateTime,
}

/// The values of a [`Query`].
pub struct QueryView {
    pub source: Seq<char>,
    pub after: DateTimeView,
    pub before: DateTimeView,
}

impl View for Query {
    type V = QueryView;

    open spec fn view(&self) -> QueryView {
        QueryView { source: self.source@, after: self.after@, before: self.before@ }
    }
}

/// The text of the recurrence of an event: whole days are written as such.
pub open spec fn recurrence_source(schedule: ScheduleView, recurrence: RecurrenceView) -> Option<
    Seq<char>,
> {
    match schedule {
        ScheduleView::Timed { start, timezone, .. } => match occurrences::timed_start_line(
            start@,
            timezone,
        ) {
            Some(line) => Some(occurrences::source_text(line, recurrence)),
            None => None,
        },
        ScheduleView::AllDay { start_date, .. } => Some(
            occurrences::source_text(
                "DTSTART;VALUE=DATE:"@ + formats::compact_date(start_date@),
                recurrence,
            ),
        ),
    }
}

/// What is asked of the recurrence of an event. Occurrences on whole days are found at midnight in
/// UTC of the days that the bounds touch under an offset.
pub open spec fn query_of(
    schedule: ScheduleView,
    recurrence: RecurrenceView,
    reminders: Seq<ReminderView>,
    start: DateTime,
    end: DateTime,
) -> Option<QueryView> {
    match (recurrence_source(schedule, recurrence), bounds(reminders, start, end)) {
        (Some(source), Some((lower, upper))) => match schedule {
            ScheduleView::Timed { .. } => Some(
                QueryView { source, after: lower@, before: upper@ },
            ),
            ScheduleView::AllDay { start_date, .. } => {
                let first = midnight(lower@.local_day(), 0);
                let last = midnight(upper@.at_offset(start@.offset).local_day() + 1, 0);
                if first.valid() && last.valid() && midnight(start_date@, 0).valid() {
                    Some(QueryView { source, after: first, before: last })
                } else {
                    None
                }
            },
        },
        _ => None,
    }
}

/// What a recurrence gives between two instants, with what it leaves out.
pub struct Expansion {
    pub dates: Vec<DateTime>,
    pub excluded: Vec<DateTime>,
}

/// The values of an [`Expansion`].
pub struct ExpansionView {
    pub dates: Seq<DateTimeView>,
    pub excluded: Seq<DateTimeView>,
}

impl View for Expansion {
    type V = ExpansionView;

    open spec fn view(&self) -> ExpansionView {
        ExpansionView {
            dates: lists::views_of(self.dates@),
            excluded: lists::views_of(self.excluded@),
        }
    }
}

/// A start as the clocks of its zone show it.
pub open spec fn start_in_zone(start: DateTimeView, timezone: Option<Seq<char>>) -> DateTimeView {
    match timezone {
        Some(name) => zone::shown_in(start, name),
        None => start.at_offset(0),
    }
}

/// Whether an instant lies between two bounds, both outside.
pub open spec fn is_inside(instant: DateTimeView, lower: DateTimeView, upper: DateTimeView) -> bool {
    lower.before(instant) && instant.before(upper)
}

/// The starts of the occurrences of an event with a start and an end, by what its recurrence gives.
/// The start itself is an occurrence, unless it is left out.
pub open spec fn timed_starts(
    start: DateTimeView,
    timezone: Option<Seq<char>>,
    lower: DateTimeView,
    upper: DateTimeView,
    found: ExpansionView,
) -> Seq<DateTimeView> {
    let all = if !occurrences::some_at_second(found.excluded, start.seconds) && is_inside(
        start,
        lower,
        upper,
    ) {
        found.dates.push(start_in_zone(start, timezone))
    } else {
        found.dates
    };
    sorting::deduplicated(sorting::sorted(all, sorting::by_instant()), sorting::one_instant())
}

/// The days of the occurrences of an event on whole days, by what its recurrence gives.
pub open spec fn occurrence_days(
    day: int,
    offset: int,
    lower: DateTimeView,
    upper: DateTimeView,
    found: ExpansionView,
) -> Seq<DateTimeView> {
    let all = if !occurrences::some_falls_on(found.excluded, day) && is_inside(
        midnight(day, offset),
        lower,
        upper,
    ) {
        found.dates.push(midnight(day, 0))
    } else {
        found.dates
    };
    sorting::deduplicated(sorting::sorted(all, sorting::by_instant()), sorting::one_day())
}

/// Midnights under an offset of the days on which instants fall; none where one is not
/// representable.
pub open spec fn midnights(days: Seq<DateTimeView>, offset: int) -> Option<Seq<DateTimeView>>
    decreases days.len(),
{
    if days.len() == 0 {
        Some(seq![])
    } else {
        match midnights(days.drop_last(), offset) {
            Some(before) => if midnight(days.last().local_day(), offset).valid() {
                Some(before.push(midnight(days.last().local_day(), offset)))
            } else {
                None
            },
            None => None,
        }
    }
}

/// The starts of the occurrences of an event, by what its recurrence gives.
pub open spec fn occurrence_starts(
    event: EventView,
    start: DateTime,
    end: DateTime,
    found: Option<ExpansionView>,
) -> Option<Seq<DateTimeView>> {
    match event_start(event.schedule, start@.offset) {
        None => None,
        Some(first) => match event.recurrence {
            None => Some(seq![first]),
            Some(recurrence) => match (
                query_of(event.schedule, recurrence, early(event.reminders), start, end),
                bounds(early(event.reminders), start, end),
                found,
            ) {
                (Some(_), Some((lower, upper)), Some(found)) => match event.schedule {
                    ScheduleView::Timed { timezone, .. } => Some(
                        timed_starts(first, timezone, lower@, upper@, found),
                    ),
                    ScheduleView::AllDay { start_date, .. } => midnights(
                        occurrence_days(
                            start_date@,
                            start@.offset,
                            lower@,
                            upper@,
                            found,
                        ),
                        start@.offset,
                    ),
                },
                _ => None,
            },
        },
    }
}

/// Whether an instant lies after `start` and no later than `end`.
pub open spec fn in_window(instant: DateTimeView, start: DateTimeView, end: DateTimeView) -> bool {
    start.before(instant) && !end.before(instant)
}

/// The reminders of one occurrence that are due in a window.
pub open spec fn due_at(
    event_id: Uuid,
    occurrence: DateTime,
    reminders: Seq<ReminderView>,
    start: DateTimeView,
    end: DateTimeView,
) -> Seq<DueView>
    decreases reminders.len(),
{
    if reminders.len() == 0 {
        seq![]
    } else {
        let before = due_at(event_id, occurrence, reminders.drop_last(), start, end);
        let reminder = reminders.last();
        match shifted(occurrence, -reminder.seconds_before_start) {
            Some(trigger_at) => if in_window(trigger_at@, start, end) {
                before.push(
                    DueView {
                        event_id,
                        occurrence_start: occurrence,
                        trigger_at,
                        description: reminder.description,
                    },
                )
            } else {
                before
            },
            None => before,
        }
    }
}

/// The reminders of occurrences that are due in a window.
pub open spec fn due_of(
    event_id: Uuid,
    starts: Seq<DateTimeView>,
    reminders: Seq<ReminderView>,
    start: DateTimeView,
    end: DateTimeView,
) -> Seq<DueView>
    decreases starts.len(),
{
    if starts.len() == 0 {
        seq![]
    } else {
        due_of(event_id, starts.drop_last(), reminders, start, end) + due_at(
            event_id,
            date::date_time_of(starts.last()),
            reminders,
            start,
            end,
        )
    }
}

/// The reminders of an event that are due in a window, by what its recurrence gives.
pub open spec fn due_reminders(
    event: EventView,
    start: DateTime,
    end: DateTime,
    found: Option<ExpansionView>,
) -> Seq<DueView> {
    let reminders = early(event.reminders);
    if !start@.before(end@) || reminders.len() == 0 {
        seq![]
    } else {
        match occurrence_starts(event, start, end, found) {
            None => seq![],
            Some(starts) => sorting::sorted(
                due_of(event.id, starts, reminders, start@, end@),
                by_trigger(),
            ),
        }
    }
}

/// The reminders that come before the start.
fn early_reminders(reminders: &Vec<ReminderSpec>) -> (r: Vec<ReminderSpec>)
    ensures
        model::reminder_views(r@) == early(model::reminder_views(reminders@)),
{
    let ghost views = model::reminder_views(reminders@);
    let mut out: Vec<ReminderSpec> = Vec::new();
    proof {
        reveal(Seq::filter);
        assert(model::reminder_views(out@) =~= views.take(0).filter(is_early()));
    }
    for i in 0..reminders.len()
        invariant
            views == model::reminder_views(reminders@),
            model::reminder_views(out@) == views.take(i as int).filter(is_early()),
    {
        let ghost before = out@;
        proof {
            assert(views.take(i + 1) =~= views.take(i as int).push(views[i as int]));
            crate::lines::lemma_filter_push(views.take(i as int), views[i as int], is_early());
        }
        if reminders[i].seconds_before_start > 0 {
            let reminder = reminders[i].clone();
            out.push(reminder);
            assert(model::reminder_views(out@) =~= model::reminder_views(before).push(reminder@));
        }
    }
    assert(views.take(views.len() as int) =~= views);
    out
}

/// The smallest and the greatest number of seconds of a list of reminders.
fn extremes(reminders: &Vec<ReminderSpec>) -> (r: (i64, i64))
    requires
        reminders@.len() > 0,
    ensures
        r.0 == least(model::reminder_views(reminders@)),
        r.1 == greatest(model::reminder_views(reminders@)),
{
    let ghost views = model::reminder_views(reminders@);
    let mut low: i64 = reminders[0].seconds_before_start;
    let mut high: i64 = reminders[0].seconds_before_start;
    for i in 1..reminders.len()
        invariant
            reminders@.len() > 0,
            views == model::reminder_views(reminders@),
            low == least(views.take(i as int)),
            high == greatest(views.take(i as int)),
    {
        assert(views.take(i + 1).drop_last() =~= views.take(i as int));
        let seconds = reminders[i].seconds_before_start;
        if seconds < low {
            low = seconds;
        }
        if seconds > high {
            high = seconds;
        }
    }
    assert(views.take(views.len() as int) =~= views);
    (low, high)
}

/// The bounds between which an occurrence with a due reminder starts.
fn make_bounds(reminders: &Vec<ReminderSpec>, start: &DateTime, end: &DateTime) -> (r: Option<
    (DateTime, DateTime),
>)
    requires
        reminders@.len() > 0,
    ensures
        r == bounds(model::reminder_views(reminders@), *start, *end),
{
    let (low, high): (i64, i64) = extremes(reminders);
    match (shift(start, low), shift(end, high)) {
        (Some(lower), Some(last)) => match last.plus(Span { seconds: 0, nanos: 1 }) {
            Some(upper) => Some((lower, upper)),
            None => None,
        },
        _ => None,
    }
}

/// The text of the recurrence of an event.
fn make_recurrence_source(schedule: &EventSchedule, recurrence: &RecurrenceSpec) -> (r: Option<String>)
    ensures
        model::text_view(r) == recurrence_source(schedule@, recurrence@),
{
    match schedule {
        EventSchedule::Timed { start, timezone, .. } => match occurrences::make_timed_start_line(
            start,
            timezone,
        ) {
            Some(line) => Some(occurrences::make_source(line, recurrence)),
            None => None,
        },
        EventSchedule::AllDay { start_date, .. } => {
            let line = text::joined(
                "DTSTART;VALUE=DATE:",
                formats::compact_date_text(start_date).as_str(),
            );
            Some(occurrences::make_source(line, recurrence))
        },
    }
}

/// What is asked of the recurrence of an event.
pub fn make_query(
    schedule: &EventSchedule,
    recurrence: &RecurrenceSpec,
    reminders: &Vec<ReminderSpec>,
    start: &DateTime,
    end: &DateTime,
) -> (r: Option<Query>)
    requires
        reminders@.len() > 0,
    ensures
        lists::view_of(r) == query_of(
            schedule@,
            recurrence@,
            model::reminder_views(reminders@),
            *start,
            *end,
        ),
{
    let source = match make_recurrence_source(schedule, recurrence) {
        Some(source) => source,
        None => {
            return None;
        },
    };
    let (lower, upper): (DateTime, DateTime) = match make_bounds(reminders, start, end) {
        Some(bounds) => bounds,
        None => {
            return None;
        },
    };
    match schedule {
        EventSchedule::Timed { .. } => Some(Query { source, after: lower, before: upper }),
        EventSchedule::AllDay { start_date, .. } => {
            let offset = start.offset();
            let last_day = upper.with_offset(offset).local_date();
            let first = midnight_at(&lower.local_date(), 0);
            let last = match last_day.succ_opt() {
                Some(day) => midnight_at(&day, 0),
                None => None,
            };
            proof {
                lemma_last_midnight(last_day@ + 1);
            }
            match (first, last, midnight_at(start_date, 0)) {
                (Some(after), Some(before), Some(_)) => Some(Query { source, after, before }),
                _ => None,
            }
        },
    }
}

/// A day whose midnight is representable is representable.
proof fn lemma_last_midnight(day: int)
    ensures
        midnight(day, 0).valid() ==> date::is_day(day),
{
    if midnight(day, 0).valid() {
        assert(date::day_of_second(date::day_start(day)) == day) by (nonlinear_arith)
            requires
                date::day_start(day) == (day - date::EPOCH_DAY) * date::DAY_SECONDS,
                date::day_of_second(date::day_start(day)) == date::day_start(day) / (
                date::DAY_SECONDS as int) + date::EPOCH_DAY,
                date::DAY_SECONDS == 86400,
        ;
    }
}

/// A start as the clocks of its zone show it; none where the zone is not known.
fn show_start(start: &DateTime, timezone: &Option<String>) -> (r: Option<DateTime>)
    ensures
        match r {
            Some(shown) => shown@ == start_in_zone(start@, model::text_view(*timezone)),
            None => timezone matches Some(name) && !zone::zone_known(name@),
        },
{
    match timezone {
        Some(name) => zone::in_zone(start, name.as_str()),
        None => Some(start.with_offset(0)),
    }
}

/// Whether some instant is in a second.
fn is_some_at_second(instants: &Vec<DateTime>, seconds: i64) -> (r: bool)
    ensures
        r == occurrences::some_at_second(lists::views_of(instants@), seconds as int),
{
    let ghost views = lists::views_of(instants@);
    for i in 0..instants.len()
        invariant
            views == lists::views_of(instants@),
            forall|k: int| 0 <= k < i ==> (#[trigger] views[k]).seconds != seconds,
    {
        if instants[i].timestamp() == seconds {
            assert(views[i as int].seconds == seconds);
            return true;
        }
    }
    false
}

/// Whether some instant falls on a local day.
fn is_some_on_day(instants: &Vec<DateTime>, day: &Date) -> (r: bool)
    ensures
        r == occurrences::some_falls_on(lists::views_of(instants@), day@),
{
    let ghost views = lists::views_of(instants@);
    for i in 0..instants.len()
        invariant
            views == lists::views_of(instants@),
            forall|k: int| 0 <= k < i ==> (#[trigger] views[k]).local_day() != day@,
    {
        if instants[i].local_date().same(day) {
            assert(views[i as int].local_day() == day@);
            return true;
        }
    }
    false
}

/// A copy of a list of instants.
fn copy_instants(instants: &Vec<DateTime>) -> (r: Vec<DateTime>)
    ensures
        lists::views_of(r@) == lists::views_of(instants@),
{
    let mut out: Vec<DateTime> = Vec::new();
    for i in 0..instants.len()
        invariant
            out@.len() == i,
            forall|k: int| 0 <= k < i ==> #[trigger] out@[k] == instants@[k],
    {
        out.push(instants[i]);
    }
    assert(lists::views_of(out@) =~= lists::views_of(instants@));
    out
}

/// The starts of the occurrences of an event with a start and an end.
fn expand_recurrence(
    start: &DateTime,
    shown: &DateTime,
    lower: &DateTime,
    upper: &DateTime,
    found: &Expansion,
    Ghost(timezone): Ghost<Option<Seq<char>>>,
) -> (r: Vec<DateTime>)
    requires
        shown@ == start_in_zone(start@, timezone),
    ensures
        lists::views_of(r@) == timed_starts(start@, timezone, lower@, upper@, found@),
{
    let mut dates = copy_instants(&found.dates);
    let ghost before = dates@;
    if !is_some_at_second(&found.excluded, start.timestamp()) && lower.before(start) && start.before(
        upper,
    ) {
        dates.push(*shown);
        proof {
            lists::lemma_views_push(before, *shown);
        }
    }
    sorting::without_same_instants(&sorting::sort(dates))
}

/// The values of an optional list of instants.
pub open spec fn instants_view(r: Option<Vec<DateTime>>) -> Option<Seq<DateTimeView>> {
    match r {
        Some(instants) => Some(lists::views_of(instants@)),
        None => None,
    }
}

/// A day that fails makes the whole list fail.
proof fn lemma_midnights_fail(days: Seq<DateTimeView>, offset: int, n: int)
    requires
        0 <= n <= days.len(),
        midnights(days.take(n), offset) is None,
    ensures
        midnights(days, offset) is None,
    decreases days.len(),
{
    if n == days.len() {
        assert(days.take(n) =~= days);
    } else {
        assert(days.drop_last().take(n) =~= days.take(n));
        lemma_midnights_fail(days.drop_last(), offset, n);
    }
}

/// Midnights under an offset of the days on which instants fall.
fn make_midnights(days: &Vec<DateTime>, offset: i32) -> (r: Option<Vec<DateTime>>)
    requires
        date::is_offset(offset as int),
    ensures
        instants_view(r) == midnights(lists::views_of(days@), offset as int),
{
    let ghost all = lists::views_of(days@);
    let mut out: Vec<DateTime> = Vec::new();
    assert(lists::views_of(out@) =~= seq![]);
    assert(midnights(all.take(0), offset as int) == Some(lists::views_of(out@)));
    for i in 0..days.len()
        invariant
            date::is_offset(offset as int),
            all == lists::views_of(days@),
            midnights(all.take(i as int), offset as int) == Some(lists::views_of(out@)),
    {
        let ghost before = out@;
        proof {
            lists::lemma_views_take(days@, i as int);
        }
        match midnight_at(&days[i].local_date(), offset) {
            Some(instant) => {
                out.push(instant);
                proof {
                    lists::lemma_views_push(before, instant);
                }
            },
            None => {
                proof {
                    lemma_midnights_fail(all, offset as int, i + 1);
                }
                return None;
            },
        }
    }
    proof {
        lists::lemma_views_all(days@);
    }
    Some(out)
}

/// The starts of the occurrences of an event on whole days.
fn expand_all_day_recurrence(
    day: &Date,
    first: &DateTime,
    utc_start: &DateTime,
    lower: &DateTime,
    upper: &DateTime,
    found: &Expansion,
) -> (r: Option<Vec<DateTime>>)
    requires
        first@ == midnight(day@, first@.offset),
        utc_start@ == midnight(day@, 0),
    ensures
        instants_view(r) == midnights(
            occurrence_days(day@, first@.offset, lower@, upper@, found@),
            first@.offset,
        ),
{
    let offset = first.offset();
    let mut dates = copy_instants(&found.dates);
    let ghost before = dates@;
    if !is_some_on_day(&found.excluded, day) && lower.before(first) && first.before(upper) {
        dates.push(*utc_start);
        proof {
            lists::lemma_views_push(before, *utc_start);
        }
    }
    let days = sorting::without_same_days(&sorting::sort(dates));
    make_midnights(&days, offset)
}

/// The start of an event.
fn make_event_start(schedule: &EventSchedule, offset: i32) -> (r: Option<DateTime>)
    requires
        date::is_offset(offset as int),
    ensures
        lists::view_of(r) == event_start(schedule@, offset as int),
{
    if !schedule.runs_forward() {
        return None;
    }
    match schedule {
        EventSchedule::Timed { start, .. } => Some(*start),
        EventSchedule::AllDay { start_date, .. } => midnight_at(start_date, offset),
    }
}

/// The starts of the occurrences of an event, by what its recurrence gives.
fn make_occurrence_starts(
    event: &Event,
    reminders: &Vec<ReminderSpec>,
    start: &DateTime,
    end: &DateTime,
    found: &Option<Expansion>,
) -> (r: Option<Vec<DateTime>>)
    requires
        reminders@.len() > 0,
        model::reminder_views(reminders@) == early(event@.reminders),
    ensures
        instants_view(r) == occurrence_starts(event@, *start, *end, lists::view_of(*found)),
{
    let offset = start.offset();
    let first = match make_event_start(&event.schedule, offset) {
        Some(first) => first,
        None => {
            return None;
        },
    };
    let recurrence = match &event.recurrence {
        Some(recurrence) => recurrence,
        None => {
            let mut out: Vec<DateTime> = Vec::new();
            out.push(first);
            assert(lists::views_of(out@) =~= seq![first@]);
            return Some(out);
        },
    };
    if make_query(&event.schedule, recurrence, reminders, start, end).is_none() {
        return None;
    }
    let (lower, upper): (DateTime, DateTime) = match make_bounds(reminders, start, end) {
        Some(bounds) => bounds,
        None => {
            return None;
        },
    };
    let found = match found {
        Some(found) => found,
        None => {
            return None;
        },
    };
    match &event.schedule {
        EventSchedule::Timed { timezone, .. } => {
            let shown = match show_start(&first, timezone) {
                Some(shown) => shown,
                None => {
                    return None;
                },
            };
            let ghost name = model::text_view(*timezone);
            Some(expand_recurrence(&first, &shown, &lower, &upper, found, Ghost(name)))
        },
        EventSchedule::AllDay { start_date, .. } => {
            let utc_start = match midnight_at(start_date, 0) {
                Some(utc_start) => utc_start,
                None => {
                    return None;
                },
            };
            expand_all_day_recurrence(start_date, &first, &utc_start, &lower, &upper, found)
        },
    }
}

/// Add the reminders of one occurrence that are due in a window.
fn add_due(
    event_id: Uuid,
    occurrence: &DateTime,
    reminders: &Vec<ReminderSpec>,
    start: &DateTime,
    end: &DateTime,
    out: &mut Vec<ReminderOccurrence>,
)
    requires
        forall|k: int| 0 <= k < reminders@.len() ==> (#[trigger] reminders@[k]).seconds_before_start > 0,
    ensures
        lists::views_of(final(out)@) == lists::views_of(old(out)@) + due_at(
            event_id,
            *occurrence,
            model::reminder_views(reminders@),
            start@,
            end@,
        ),
{
    let ghost views = model::reminder_views(reminders@);
    let ghost first = lists::views_of(out@);
    assert(first + due_at(event_id, *occurrence, views.take(0), start@, end@) =~= first);
    for i in 0..reminders.len()
        invariant
            views == model::reminder_views(reminders@),
            forall|k: int|
                0 <= k < reminders@.len() ==> (#[trigger] reminders@[k]).seconds_before_start > 0,
            lists::views_of(out@) == first + due_at(
                event_id,
                *occurrence,
                views.take(i as int),
                start@,
                end@,
            ),
    {
        let ghost before = out@;
        let reminder = &reminders[i];
        proof {
            assert(views.take(i + 1).drop_last() =~= views.take(i as int));
            assert(views.take(i + 1).last() == reminder@);
        }
        if let Some(trigger_at) = shift(occurrence, -reminder.seconds_before_start) {
            if start.before(&trigger_at) && !end.before(&trigger_at) {
                let due = ReminderOccurrence {
                    event_id,
                    occurrence_start: *occurrence,
                    trigger_at,
                    description: reminder.description.clone(),
                };
                out.push(due);
                proof {
                    lists::lemma_views_push(before, due);
                    let earlier = due_at(event_id, *occurrence, views.take(i as int), start@, end@);
                    assert((first + earlier).push(due@) =~= first + earlier.push(due@));
                }
            }
        }
    }
    assert(views.take(views.len() as int) =~= views);
}

/// The reminders of an event that are due after `start` and no later than `end`, by what its
/// recurrence gives.
pub fn due_given(event: &Event, start: &DateTime, end: &DateTime, found: &Option<Expansion>) -> (r: Vec<
    ReminderOccurrence,
>)
    ensures
        lists::views_of(r@) == due_reminders(event@, *start, *end, lists::view_of(*found)),
{
    let nothing: Vec<ReminderOccurrence> = Vec::new();
    assert(lists::views_of(nothing@) =~= seq![]);
    if !start.before(end) {
        return nothing;
    }
    let reminders = early_reminders(&event.reminders);
    proof {
        lemma_early(event@.reminders);
        assert(model::reminder_views(reminders@).len() == reminders@.len());
        assert forall|k: int| 0 <= k < reminders@.len() implies (
        #[trigger] reminders@[k]).seconds_before_start > 0 by {
            assert(model::reminder_views(reminders@)[k] == reminders@[k]@);
        }
    }
    if reminders.len() == 0 {
        return nothing;
    }
    let starts = match make_occurrence_starts(event, &reminders, start, end, found) {
        Some(starts) => starts,
        None => {
            return nothing;
        },
    };
    let ghost all = lists::views_of(starts@);
    let ghost early_views = early(event@.reminders);
    let mut out = nothing;
    for i in 0..starts.len()
        invariant
            all == lists::views_of(starts@),
            early_views == early(event@.reminders),
            model::reminder_views(reminders@) == early_views,
            forall|k: int|
                0 <= k < reminders@.len() ==> (#[trigger] reminders@[k]).seconds_before_start > 0,
            lists::views_of(out@) == due_of(event.id, all.take(i as int), early_views, start@, end@),
    {
        proof {
            lists::lemma_views_take(starts@, i as int);
            date::lemma_date_time_of_view(starts@[i as int]);
        }
        add_due(event.id, &starts[i], &reminders, start, end, &mut out);
    }
    proof {
        lists::lemma_views_all(starts@);
    }
    sorting::sort(out)
}

proof fn lemma_early(reminders: Seq<ReminderView>)
    ensures
        forall|i: int|
            0 <= i < early(reminders).len() ==> (#[trigger] early(reminders)[i]).seconds_before_start > 0,
    decreases reminders.len(),
{
    reveal(Seq::filter);
    if reminders.len() > 0 {
        lemma_early(reminders.drop_last());
    }
}

/// What the recurrence of an event gives for the reminders in a window. The clocks of the machine are
/// read twice: for the occurrences and for the excluded dates.
pub open spec fn expansion_by(
    event: EventView,
    start: DateTime,
    end: DateTime,
    clocks: Seq<char>,
    exclusion_clocks: Seq<char>,
) -> Option<ExpansionView> {
    match event.recurrence {
        None => None,
        Some(recurrence) => match query_of(
            event.schedule,
            recurrence,
            early(event.reminders),
            start,
            end,
        ) {
            None => None,
            Some(query) => match (
                rules::occurrences_by(
                    query.source,
                    query.after,
                    query.before,
                    RECURRENCE_LIMIT,
                    clocks,
                ),
                rules::exdates_by(query.source, exclusion_clocks),
            ) {
                (Some(dates), Some(excluded)) => Some(ExpansionView { dates, excluded }),
                _ => None,
            },
        },
    }
}

/// What the recurrence of an event that means the same by all clocks gives for the reminders in a
/// window.
pub open spec fn expansion_of(event: EventView, start: DateTime, end: DateTime) -> Option<ExpansionView> {
    expansion_by(event, start, end, rules::any_clocks(), rules::any_clocks())
}

/// Whether the text of the recurrence of an event says of each of its times which zone it is in.
/// That of an event on whole days does not.
pub open spec fn is_zoned_event(event: EventView) -> bool {
    event.recurrence matches Some(recurrence) ==> (recurrence_source(event.schedule, recurrence)
        matches Some(source) ==> rules::is_zoned(source))
}

/// Whether something is what the recurrence of an event gives for the reminders in a window. Without
/// early reminders nothing is looked up.
pub open spec fn is_expansion(
    found: Option<ExpansionView>,
    event: EventView,
    start: DateTime,
    end: DateTime,
) -> bool {
    early(event.reminders).len() > 0 ==> {
        &&& is_zoned_event(event) ==> found == expansion_of(event, start, end)
        &&& exists|clocks: Seq<char>, exclusion_clocks: Seq<char>|
            found == #[trigger] expansion_by(event, start, end, clocks, exclusion_clocks)
    }
}

/// What the recurrence of an event gives for the reminders in a window.
fn find_expansion(event: &Event, start: &DateTime, end: &DateTime) -> (r: Option<Expansion>)
    ensures
        is_expansion(lists::view_of(r), event@, *start, *end),
{
    let reminders = early_reminders(&event.reminders);
    assert(model::reminder_views(reminders@).len() == reminders@.len());
    if reminders.len() == 0 {
        return None;
    }
    let ghost any = rules::any_clocks();
    let recurrence = match &event.recurrence {
        Some(recurrence) => recurrence,
        None => {
            assert(expansion_by(event@, *start, *end, any, any) is None);
            return None;
        },
    };
    assert(event@.recurrence == Some(recurrence@));
    let query = match make_query(&event.schedule, recurrence, &reminders, start, end) {
        Some(query) => query,
        None => {
            assert(expansion_by(event@, *start, *end, any, any) is None);
            return None;
        },
    };
    let dates = rules::occurrences(
        query.source.as_str(),
        &query.after,
        &query.before,
        RECURRENCE_LIMIT,
    );
    let excluded = rules::exdates(query.source.as_str());
    let ghost clocks = choose|clocks: Seq<char>|
        rules::optional_views(dates) == #[trigger] rules::occurrences_by(
            query.source@,
            query.after@,
            query.before@,
            RECURRENCE_LIMIT,
            clocks,
        );
    let ghost exclusion_clocks = choose|clocks: Seq<char>|
        rules::optional_views(excluded) == #[trigger] rules::exdates_by(query.source@, clocks);
    let r = match (dates, excluded) {
        (Some(dates), Some(excluded)) => {
            assert(rules::instant_views(dates@) =~= lists::views_of(dates@));
            assert(rules::instant_views(excluded@) =~= lists::views_of(excluded@));
            Some(Expansion { dates, excluded })
        },
        _ => None,
    };
    assert(lists::view_of(r) == expansion_by(event@, *start, *end, clocks, exclusion_clocks));
    r
}

/// Whether reminders are those of an event that are due after `start` and no later than `end`.
pub open spec fn are_due(due: Seq<DueView>, event: EventView, start: DateTime, end: DateTime) -> bool {
    exists|found: Option<ExpansionView>|
        #[trigger] is_expansion(found, event, start, end) && due == due_reminders(
            event,
            start,
            end,
            found,
        )
}

/// The reminders of an event that are due after `start` and no later than `end`, by the instant at
/// which they are due. The occurrences of an event on whole days can depend on the zone of the
/// machine; those of an event whose recurrence says of each time which zone it is in depend on the
/// arguments alone.
pub fn reminder_occurrences_in_window(event: &Event, start_exclusive: &DateTime, end_inclusive: &DateTime) -> (r:
    Vec<ReminderOccurrence>)
    ensures
        is_zoned_event(event@) ==> lists::views_of(r@) == due_reminders(
            event@,
            *start_exclusive,
            *end_inclusive,
            expansion_of(event@, *start_exclusive, *end_inclusive),
        ),
        are_due(lists::views_of(r@), event@, *start_exclusive, *end_inclusive),
{
    let found = find_expansion(event, start_exclusive, end_inclusive);
    let ghost given = lists::view_of(found);
    assert(is_expansion(given, event@, *start_exclusive, *end_inclusive));
    due_given(event, start_exclusive, end_inclusive, &found)
}

// ---------------------------------------------------------------------------------------------
// Laws
// ---------------------------------------------------------------------------------------------

/// Whether a due reminder is one of an event: due in the window, before its occurrence by the seconds
/// of a reminder of the event, and with that reminder's text. From within a leap second the seconds
/// are counted as [`shifted`] counts them.
pub open spec fn is_due(due: DueView, event: EventView, start: DateTime, end: DateTime) -> bool {
    &&& due.event_id == event.id
    &&& in_window(due.trigger_at@, start@, end@)
    &&& exists|i: int|
        0 <= i < event.reminders.len() && (#[trigger] event.reminders[i]).seconds_before_start > 0
            && due.description == event.reminders[i].description && Some(due.trigger_at) == shifted(
            due.occurrence_start,
            -event.reminders[i].seconds_before_start,
        ) && (due.occurrence_start@.nanos < date::SECOND_NANOS ==> is_seconds_before(
            due.trigger_at@,
            due.occurrence_start@,
            event.reminders[i].seconds_before_start as int,
        ))
}

/// Whatever the recurrence gives, every reminder that is found is one of the event that is due after
/// the start of the window and no later than its end, and none comes before an earlier one.
pub proof fn law_found_reminders_are_due(
    event: EventView,
    start: DateTime,
    end: DateTime,
    found: Option<ExpansionView>,
)
    ensures
        sorting::is_sorted(due_reminders(event, start, end, found), by_trigger()),
        forall|i: int|
            0 <= i < due_reminders(event, start, end, found).len() ==> is_due(
                #[trigger] due_reminders(event, start, end, found)[i],
                event,
                start,
                end,
            ),
{
    let reminders = early(event.reminders);
    let out = due_reminders(event, start, end, found);
    if start@.before(end@) && reminders.len() > 0 && occurrence_starts(event, start, end, found) is Some {
        let starts = occurrence_starts(event, start, end, found)->0;
        let all = due_of(event.id, starts, reminders, start@, end@);
        lemma_by_trigger_is_order();
        sorting::law_sorted(all, by_trigger());
        lemma_due_of(event, starts, start, end);
        assert forall|i: int| 0 <= i < out.len() implies is_due(#[trigger] out[i], event, start, end) by {
            assert(out.contains(out[i]));
            let k = choose|k: int| 0 <= k < all.len() && all[k] == out[i];
            assert(is_due(all[k], event, start, end));
        }
    }
}

proof fn lemma_by_trigger_is_order()
    ensures
        sorting::is_order(by_trigger()),
{
}

proof fn lemma_early_is_of(reminders: Seq<ReminderView>)
    ensures
        forall|i: int|
            0 <= i < early(reminders).len() ==> exists|k: int|
                0 <= k < reminders.len() && #[trigger] reminders[k] == #[trigger] early(reminders)[i]
                    && reminders[k].seconds_before_start > 0,
    decreases reminders.len(),
{
    reveal(Seq::filter);
    if reminders.len() > 0 {
        let before = reminders.drop_last();
        lemma_early_is_of(before);
        assert forall|i: int| 0 <= i < early(reminders).len() implies exists|k: int|
            0 <= k < reminders.len() && #[trigger] reminders[k] == #[trigger] early(reminders)[i]
                && reminders[k].seconds_before_start > 0 by {
            if i < early(before).len() {
                assert(early(reminders)[i] == early(before)[i]);
                let k = choose|k: int|
                    0 <= k < before.len() && #[trigger] before[k] == early(before)[i]
                        && before[k].seconds_before_start > 0;
                assert(reminders[k] == before[k]);
            } else {
                assert(reminders[reminders.len() - 1] == reminders.last());
            }
        }
    }
}

proof fn lemma_due_at(event: EventView, occurrence: DateTime, n: int, start: DateTime, end: DateTime)
    requires
        0 <= n <= early(event.reminders).len(),
    ensures
        forall|i: int|
            0 <= i < due_at(event.id, occurrence, early(event.reminders).take(n), start@, end@).len()
                ==> is_due(
                #[trigger] due_at(
                    event.id,
                    occurrence,
                    early(event.reminders).take(n),
                    start@,
                    end@,
                )[i],
                event,
                start,
                end,
            ),
    decreases n,
{
    let reminders = early(event.reminders);
    if n > 0 {
        lemma_due_at(event, occurrence, n - 1, start, end);
        lemma_early_is_of(event.reminders);
        assert(reminders.take(n).drop_last() =~= reminders.take(n - 1));
        assert(reminders.take(n).last() == reminders[n - 1]);
        let k = choose|k: int|
            0 <= k < event.reminders.len() && #[trigger] event.reminders[k] == reminders[n - 1]
                && event.reminders[k].seconds_before_start > 0;
        let out = due_at(event.id, occurrence, reminders.take(n), start@, end@);
        let before = due_at(event.id, occurrence, reminders.take(n - 1), start@, end@);
        assert forall|i: int| 0 <= i < out.len() implies is_due(#[trigger] out[i], event, start, end) by {
            if i < before.len() {
                assert(out[i] == before[i]);
            } else {
                assert(event.reminders[k].description == out[i].description);
                let seconds = event.reminders[k].seconds_before_start as int;
                if occurrence@.nanos < date::SECOND_NANOS {
                    date::lemma_later(occurrence, Span { seconds: (-seconds) as i64, nanos: 0 });
                }
            }
        }
    }
}

proof fn lemma_due_of(event: EventView, starts: Seq<DateTimeView>, start: DateTime, end: DateTime)
    ensures
        forall|i: int|
            0 <= i < due_of(event.id, starts, early(event.reminders), start@, end@).len() ==> is_due(
                #[trigger] due_of(event.id, starts, early(event.reminders), start@, end@)[i],
                event,
                start,
                end,
            ),
    decreases starts.len(),
{
    if starts.len() > 0 {
        let reminders = early(event.reminders);
        lemma_due_of(event, starts.drop_last(), start, end);
        lemma_due_at(
            event,
            date::date_time_of(starts.last()),
            reminders.len() as int,
            start,
            end,
        );
        assert(reminders.take(reminders.len() as int) =~= reminders);
        let first = due_of(event.id, starts.drop_last(), reminders, start@, end@);
        let out = due_of(event.id, starts, reminders, start@, end@);
        assert forall|i: int| 0 <= i < out.len() implies is_due(#[trigger] out[i], event, start, end) by {
            if i < first.len() {
                assert(out[i] == first[i]);
            }
        }
    }
}

/// Whether a reminder comes before an occurrence and is due in a window.
pub open spec fn is_due_before(occurrence: DateTime, start: DateTimeView, end: DateTimeView) -> spec_fn(
    ReminderView,
) -> bool {
    |reminder: ReminderView|
        reminder.seconds_before_start > 0 && match shifted(
            occurrence,
            -reminder.seconds_before_start,
        ) {
            Some(trigger_at) => in_window(trigger_at@, start, end),
            None => false,
        }
}

/// A reminder of an occurrence that is due.
pub open spec fn due_before(event_id: Uuid, occurrence: DateTime) -> spec_fn(ReminderView) -> DueView {
    |reminder: ReminderView|
        DueView {
            event_id,
            occurrence_start: occurrence,
            trigger_at: shifted(occurrence, -reminder.seconds_before_start)->0,
            description: reminder.description,
        }
}

/// Of an event without a recurrence every reminder before its start that is due in the window is
/// found once, and no other.
pub proof fn law_each_due_reminder_is_found_once(
    event: EventView,
    start: DateTime,
    end: DateTime,
    found: Option<ExpansionView>,
)
    requires
        event.recurrence is None,
        event_start(event.schedule, start@.offset) is Some,
        start@.before(end@),
    ensures
        ({
            let first = date::date_time_of(event_start(event.schedule, start@.offset)->0);
            due_reminders(event, start, end, found).to_multiset() == event.reminders.filter(
                is_due_before(first, start@, end@),
            ).map_values(due_before(event.id, first)).to_multiset()
        }),
{
    let at = event_start(event.schedule, start@.offset)->0;
    let first = date::date_time_of(at);
    let reminders = early(event.reminders);
    lemma_due_once(event.id, first, event.reminders, start@, end@);
    let all = due_of(event.id, seq![at], reminders, start@, end@);
    assert(seq![at].drop_last() =~= seq![]);
    assert(due_of(event.id, seq![at].drop_last(), reminders, start@, end@) =~= seq![]);
    assert(all =~= due_at(event.id, first, reminders, start@, end@));
    if reminders.len() == 0 {
        assert(due_at(event.id, first, reminders, start@, end@) =~= seq![]);
    } else {
        lemma_by_trigger_is_order();
        sorting::law_sorted(all, by_trigger());
    }
}

proof fn lemma_due_once(
    event_id: Uuid,
    occurrence: DateTime,
    reminders: Seq<ReminderView>,
    start: DateTimeView,
    end: DateTimeView,
)
    ensures
        due_at(event_id, occurrence, early(reminders), start, end) == reminders.filter(
            is_due_before(occurrence, start, end),
        ).map_values(due_before(event_id, occurrence)),
    decreases reminders.len(),
{
    reveal(Seq::filter);
    let due = is_due_before(occurrence, start, end);
    let as_due = due_before(event_id, occurrence);
    if reminders.len() == 0 {
        assert(due_at(event_id, occurrence, early(reminders), start, end) =~= reminders.filter(
            due,
        ).map_values(as_due));
    } else {
        let before = reminders.drop_last();
        let last = reminders.last();
        lemma_due_once(event_id, occurrence, before, start, end);
        if last.seconds_before_start > 0 {
            assert(early(reminders) == early(before).push(last));
            assert(early(reminders).drop_last() =~= early(before));
            assert(early(reminders).last() == last);
        } else {
            assert(early(reminders) == early(before));
        }
        assert(due_at(event_id, occurrence, early(reminders), start, end) =~= reminders.filter(
            due,
        ).map_values(as_due));
    }
}

/// Where one window begins when another ends, an instant lies in the two together exactly when it
/// lies in one of them, and never in both.
pub proof fn law_windows_join(
    instant: DateTimeView,
    start: DateTimeView,
    middle: DateTimeView,
    end: DateTimeView,
)
    requires
        !middle.before(start),
        !end.before(middle),
    ensures
        in_window(instant, start, end) <==> in_window(instant, start, middle) || in_window(
            instant,
            middle,
            end,
        ),
        !(in_window(instant, start, middle) && in_window(instant, middle, end)),
{
}

/// The bounds between which occurrences are asked for miss none that matters: where a reminder some
/// seconds before an instant is due after the start of the window and no later than its end, the
/// instant lies strictly between the bounds. This holds of windows that do not begin or end in a leap
/// second, and of instants that do not lie in one.
pub proof fn law_bounds_hold_every_due_occurrence(
    reminders: Seq<ReminderView>,
    start: DateTime,
    end: DateTime,
    instant: DateTimeView,
    i: int,
)
    requires
        start@.nanos < 1000000000,
        end@.nanos < 1000000000,
        0 <= instant.nanos < 1000000000,
        0 <= i < reminders.len(),
        bounds(reminders, start, end) is Some,
        ({
            let due = DateTimeView {
                seconds: instant.seconds - reminders[i].seconds_before_start,
                ..instant
            };
            start@.before(due) && !end@.before(due)
        }),
    ensures
        (bounds(reminders, start, end)->0).0@.before(instant),
        instant.before((bounds(reminders, start, end)->0).1@),
{
    let seconds = reminders[i].seconds_before_start as int;
    lemma_extremes(reminders, i);
    date::lemma_later(start, Span { seconds: least(reminders) as i64, nanos: 0 });
    date::lemma_later(end, Span { seconds: greatest(reminders) as i64, nanos: 0 });
    let last = shifted(end, greatest(reminders))->0;
    date::lemma_later(last, one_nanosecond());
}

/// Every number of seconds lies between the least and the greatest.
proof fn lemma_extremes(reminders: Seq<ReminderView>, i: int)
    requires
        0 <= i < reminders.len(),
    ensures
        least(reminders) <= reminders[i].seconds_before_start <= greatest(reminders),
        exists|k: int|
            0 <= k < reminders.len() && (#[trigger] reminders[k]).seconds_before_start == least(
                reminders,
            ),
        exists|k: int|
            0 <= k < reminders.len() && (#[trigger] reminders[k]).seconds_before_start == greatest(
                reminders,
            ),
    decreases reminders.len(),
{
    if reminders.len() > 1 {
        let before = reminders.drop_last();
        if i < before.len() {
            assert(before[i] == reminders[i]);
            lemma_extremes(before, i);
        } else {
            lemma_extremes(before, 0);
        }
        let low = choose|k: int|
            0 <= k < before.len() && (#[trigger] before[k]).seconds_before_start == least(before);
        let high = choose|k: int|
            0 <= k < before.len() && (#[trigger] before[k]).seconds_before_start == greatest(before);
        assert(reminders[low] == before[low]);
        assert(reminders[high] == before[high]);
        assert(reminders[reminders.len() - 1] == reminders.last());
    } else {
        assert(reminders[0].seconds_before_start == least(reminders));
    }
}

/// There are such bounds wherever an instant as far after the window as the reminders come before
/// their occurrences is representable.
pub proof fn law_bounds_are_there(reminders: Seq<ReminderView>, start: DateTime, end: DateTime)
    requires
        reminders.len() > 0,
        start@.valid(),
        end@.valid(),
        start@.nanos < 1000000000,
        end@.nanos < 1000000000,
        forall|i: int|
            0 <= i < reminders.len() ==> (DateTimeView {
                seconds: start@.seconds + (#[trigger] reminders[i]).seconds_before_start,
                ..start@
            }).valid() && (DateTimeView {
                seconds: end@.seconds + reminders[i].seconds_before_start + 1,
                ..end@
            }).valid() && (DateTimeView {
                seconds: end@.seconds + reminders[i].seconds_before_start,
                ..end@
            }).valid(),
    ensures
        bounds(reminders, start, end) is Some,
{
    lemma_extremes(reminders, 0);
    let low = choose|k: int|
        0 <= k < reminders.len() && (#[trigger] reminders[k]).seconds_before_start == least(reminders);
    let high = choose|k: int|
        0 <= k < reminders.len() && (#[trigger] reminders[k]).seconds_before_start == greatest(
            reminders,
        );
    assert((DateTimeView { seconds: start@.seconds + least(reminders), ..start@ }).valid());
    assert((DateTimeView { seconds: end@.seconds + greatest(reminders), ..end@ }).valid());
    date::lemma_later(start, Span { seconds: least(reminders) as i64, nanos: 0 });
    date::lemma_later(end, Span { seconds: greatest(reminders) as i64, nanos: 0 });
    let last = shifted(end, greatest(reminders))->0;
    date::lemma_later(last, one_nanosecond());
}

/// The start of an occurrence that the recurrence gives, or the start of the event itself unless it
/// is left out, is looked at: each of its reminders that is due in the window is found, with its
/// text, and is due that many seconds before the occurrence.
pub proof fn law_due_reminders_of_occurrences_are_found(
    event: EventView,
    start: DateTime,
    end: DateTime,
    found: ExpansionView,
    occurrence: DateTimeView,
    i: int,
)
    requires
        event.schedule.runs_forward(),
        event.schedule matches ScheduleView::Timed { start: first, .. } && (
        found.dates.contains(occurrence) || (occurrence == start_in_zone(
            first@,
            event.schedule->timezone,
        ) && occurrence.same_instant(first@) && forall|k: int|
            0 <= k < found.excluded.len() ==> (#[trigger] found.excluded[k]).seconds
                != first@.seconds)),
        event.recurrence matches Some(recurrence) && query_of(
            event.schedule,
            recurrence,
            early(event.reminders),
            start,
            end,
        ) is Some,
        forall|k: int| 0 <= k < found.dates.len() ==> (#[trigger] found.dates[k]).valid(),
        occurrence.valid(),
        occurrence.nanos < 1000000000,
        start@.nanos < 1000000000,
        end@.nanos < 1000000000,
        start@.before(end@),
        0 <= i < event.reminders.len(),
        event.reminders[i].seconds_before_start > 0,
        ({
            let due = DateTimeView {
                seconds: occurrence.seconds - event.reminders[i].seconds_before_start,
                ..occurrence
            };
            due.valid() && start@.before(due) && !end@.before(due)
        }),
        start_in_zone(event.schedule->start@, event.schedule->timezone).valid(),
    ensures
        exists|k: int|
            {
                let due = #[trigger] due_reminders(event, start, end, Some(found))[k];
                &&& 0 <= k < due_reminders(event, start, end, Some(found)).len()
                &&& due.event_id == event.id
                &&& due.occurrence_start@.same_instant(occurrence)
                &&& due.description == event.reminders[i].description
                &&& due.trigger_at@.seconds == occurrence.seconds
                    - event.reminders[i].seconds_before_start
                &&& due.trigger_at@.nanos == occurrence.nanos
            },
{
    let reminders = early(event.reminders);
    let reminder = event.reminders[i];
    let first = event.schedule->start;
    let timezone = event.schedule->timezone;
    lemma_early_holds(event.reminders, i);
    let n = choose|n: int| 0 <= n < reminders.len() && #[trigger] reminders[n] == reminder;
    let (lower, upper) = bounds(reminders, start, end)->0;
    law_bounds_hold_every_due_occurrence(reminders, start, end, occurrence, n);
    let all = if !occurrences::some_at_second(found.excluded, first@.seconds) && is_inside(
        first@,
        lower@,
        upper@,
    ) {
        found.dates.push(start_in_zone(first@, timezone))
    } else {
        found.dates
    };
    assert(all.contains(occurrence)) by {
        if found.dates.contains(occurrence) {
            let k = choose|k: int| 0 <= k < found.dates.len() && found.dates[k] == occurrence;
            assert(all[k] == occurrence);
        } else {
            assert(is_inside(first@, lower@, upper@));
            assert(all[all.len() - 1] == occurrence);
        }
    }
    sorting::law_sorted(all, sorting::by_instant());
    let ordered = sorting::sorted(all, sorting::by_instant());
    let at = choose|k: int| 0 <= k < ordered.len() && ordered[k] == occurrence;
    sorting::law_deduplicated(ordered, sorting::one_instant());
    sorting::lemma_deduplicated(ordered, sorting::one_instant());
    let starts = timed_starts(first@, timezone, lower@, upper@, found);
    let k = choose|k: int|
        0 <= k < starts.len() && (sorting::one_instant())(#[trigger] starts[k], ordered[at]);
    assert(starts.contains(starts[k]));
    assert(all.contains(starts[k]));
    assert(starts[k].valid());
    date::lemma_date_time_of(starts[k]);
    let moment = date::date_time_of(starts[k]);
    law_reminder_falls_seconds_before(moment, reminder.seconds_before_start as int);
    lemma_due_at_holds(event.id, moment, reminders, start@, end@, n);
    lemma_due_of_holds(event.id, starts, reminders, start@, end@, k, n);
    let wanted = DueView {
        event_id: event.id,
        occurrence_start: moment,
        trigger_at: shifted(moment, -reminder.seconds_before_start)->0,
        description: reminder.description,
    };
    let due = due_of(event.id, starts, reminders, start@, end@);
    lemma_by_trigger_is_order();
    sorting::law_sorted(due, by_trigger());
    let out = due_reminders(event, start, end, Some(found));
    assert(out.contains(wanted));
    let place = choose|k: int| 0 <= k < out.len() && out[k] == wanted;
    assert(out[place] == wanted);
}

/// The same of an event on whole days: its occurrences begin at midnight under the offset of the
/// window, on the days that the recurrence gives and on its own first day, unless that is left out.
pub proof fn law_due_reminders_of_whole_days_are_found(
    event: EventView,
    start: DateTime,
    end: DateTime,
    found: ExpansionView,
    day: int,
    i: int,
)
    requires
        event.schedule.runs_forward(),
        event.schedule matches ScheduleView::AllDay { start_date, .. } && ((exists|k: int|
            0 <= k < found.dates.len() && (#[trigger] found.dates[k]).local_day() == day) || (day
            == start_date@ && forall|k: int|
            0 <= k < found.excluded.len() ==> (#[trigger] found.excluded[k]).local_day() != day)),
        occurrence_starts(event, start, end, Some(found)) is Some,
        event.recurrence is Some,
        start@.valid(),
        start@.nanos < 1000000000,
        end@.nanos < 1000000000,
        start@.before(end@),
        0 <= i < event.reminders.len(),
        event.reminders[i].seconds_before_start > 0,
        ({
            let occurrence = midnight(day, start@.offset);
            let due = DateTimeView {
                seconds: occurrence.seconds - event.reminders[i].seconds_before_start,
                ..occurrence
            };
            due.valid() && start@.before(due) && !end@.before(due)
        }),
    ensures
        exists|k: int|
            {
                let due = #[trigger] due_reminders(event, start, end, Some(found))[k];
                &&& 0 <= k < due_reminders(event, start, end, Some(found)).len()
                &&& due.event_id == event.id
                &&& due.occurrence_start@ == DateTimeView {
                    seconds: (day - date::EPOCH_DAY) * 86400 - start@.offset,
                    nanos: 0,
                    offset: start@.offset,
                }
                &&& due.description == event.reminders[i].description
                &&& due.trigger_at@.seconds == due.occurrence_start@.seconds
                    - event.reminders[i].seconds_before_start
                &&& due.trigger_at@.nanos == 0
            },
{
    let reminders = early(event.reminders);
    let reminder = event.reminders[i];
    let offset = start@.offset;
    let occurrence = midnight(day, offset);
    let first = event.schedule->start_date;
    lemma_early_holds(event.reminders, i);
    let n = choose|n: int| 0 <= n < reminders.len() && #[trigger] reminders[n] == reminder;
    let (lower, upper) = bounds(reminders, start, end)->0;
    law_bounds_hold_every_due_occurrence(reminders, start, end, occurrence, n);
    let all = if !occurrences::some_falls_on(found.excluded, first@) && is_inside(
        midnight(first@, offset),
        lower@,
        upper@,
    ) {
        found.dates.push(midnight(first@, 0))
    } else {
        found.dates
    };
    let at = if exists|k: int|
        0 <= k < found.dates.len() && (#[trigger] found.dates[k]).local_day() == day {
        choose|k: int| 0 <= k < found.dates.len() && (#[trigger] found.dates[k]).local_day() == day
    } else {
        all.len() - 1
    };
    assert(midnight(day, 0).local_day() == day);
    assert(0 <= at < all.len() && all[at].local_day() == day);
    sorting::law_sorted(all, sorting::by_instant());
    let ordered = sorting::sorted(all, sorting::by_instant());
    assert(all.contains(all[at]));
    assert(ordered.contains(all[at]));
    let place = choose|k: int| 0 <= k < ordered.len() && ordered[k] == all[at];
    sorting::law_deduplicated(ordered, sorting::one_day());
    let days = occurrence_days(first@, offset, lower@, upper@, found);
    let k = choose|k: int|
        0 <= k < days.len() && (sorting::one_day())(#[trigger] days[k], ordered[place]);
    lemma_midnights_hold(days, offset, k);
    let starts = midnights(days, offset)->0;
    assert(starts[k] == occurrence);
    date::lemma_date_time_of(occurrence);
    let moment = date::date_time_of(occurrence);
    law_reminder_falls_seconds_before(moment, reminder.seconds_before_start as int);
    lemma_due_at_holds(event.id, moment, reminders, start@, end@, n);
    lemma_due_of_holds(event.id, starts, reminders, start@, end@, k, n);
    let wanted = DueView {
        event_id: event.id,
        occurrence_start: moment,
        trigger_at: shifted(moment, -reminder.seconds_before_start)->0,
        description: reminder.description,
    };
    let due = due_of(event.id, starts, reminders, start@, end@);
    lemma_by_trigger_is_order();
    sorting::law_sorted(due, by_trigger());
    let out = due_reminders(event, start, end, Some(found));
    assert(out.contains(wanted));
    let found_at = choose|k: int| 0 <= k < out.len() && out[k] == wanted;
    assert(out[found_at] == wanted);
}

/// What is asked of the recurrence of an event holds every occurrence with a reminder that is due in
/// the window: for an event with times its start, for one on whole days midnight in UTC of its day.
pub proof fn law_query_holds_every_due_occurrence(
    schedule: ScheduleView,
    recurrence: RecurrenceView,
    reminders: Seq<ReminderView>,
    start: DateTime,
    end: DateTime,
    occurrence: DateTimeView,
    i: int,
)
    requires
        start@.nanos < 1000000000,
        end@.nanos < 1000000000,
        0 <= occurrence.nanos < 1000000000,
        0 <= i < reminders.len(),
        query_of(schedule, recurrence, reminders, start, end) is Some,
        schedule is AllDay ==> occurrence == midnight(occurrence.local_day(), start@.offset),
        ({
            let due = DateTimeView {
                seconds: occurrence.seconds - reminders[i].seconds_before_start,
                ..occurrence
            };
            start@.before(due) && !end@.before(due)
        }),
    ensures
        ({
            let query = query_of(schedule, recurrence, reminders, start, end)->0;
            match schedule {
                ScheduleView::Timed { .. } => query.after.before(occurrence) && occurrence.before(
                    query.before,
                ),
                ScheduleView::AllDay { .. } => {
                    let asked = DateTimeView {
                        seconds: (occurrence.local_day() - date::EPOCH_DAY) * 86400,
                        nanos: 0,
                        offset: 0,
                    };
                    !asked.before(query.after) && asked.before(query.before)
                },
            }
        }),
{
    law_bounds_hold_every_due_occurrence(reminders, start, end, occurrence, i);
    let (lower, upper) = bounds(reminders, start, end)->0;
    date::lemma_later(start, Span { seconds: least(reminders) as i64, nanos: 0 });
}

proof fn lemma_early_holds(reminders: Seq<ReminderView>, i: int)
    requires
        0 <= i < reminders.len(),
        reminders[i].seconds_before_start > 0,
    ensures
        exists|n: int| 0 <= n < early(reminders).len() && #[trigger] early(reminders)[n] == reminders[i],
    decreases reminders.len(),
{
    reveal(Seq::filter);
    let before = reminders.drop_last();
    if i < before.len() {
        assert(before[i] == reminders[i]);
        lemma_early_holds(before, i);
        let n = choose|n: int|
            0 <= n < early(before).len() && #[trigger] early(before)[n] == before[i];
        assert(early(reminders)[n] == early(before)[n]);
    } else {
        assert(early(reminders) == early(before).push(reminders[i]));
        assert(early(reminders)[early(before).len() as int] == reminders[i]);
    }
}

proof fn lemma_midnights_hold(days: Seq<DateTimeView>, offset: int, k: int)
    requires
        midnights(days, offset) is Some,
        0 <= k < days.len(),
    ensures
        (midnights(days, offset)->0).len() == days.len(),
        (midnights(days, offset)->0)[k] == midnight(days[k].local_day(), offset),
        midnight(days[k].local_day(), offset).valid(),
    decreases days.len(),
{
    let before = days.drop_last();
    if k < before.len() {
        lemma_midnights_hold(before, offset, k);
    } else {
        lemma_midnights_length(before, offset);
    }
}

proof fn lemma_midnights_length(days: Seq<DateTimeView>, offset: int)
    requires
        midnights(days, offset) is Some,
    ensures
        (midnights(days, offset)->0).len() == days.len(),
    decreases days.len(),
{
    if days.len() > 0 {
        lemma_midnights_length(days.drop_last(), offset);
    }
}

proof fn lemma_due_at_holds(
    event_id: Uuid,
    occurrence: DateTime,
    reminders: Seq<ReminderView>,
    start: DateTimeView,
    end: DateTimeView,
    n: int,
)
    requires
        0 <= n < reminders.len(),
        shifted(occurrence, -reminders[n].seconds_before_start) matches Some(trigger_at) && in_window(
            trigger_at@,
            start,
            end,
        ),
    ensures
        due_at(event_id, occurrence, reminders, start, end).contains(
            DueView {
                event_id,
                occurrence_start: occurrence,
                trigger_at: shifted(occurrence, -reminders[n].seconds_before_start)->0,
                description: reminders[n].description,
            },
        ),
    decreases reminders.len(),
{
    let wanted = DueView {
        event_id,
        occurrence_start: occurrence,
        trigger_at: shifted(occurrence, -reminders[n].seconds_before_start)->0,
        description: reminders[n].description,
    };
    let before = reminders.drop_last();
    let out = due_at(event_id, occurrence, reminders, start, end);
    let first = due_at(event_id, occurrence, before, start, end);
    if n < before.len() {
        assert(before[n] == reminders[n]);
        lemma_due_at_holds(event_id, occurrence, before, start, end, n);
        let k = choose|k: int| 0 <= k < first.len() && first[k] == wanted;
        assert(out[k] == wanted);
    } else {
        assert(out[out.len() - 1] == wanted);
    }
}

proof fn lemma_due_of_holds(
    event_id: Uuid,
    starts: Seq<DateTimeView>,
    reminders: Seq<ReminderView>,
    start: DateTimeView,
    end: DateTimeView,
    k: int,
    n: int,
)
    requires
        0 <= k < starts.len(),
        0 <= n < reminders.len(),
        shifted(date::date_time_of(starts[k]), -reminders[n].seconds_before_start) matches Some(
            trigger_at,
        ) && in_window(trigger_at@, start, end),
    ensures
        due_of(event_id, starts, reminders, start, end).contains(
            DueView {
                event_id,
                occurrence_start: date::date_time_of(starts[k]),
                trigger_at: shifted(
                    date::date_time_of(starts[k]),
                    -reminders[n].seconds_before_start,
                )->0,
                description: reminders[n].description,
            },
        ),
    decreases starts.len(),
{
    let occurrence = date::date_time_of(starts[k]);
    let wanted = DueView {
        event_id,
        occurrence_start: occurrence,
        trigger_at: shifted(occurrence, -reminders[n].seconds_before_start)->0,
        description: reminders[n].description,
    };
    let before = starts.drop_last();
    let first = due_of(event_id, before, reminders, start, end);
    let last = due_at(event_id, date::date_time_of(starts.last()), reminders, start, end);
    let out = due_of(event_id, starts, reminders, start, end);
    if k < before.len() {
        assert(before[k] == starts[k]);
        lemma_due_of_holds(event_id, before, reminders, start, end, k, n);
        let m = choose|m: int| 0 <= m < first.len() && first[m] == wanted;
        assert(out[m] == wanted);
    } else {
        lemma_due_at_holds(event_id, occurrence, reminders, start, end, n);
        let m = choose|m: int| 0 <= m < last.len() && last[m] == wanted;
        assert(out[first.len() + m] == wanted);
    }
}

/// An event that does not repeat starts at its start, or at the midnight of its first day; one that does
/// not run forward does not start.
pub proof fn law_start_of_an_event(schedule: ScheduleView, offset: int)
    ensures
        !schedule.runs_forward() ==> event_start(schedule, offset) is None,
        schedule.runs_forward() ==> (schedule matches ScheduleView::Timed { start, .. } ==> event_start(
            schedule,
            offset,
        ) == Some(start@)),
        schedule.runs_forward() ==> (schedule matches ScheduleView::AllDay { start_date, .. } ==> {
            let first = DateTimeView {
                seconds: (start_date@ - 719163) * 86400 - offset,
                nanos: 0,
                offset,
            };
            event_start(schedule, offset) == if first.valid() {
                Some(first)
            } else {
                None
            }
        }),
{
}

/// The rule of an event with times is asked for its dates wherever it has a text and the bounds are
/// there.
pub proof fn law_rules_are_asked(
    start: DateTime,
    end: DateTime,
    timezone: Option<Seq<char>>,
    recurrence: RecurrenceView,
    reminders: Seq<ReminderView>,
    from: DateTime,
    to: DateTime,
)
    ensures
        ({
            let schedule = ScheduleView::Timed { start, end, timezone };
            query_of(schedule, recurrence, reminders, from, to) is Some <==> recurrence_source(
                schedule,
                recurrence,
            ) is Some && bounds(reminders, from, to) is Some
        }),
{
}

} // verus!
