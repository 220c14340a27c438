//! What an agenda shows.
use vstd::prelude::*;

use crate::agenda_presentation;
use crate::date;
use crate::date::Date;
use crate::expansion;
use crate::expansion::ProjectedView;
use crate::lists;
use crate::model;
use crate::model::{Calendar, CalendarView, Event, EventView};
use crate::month_view;
use crate::month_view::{AgendaGroup, Day, GroupView, ViewerZone};
use crate::upcoming;

verus! {

/// The days that an agenda looks at.
#[derive(Clone, Copy, Debug, PartialEq, Eq, Structural)]
pub struct AgendaRange {
    pub start_date: Date,
    pub end_date_exclusive: Date,
}

/// The day a number of days after another; the day itself where there is none.
pub open spec fn days_after(day: int, days: int) -> int {
    if date::is_day(day + days) {
        day + days
    } else {
        day
    }
}

/// The day a number of days after another.
fn add_days(day: &Date, days: i64) -> (r: Date)
    ensures
        r@ == days_after(day@, days as int),
{
    match day.plus_days(days) {
        Some(later) => later,
        None => *day,
    }
}

/// A number, or zero where it is negative.
pub open spec fn not_negative(n: i64) -> int {
    if n < 0 {
        0
    } else {
        n as int
    }
}

/// The later of two days.
pub open spec fn later_day(a: int, b: int) -> int {
    if a < b {
        b
    } else {
        a
    }
}

/// The day before which a range ends that took in a day and the day after it: two days after the day
/// where the calendar goes so far.
pub open spec fn end_with(start: int, end: int, target: int) -> int {
    if target < start {
        end
    } else if date::is_day(target + 2) {
        later_day(end, target + 2)
    } else if date::is_day(target + 1) {
        later_day(end, target + 1)
    } else {
        end
    }
}

impl AgendaRange {
    /// A range from today on.
    pub fn new(today: &Date, initial_future_days: i64) -> (r: AgendaRange)
        ensures
            r.start_date@ == today@,
            r.end_date_exclusive@ == days_after(today@, not_negative(initial_future_days)),
    {
        let days: i64 = if initial_future_days < 0 {
            0
        } else {
            initial_future_days
        };
        AgendaRange { start_date: *today, end_date_exclusive: add_days(today, days) }
    }

    /// Take in a day and the day after it, and all days up to them. The start stays: a day before it
    /// changes nothing.
    pub fn ensure_target(&mut self, target: &Date)
        ensures
            final(self).start_date@ == old(self).start_date@,
            final(self).end_date_exclusive@ == end_with(
                old(self).start_date@,
                old(self).end_date_exclusive@,
                target@,
            ),
    {
        if target.before(&self.start_date) {
            return;
        }
        let wanted = match target.plus_days(2) {
            Some(end) => Some(end),
            None => target.succ_opt(),
        };
        if let Some(end) = wanted {
            if self.end_date_exclusive.before(&end) {
                self.end_date_exclusive = end;
            }
        }
    }

    /// Take in a number of days after the range.
    pub fn extend_bottom(&mut self, days: i64)
        ensures
            final(self).start_date@ == old(self).start_date@,
            final(self).end_date_exclusive@ == days_after(
                old(self).end_date_exclusive@,
                not_negative(days),
            ),
    {
        let days: i64 = if days < 0 {
            0
        } else {
            days
        };
        self.end_date_exclusive = add_days(&self.end_date_exclusive, days);
    }
}

/// A range that took in a day of its own or a later one holds that day and the day after it, and
/// every day that it held, and begins where it began.
pub proof fn law_target_is_in_range(start: int, end: int, target: int, day: int)
    requires
        start <= target,
        date::is_day(target + 2),
    ensures
        start <= target < end_with(start, end, target),
        start <= target + 1 < end_with(start, end, target),
        start <= day < end ==> start <= day < end_with(start, end, target),
{
}

/// What an agenda shows.
#[derive(Debug)]
pub enum AgendaRenderPlan {
    /// That nothing comes.
    NoUpcoming,
    Groups(Vec<AgendaGroup>),
}

/// The values of an [`AgendaRenderPlan`].
pub enum PlanView {
    NoUpcoming,
    Groups(Seq<GroupView>),
}

impl View for AgendaRenderPlan {
    type V = PlanView;

    open spec fn view(&self) -> PlanView {
        match *self {
            AgendaRenderPlan::NoUpcoming => PlanView::NoUpcoming,
            AgendaRenderPlan::Groups(groups) => PlanView::Groups(lists::views_of(groups@)),
        }
    }
}

/// Groups without the days without events at their end.
pub open spec fn trimmed(groups: Seq<GroupView>) -> Seq<GroupView>
    decreases groups.len(),
{
    if groups.len() > 0 && groups.last() is EmptyRange {
        trimmed(groups.drop_last())
    } else {
        groups
    }
}

/// Groups without the days without events at their end.
fn trim_trailing_empty_ranges(groups: Vec<AgendaGroup>) -> (r: Vec<AgendaGroup>)
    ensures
        lists::views_of(r@) == trimmed(lists::views_of(groups@)),
{
    let mut out = groups;
    let ghost all = lists::views_of(groups@);
    while out.len() > 0
        invariant
            trimmed(all) == trimmed(lists::views_of(out@)),
            all == lists::views_of(groups@),
        decreases out@.len(),
    {
        let ghost before = out@;
        let last: usize = out.len() - 1;
        let is_empty = match &out[last] {
            AgendaGroup::EmptyRange { .. } => true,
            AgendaGroup::EventDay(_) => false,
        };
        assert(lists::views_of(before).last() == before[last as int]@);
        if !is_empty {
            return out;
        }
        let _ = out.pop();
        assert(lists::views_of(out@) =~= lists::views_of(before).drop_last());
    }
    out
}

/// What an agenda shows of groups.
pub open spec fn plan_of(groups: Seq<GroupView>, today: Date) -> PlanView {
    let shown = agenda_presentation::displayed(trimmed(groups), today);
    if agenda_presentation::has_none_upcoming(shown, today@) {
        PlanView::NoUpcoming
    } else {
        PlanView::Groups(shown)
    }
}

/// What an agenda shows of groups.
pub fn make_plan(groups: Vec<AgendaGroup>, today: &Date) -> (r: AgendaRenderPlan)
    ensures
        r@ == plan_of(lists::views_of(groups@), *today),
{
    let kept = trim_trailing_empty_ranges(groups);
    let shown = agenda_presentation::display_groups(&kept, today);
    if agenda_presentation::has_no_upcoming_events(&shown, today) {
        AgendaRenderPlan::NoUpcoming
    } else {
        AgendaRenderPlan::Groups(shown)
    }
}

/// Where an agenda ends: where its range does, or after the first day that shows an event.
pub open spec fn agenda_end(range_end: int, earliest: Option<int>) -> int {
    match earliest {
        Some(day) => if date::is_day(day + 1) && day + 1 > range_end {
            day + 1
        } else {
            range_end
        },
        None => range_end,
    }
}

/// Where an agenda ends.
pub fn make_agenda_end(range_end: &Date, earliest: &Option<Date>) -> (r: Date)
    ensures
        r@ == agenda_end(range_end@, upcoming::day_view(*earliest)),
{
    match earliest {
        Some(day) => match day.succ_opt() {
            Some(end) => if range_end.before(&end) {
                end
            } else {
                *range_end
            },
            None => *range_end,
        },
        None => *range_end,
    }
}

/// Whether a day is the first from today on that shows an event of a visible calendar.
pub open spec fn is_first_shown(
    day: Option<int>,
    today: int,
    calendars: Seq<CalendarView>,
    events: Seq<EventView>,
    offset: i32,
) -> bool {
    exists|days: Seq<Option<int>>|
        days.len() == events.len() && (forall|i: int|
            0 <= i < days.len() ==> upcoming::is_earliest(
                #[trigger] days[i],
                events[i],
                today,
                offset,
            )) && day == #[trigger] upcoming::earliest_visible(days, events, calendars)
}

/// Whether groups are those of the days from today to an end.
pub open spec fn are_groups(
    groups: Seq<GroupView>,
    today: Date,
    end: Date,
    calendars: Seq<CalendarView>,
    events: Seq<EventView>,
    viewer: ViewerZone,
) -> bool {
    if today@ >= end@ {
        groups.len() == 0
    } else {
        exists|days: Seq<Day>, shown: Seq<ProjectedView>|
            month_view::is_range(days, today@, end@) && #[trigger] expansion::are_shown(
                shown,
                expansion::plain_masters(events),
                today@,
                end@ - 1,
            ) && groups == #[trigger] month_view::range_groups(
                today,
                end,
                days,
                calendars,
                month_view::localized(viewer, shown),
            )
    }
}

/// What an agenda shows from today on, by clocks with an offset.
pub fn render_agenda(
    today: &Date,
    range: &AgendaRange,
    calendars: &Vec<Calendar>,
    events: &Vec<Event>,
    offset: i32,
) -> (r: AgendaRenderPlan)
    requires
        date::is_offset(offset as int),
    ensures
        exists|earliest: Option<int>, end: Date, groups: Seq<GroupView>|
            #[trigger] is_first_shown(
                earliest,
                today@,
                model::calendar_views(calendars@),
                model::event_views(events@),
                offset,
            ) && end@ == agenda_end(range.end_date_exclusive@, earliest) && #[trigger] are_groups(
                groups,
                *today,
                end,
                model::calendar_views(calendars@),
                model::event_views(events@),
                ViewerZone::Offset(offset),
            ) && r@ == plan_of(groups, *today),
{
    let ghost colours = model::calendar_views(calendars@);
    let ghost views = model::event_views(events@);
    let earliest = upcoming::earliest_projected_event_date_in_timezone(
        today,
        calendars,
        events,
        offset,
    );
    assert(is_first_shown(upcoming::day_view(earliest), today@, colours, views, offset)) by {
        let days = choose|days: Seq<Option<int>>|
            days.len() == events@.len() && (forall|i: int|
                0 <= i < days.len() ==> upcoming::is_earliest(
                    #[trigger] days[i],
                    events@[i]@,
                    today@,
                    offset,
                )) && upcoming::day_view(earliest) == #[trigger] upcoming::earliest_visible(
                days,
                views,
                colours,
            );
        assert forall|i: int| 0 <= i < days.len() implies upcoming::is_earliest(
            #[trigger] days[i],
            views[i],
            today@,
            offset,
        ) by {
            assert(views[i] == events@[i]@);
        }
        assert(upcoming::day_view(earliest) == upcoming::earliest_visible(days, views, colours));
    }
    let end = make_agenda_end(&range.end_date_exclusive, &earliest);
    let viewer = ViewerZone::Offset(offset);
    let groups = month_view::project_agenda_range_in_timezone(
        today,
        &end,
        calendars,
        events,
        &viewer,
    );
    let ghost shown = lists::views_of(groups@);
    assert(are_groups(shown, *today, end, colours, views, viewer));
    make_plan(groups, today)
}

/// A plan that shows groups shows a day with events from today on.
pub proof fn law_plan_shows_something(groups: Seq<GroupView>, today: Date)
    requires
        plan_of(groups, today) is Groups,
    ensures
        plan_of(groups, today)->Groups_0.len() > 0,
        exists|i: int|
            0 <= i < plan_of(groups, today)->Groups_0.len() && agenda_presentation::is_upcoming(
                #[trigger] plan_of(groups, today)->Groups_0[i],
                today@,
            ),
{
    let shown = agenda_presentation::displayed(trimmed(groups), today);
    assert(!agenda_presentation::has_none_upcoming(shown, today@));
    let i = choose|i: int|
        0 <= i < shown.len() && agenda_presentation::is_upcoming(#[trigger] shown[i], today@);
    assert(plan_of(groups, today)->Groups_0[i] == shown[i]);
}

/// What is shown ends with a day that has events: the ranges without any at the end are left out, and
/// nothing else is.
pub proof fn law_agenda_ends_with_events(groups: Seq<GroupView>)
    ensures
        trimmed(groups).len() <= groups.len(),
        trimmed(groups) == groups.take(trimmed(groups).len() as int),
        trimmed(groups).len() > 0 ==> trimmed(groups).last() is EventDay,
        forall|i: int| trimmed(groups).len() <= i < groups.len() ==> #[trigger] groups[i] is EmptyRange,
    decreases groups.len(),
{
    if groups.len() > 0 && groups.last() is EmptyRange {
        let before = groups.drop_last();
        law_agenda_ends_with_events(before);
        assert(before.take(trimmed(before).len() as int) =~= groups.take(trimmed(before).len() as int));
        assert forall|i: int| trimmed(groups).len() <= i < groups.len() implies #[trigger] groups[i]
            is EmptyRange by {
            if i < before.len() {
                assert(before[i] == groups[i]);
            }
        }
    } else {
        assert(groups.take(groups.len() as int) =~= groups);
    }
}

/// That nothing comes is said exactly where no day with events is today or later.
pub proof fn law_when_nothing_comes(groups: Seq<GroupView>, today: Date)
    ensures
        plan_of(groups, today) is NoUpcoming <==> forall|i: int|
            0 <= i < groups.len() ==> !(#[trigger] groups[i] matches GroupView::EventDay(day)
                && day.date@ >= today@),
{
    let kept = trimmed(groups);
    let shown = agenda_presentation::displayed(kept, today);
    law_agenda_ends_with_events(groups);
    if plan_of(groups, today) is NoUpcoming {
        assert forall|i: int| 0 <= i < groups.len() implies !(#[trigger] groups[i] matches GroupView::EventDay(
            day,
        ) && day.date@ >= today@) by {
            if let GroupView::EventDay(day) = groups[i] {
                assert(i < kept.len());
                assert(kept[i] == groups[i]);
                assert(kept.contains(GroupView::EventDay(day)));
                agenda_presentation::law_days_from_today_are_shown(kept, today, day);
                if day.date@ >= today@ {
                    let k = choose|k: int|
                        0 <= k < shown.len() && shown[k] == GroupView::EventDay(day);
                    assert(agenda_presentation::is_upcoming(shown[k], today@));
                }
            }
        }
    } else {
        let k = choose|k: int|
            0 <= k < shown.len() && agenda_presentation::is_upcoming(#[trigger] shown[k], today@);
        let day = shown[k]->EventDay_0;
        assert(shown.contains(GroupView::EventDay(day)));
        agenda_presentation::law_days_from_today_are_shown(kept, today, day);
        let n = choose|n: int| 0 <= n < kept.len() && kept[n] == GroupView::EventDay(day);
        assert(groups[n] == GroupView::EventDay(day));
    }
}

/// The agenda reaches past the first day that shows an event where that lies beyond its end.
pub proof fn law_agenda_reaches_the_first_event(range_end: int, earliest: Option<int>)
    ensures
        agenda_end(range_end, earliest) >= range_end,
        earliest is None ==> agenda_end(range_end, earliest) == range_end,
        earliest matches Some(day) ==> date::is_day(day + 1) ==> day < agenda_end(range_end, earliest)
            && (day < range_end ==> agenda_end(range_end, earliest) == range_end) && (day >= range_end
            ==> agenda_end(range_end, earliest) == day + 1),
{
}

/// A range of days begins and ends so many days away, where those days are representable.
pub proof fn law_days_away(day: int, days: i64)
    ensures
        date::is_day(day + days) ==> days_after(day, days as int) == day + days,
        !date::is_day(day + days) ==> days_after(day, days as int) == day,
        days < 0 ==> not_negative(days) == 0,
        days >= 0 ==> not_negative(days) == days,
{
}

/// The first day with an event that is shown is the first day of one of the events in calendars that
/// are shown; where there is none, none of these events has one.
pub proof fn law_first_day_that_is_shown(
    day: Option<int>,
    today: int,
    calendars: Seq<CalendarView>,
    events: Seq<EventView>,
    offset: i32,
)
    requires
        is_first_shown(day, today, calendars, events, offset),
    ensures
        day is Some ==> exists|i: int|
            0 <= i < events.len() && upcoming::is_earliest(day, #[trigger] events[i], today, offset)
                && month_view::visible_calendar(calendars, events[i].calendar_id) is Some,
        day is None ==> forall|i: int|
            0 <= i < events.len() && month_view::visible_calendar(
                calendars,
                (#[trigger] events[i]).calendar_id,
            ) is Some ==> upcoming::is_earliest(None, events[i], today, offset),
{
    let days = choose|days: Seq<Option<int>>|
        days.len() == events.len() && (forall|i: int|
            0 <= i < days.len() ==> upcoming::is_earliest(
                #[trigger] days[i],
                events[i],
                today,
                offset,
            )) && day == #[trigger] upcoming::earliest_visible(days, events, calendars);
    upcoming::law_earliest_of_the_shown(days, events, calendars);
    if day is Some {
        let i = choose|i: int|
            0 <= i < events.len() && days[i] == day && month_view::visible_calendar(
                calendars,
                (#[trigger] events[i]).calendar_id,
            ) is Some;
        assert(upcoming::is_earliest(days[i], events[i], today, offset));
    } else {
        assert forall|i: int|
            0 <= i < events.len() && month_view::visible_calendar(
                calendars,
                (#[trigger] events[i]).calendar_id,
            ) is Some implies upcoming::is_earliest(None, events[i], today, offset) by {
            assert(upcoming::is_earliest(days[i], events[i], today, offset));
        }
    }
}

/// The agenda holds nothing before today and nothing from its end on.
pub proof fn law_agenda_lies_between_its_ends(
    groups: Seq<GroupView>,
    today: Date,
    end: Date,
    calendars: Seq<CalendarView>,
    events: Seq<EventView>,
    viewer: ViewerZone,
    day: month_view::DayView,
)
    requires
        are_groups(groups, today, end, calendars, events, viewer),
        groups.contains(GroupView::EventDay(day)),
    ensures
        today@ <= day.date@ < end@,
        day.all_day.len() > 0 || day.timed.len() > 0,
{
    if today@ < end@ {
        let (days, shown) = choose|days: Seq<Day>, shown: Seq<ProjectedView>|
            month_view::is_range(days, today@, end@) && #[trigger] expansion::are_shown(
                shown,
                expansion::plain_masters(events),
                today@,
                end@ - 1,
            ) && groups == #[trigger] month_view::range_groups(
                today,
                end,
                days,
                calendars,
                month_view::localized(viewer, shown),
            );
        let all = month_view::projected(days, calendars, month_view::localized(viewer, shown));
        month_view::law_groups_show_the_days_with_events(all, None, end, day);
        let i = choose|i: int| 0 <= i < all.len() && all[i] == day;
        assert(days[i].0@ == today@ + i);
    }
}

} // verus!
