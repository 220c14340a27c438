//! The first day from today on that shows an event.
use vstd::prelude::*;

use crate::backend::occurrences;
use crate::date;
use crate::date::{Date, DateTime, DateTimeView};
use crate::expansion;
use crate::lists;
use crate::model;
use crate::model::{Calendar, CalendarView, Event, EventView, ScheduleView};
use crate::month_view;
use crate::month_view::{ViewerLocalSchedule, ViewerZone};
use crate::rules;
use crate::sorting;

verus! {

/// How many occurrences from today on are looked at beside the start.
pub const LOOKAHEAD: u16 = 2;

/// The first day from today on that an event touches.
pub open spec fn first_day(local: ViewerLocalSchedule, today: int) -> Option<int> {
    match month_view::date_bounds(local) {
        Some((first, last)) => if last < today {
            None
        } else if first < today {
            Some(today)
        } else {
            Some(first)
        },
        None => None,
    }
}

/// The earlier of two days, where there are any.
pub open spec fn earlier(a: Option<int>, b: Option<int>) -> Option<int> {
    match (a, b) {
        (Some(x), Some(y)) => if y < x {
            Some(y)
        } else {
            Some(x)
        },
        (Some(x), None) => Some(x),
        (None, _) => b,
    }
}

/// The first day from today on that an event touches, by clocks with an offset.
pub open spec fn first_day_of(event: EventView, today: int, viewer: ViewerZone) -> Option<int> {
    first_day(month_view::local_schedule(viewer, event.schedule), today)
}

/// The first day from today on that one of a list of events touches.
pub open spec fn first_day_among(events: Seq<EventView>, today: int, viewer: ViewerZone) -> Option<int>
    decreases events.len(),
{
    if events.len() == 0 {
        None
    } else {
        earlier(
            first_day_among(events.drop_last(), today, viewer),
            first_day_of(events.last(), today, viewer),
        )
    }
}

/// What the recurrence of an event gives from some instant on.
pub struct Upcoming {
    pub lower: DateTime,
    pub start: DateTime,
    pub excluded: Vec<DateTime>,
    pub dates: Vec<DateTime>,
}

/// The values of an [`Upcoming`].
pub struct UpcomingView {
    pub lower: DateTimeView,
    pub start: DateTimeView,
    pub excluded: Seq<DateTimeView>,
    pub dates: Seq<DateTimeView>,
}

impl View for Upcoming {
    type V = UpcomingView;

    open spec fn view(&self) -> UpcomingView {
        UpcomingView {
            lower: self.lower@,
            start: self.start@,
            excluded: lists::views_of(self.excluded@),
            dates: lists::views_of(self.dates@),
        }
    }
}

/// The occurrences that are looked at: those that were found, and the start unless it is left out,
/// each once and in order.
pub open spec fn candidates(found: UpcomingView) -> Seq<DateTimeView> {
    let all = if found.lower.before(found.start) && !occurrences::some_at_second(
        found.excluded,
        found.start.seconds,
    ) {
        found.dates.push(found.start)
    } else {
        found.dates
    };
    sorting::deduplicated(sorting::sorted(all, sorting::by_instant()), sorting::one_instant())
}

/// The first day from today on that shows an event, by what its recurrence gives: by its own schedule
/// where it has none that can be read.
pub open spec fn earliest_day(
    event: EventView,
    today: int,
    viewer: ViewerZone,
    found: Option<UpcomingView>,
) -> Option<int> {
    match (event.recurrence, found) {
        (Some(_), Some(found)) => first_day_among(
            expansion::occurrence_events(event, candidates(found)),
            today,
            viewer,
        ),
        _ => first_day_of(event, today, viewer),
    }
}

/// The values of an optional day.
pub open spec fn day_view(day: Option<Date>) -> Option<int> {
    match day {
        Some(day) => Some(day@),
        None => None,
    }
}

/// The first day from today on that an event touches.
fn make_first_day(event: &Event, today: &Date, viewer: &ViewerZone) -> (r: Option<Date>)
    ensures
        day_view(r) == first_day_of(event@, today@, *viewer),
{
    let local = match &event.schedule {
        model::EventSchedule::AllDay { start_date, end_date_exclusive } => ViewerLocalSchedule::AllDay {
            start_date: *start_date,
            end_date_exclusive: *end_date_exclusive,
        },
        model::EventSchedule::Timed { start, end, .. } => {
            let start = viewer.localize(start);
            let end = viewer.localize(end);
            proof {
                date::lemma_date_time_of_view(start);
                date::lemma_date_time_of_view(end);
            }
            ViewerLocalSchedule::Timed { start, end }
        },
    };
    match month_view::event_date_bounds(&local) {
        Some((first, last)) => if last.before(today) {
            None
        } else if first.before(today) {
            Some(*today)
        } else {
            Some(first)
        },
        None => None,
    }
}

/// The earlier of two days, where there are any.
fn pick_earlier(a: Option<Date>, b: Option<Date>) -> (r: Option<Date>)
    ensures
        day_view(r) == earlier(day_view(a), day_view(b)),
{
    match (a, b) {
        (Some(x), Some(y)) => if y.before(&x) {
            Some(y)
        } else {
            Some(x)
        },
        (Some(x), None) => Some(x),
        (None, b) => b,
    }
}

/// The first day from today on that one of a list of events touches.
fn make_first_day_among(events: &Vec<Event>, today: &Date, viewer: &ViewerZone) -> (r: Option<Date>)
    ensures
        day_view(r) == first_day_among(lists::views_of(events@), today@, *viewer),
{
    let ghost all = lists::views_of(events@);
    let mut best: Option<Date> = None;
    assert(day_view(best) == first_day_among(all.take(0), today@, *viewer));
    for i in 0..events.len()
        invariant
            all == lists::views_of(events@),
            day_view(best) == first_day_among(all.take(i as int), today@, *viewer),
    {
        proof {
            lists::lemma_views_take(events@, i as int);
        }
        best = pick_earlier(best, make_first_day(&events[i], today, viewer));
    }
    proof {
        lists::lemma_views_all(events@);
    }
    best
}

/// Whether some instant is in a second.
fn is_some_at_second(instants: &Vec<DateTime>, seconds: i64) -> (r: bool)
    ensures
        r == occurrences::some_at_second(lists::views_of(instants@), seconds as int),
{
    let ghost views = lists::views_of(instants@);
    for i in 0..instants.len()
        invariant
            views == lists::views_of(instants@),
            forall|k: int| 0 <= k < i ==> (#[trigger] views[k]).seconds != seconds,
    {
        if instants[i].timestamp() == seconds {
            assert(views[i as int].seconds == seconds);
            return true;
        }
    }
    false
}

/// The occurrences that are looked at.
fn make_candidates(found: &Upcoming) -> (r: Vec<DateTime>)
    ensures
        lists::views_of(r@) == candidates(found@),
{
    let mut all: Vec<DateTime> = Vec::new();
    for i in 0..found.dates.len()
        invariant
            all@.len() == i,
            forall|k: int| 0 <= k < i ==> #[trigger] all@[k] == found.dates@[k],
    {
        all.push(found.dates[i]);
    }
    let ghost before = all@;
    assert(lists::views_of(before) =~= found@.dates);
    if found.lower.before(&found.start) && !is_some_at_second(
        &found.excluded,
        found.start.timestamp(),
    ) {
        all.push(found.start);
        proof {
            lists::lemma_views_push(before, found.start);
        }
    }
    sorting::without_same_instants(&sorting::sort(all))
}

/// The first day from today on that shows an event, by what its recurrence gives.
pub fn earliest_given(event: &Event, today: &Date, viewer: &ViewerZone, found: &Option<Upcoming>) -> (r: Option<
    Date,
>)
    ensures
        day_view(r) == earliest_day(event@, today@, *viewer, lists::view_of(*found)),
{
    match (&event.recurrence, found) {
        (Some(_), Some(found)) => {
            let dates = make_candidates(found);
            let some = Some(dates);
            let events = expansion::expand_given(event, &some);
            make_first_day_among(&events, today, viewer)
        },
        _ => make_first_day(event, today, viewer),
    }
}

/// What is looked at of the recurrence of an event: from its length and a second before midnight of
/// today on. The clocks of the machine are read three times: for the start, the excluded dates and
/// the occurrences.
pub open spec fn upcoming_by(
    event: EventView,
    today: int,
    offset: int,
    start_clocks: Seq<char>,
    exclusion_clocks: Seq<char>,
    clocks: Seq<char>,
) -> Option<UpcomingView> {
    match event.recurrence {
        None => None,
        Some(recurrence) => match (
            expansion::recurrence_source(event.schedule, recurrence),
            lower_bound(event.schedule, today, offset),
        ) {
            (Some(source), Some(lower)) => match (
                rules::start_by(source, start_clocks),
                rules::exdates_by(source, exclusion_clocks),
                rules::occurrences_after_by(source, lower@, LOOKAHEAD, clocks),
            ) {
                (Some(start), Some(excluded), Some(dates)) => Some(
                    UpcomingView { lower: lower@, start, excluded, dates },
                ),
                _ => None,
            },
            _ => None,
        },
    }
}

/// What is looked at of the recurrence of an event that means the same by all clocks.
pub open spec fn upcoming_of(event: EventView, today: int, offset: int) -> Option<UpcomingView> {
    upcoming_by(
        event,
        today,
        offset,
        rules::any_clocks(),
        rules::any_clocks(),
        rules::any_clocks(),
    )
}

/// Whether something is what is looked at of the recurrence of an event.
pub open spec fn is_upcoming(found: Option<UpcomingView>, event: EventView, today: int, offset: int) -> bool {
    &&& expansion::is_zoned_event(event) ==> found == upcoming_of(event, today, offset)
    &&& exists|start_clocks: Seq<char>, exclusion_clocks: Seq<char>, clocks: Seq<char>|
        found == #[trigger] upcoming_by(
            event,
            today,
            offset,
            start_clocks,
            exclusion_clocks,
            clocks,
        )
}

/// From when on the occurrences of an event are looked at.
pub open spec fn lower_bound(schedule: ScheduleView, today: int, offset: int) -> Option<DateTime> {
    let midnight = crate::backend::reminders::midnight(today, offset);
    if midnight.valid() {
        expansion::lead_in(date::date_time_of(midnight), expansion::length_of(schedule))
    } else {
        None
    }
}

/// What is looked at of the recurrence of an event.
fn find_upcoming(event: &Event, today: &Date, offset: i32) -> (r: Option<Upcoming>)
    requires
        date::is_offset(offset as int),
    ensures
        is_upcoming(lists::view_of(r), event@, today@, offset as int),
{
    let ghost any = rules::any_clocks();
    let recurrence = match &event.recurrence {
        Some(recurrence) => recurrence,
        None => {
            assert(upcoming_by(event@, today@, offset as int, any, any, any) is None);
            return None;
        },
    };
    assert(event@.recurrence == Some(recurrence@));
    let source = match expansion::make_recurrence_source(&event.schedule, recurrence) {
        Some(source) => source,
        None => {
            assert(upcoming_by(event@, today@, offset as int, any, any, any) is None);
            return None;
        },
    };
    let midnight = match DateTime::new(
        (today.days() as i64 - date::EPOCH_DAY) * date::DAY_SECONDS - offset as i64,
        0,
        offset,
    ) {
        Some(midnight) => midnight,
        None => {
            assert(upcoming_by(event@, today@, offset as int, any, any, any) is None);
            return None;
        },
    };
    proof {
        date::lemma_date_time_of_view(midnight);
    }
    let lower = match expansion::make_lead_in(&midnight, expansion::make_length(&event.schedule)) {
        Some(lower) => lower,
        None => {
            assert(upcoming_by(event@, today@, offset as int, any, any, any) is None);
            return None;
        },
    };
    let start = rules::start(source.as_str());
    let excluded = rules::exdates(source.as_str());
    let dates = rules::occurrences_after(source.as_str(), &lower, LOOKAHEAD);
    let ghost start_clocks = choose|clocks: Seq<char>|
        lists::view_of(start) == #[trigger] rules::start_by(source@, clocks);
    let ghost exclusion_clocks = choose|clocks: Seq<char>|
        rules::optional_views(excluded) == #[trigger] rules::exdates_by(source@, clocks);
    let ghost clocks = choose|clocks: Seq<char>|
        rules::optional_views(dates) == #[trigger] rules::occurrences_after_by(
            source@,
            lower@,
            LOOKAHEAD,
            clocks,
        );
    let r = match (start, excluded, dates) {
        (Some(start), Some(excluded), Some(dates)) => {
            assert(rules::instant_views(dates@) =~= lists::views_of(dates@));
            assert(rules::instant_views(excluded@) =~= lists::views_of(excluded@));
            Some(Upcoming { lower, start, excluded, dates })
        },
        _ => None,
    };
    assert(lists::view_of(r) == upcoming_by(
        event@,
        today@,
        offset as int,
        start_clocks,
        exclusion_clocks,
        clocks,
    ));
    r
}

/// Whether a day is the first from today on that shows an event.
pub open spec fn is_earliest(day: Option<int>, event: EventView, today: int, offset: i32) -> bool {
    exists|found: Option<UpcomingView>|
        #[trigger] is_upcoming(found, event, today, offset as int) && day == earliest_day(
            event,
            today,
            ViewerZone::Offset(offset),
            found,
        )
}

/// The first day from today on that shows an event, by clocks with an offset.
pub fn earliest_event_date(event: &Event, today: &Date, offset: i32) -> (r: Option<Date>)
    requires
        date::is_offset(offset as int),
    ensures
        is_earliest(day_view(r), event@, today@, offset),
{
    let viewer = ViewerZone::Offset(offset);
    let found = find_upcoming(event, today, offset);
    let ghost given = lists::view_of(found);
    assert(is_upcoming(given, event@, today@, offset as int));
    earliest_given(event, today, &viewer, &found)
}

/// The earliest of the days of those events whose calendars are visible.
pub open spec fn earliest_visible(
    days: Seq<Option<int>>,
    events: Seq<EventView>,
    calendars: Seq<CalendarView>,
) -> Option<int>
    decreases events.len(),
{
    if events.len() == 0 {
        None
    } else {
        let before = earliest_visible(days, events.drop_last(), calendars);
        if month_view::visible_calendar(calendars, events.last().calendar_id) is Some {
            earlier(before, days[events.len() - 1])
        } else {
            before
        }
    }
}

/// The first day from today on that shows an event of a visible calendar, by clocks with an offset.
pub fn earliest_projected_event_date_in_timezone(
    today: &Date,
    calendars: &Vec<Calendar>,
    events: &Vec<Event>,
    offset: i32,
) -> (r: Option<Date>)
    requires
        date::is_offset(offset as int),
    ensures
        exists|days: Seq<Option<int>>|
            days.len() == events@.len() && (forall|i: int|
                0 <= i < days.len() ==> is_earliest(
                    #[trigger] days[i],
                    events@[i]@,
                    today@,
                    offset,
                )) && day_view(r) == #[trigger] earliest_visible(
                days,
                model::event_views(events@),
                model::calendar_views(calendars@),
            ),
{
    let ghost all = model::event_views(events@);
    let ghost colours = model::calendar_views(calendars@);
    let ghost mut days: Seq<Option<int>> = seq![];
    let mut best: Option<Date> = None;
    assert(day_view(best) == earliest_visible(days, all.take(0), colours));
    for i in 0..events.len()
        invariant
            date::is_offset(offset as int),
            all == model::event_views(events@),
            colours == model::calendar_views(calendars@),
            days.len() == i,
            forall|k: int|
                0 <= k < i ==> is_earliest(#[trigger] days[k], events@[k]@, today@, offset),
            day_view(best) == earliest_visible(days, all.take(i as int), colours),
    {
        let day = earliest_event_date(&events[i], today, offset);
        let ghost before = days;
        proof {
            days = days.push(day_view(day));
            assert(all.take(i + 1).drop_last() =~= all.take(i as int));
            assert(all.take(i + 1).last() == events@[i as int]@);
            lemma_more_days(before, days, all.take(i as int), colours);
        }
        if month_view::is_calendar_visible(calendars, events[i].calendar_id) {
            best = pick_earlier(best, day);
        }
    }
    assert(all.take(all.len() as int) =~= all);
    best
}

/// Days beyond the events change nothing.
proof fn lemma_more_days(
    days: Seq<Option<int>>,
    more: Seq<Option<int>>,
    events: Seq<EventView>,
    calendars: Seq<CalendarView>,
)
    requires
        events.len() <= days.len() <= more.len(),
        forall|i: int| 0 <= i < days.len() ==> days[i] == more[i],
    ensures
        earliest_visible(days, events, calendars) == earliest_visible(more, events, calendars),
    decreases events.len(),
{
    if events.len() > 0 {
        lemma_more_days(days, more, events.drop_last(), calendars);
    }
}

/// Whatever the recurrence gives, the first day that shows an event is not before today.
pub proof fn law_earliest_is_not_past(
    event: EventView,
    today: int,
    viewer: ViewerZone,
    found: Option<UpcomingView>,
)
    ensures
        earliest_day(event, today, viewer, found) matches Some(day) ==> day >= today,
{
    if event.recurrence is Some && found is Some {
        lemma_among_is_not_past(
            expansion::occurrence_events(event, candidates(found->0)),
            today,
            viewer,
        );
    }
}

proof fn lemma_among_is_not_past(events: Seq<EventView>, today: int, viewer: ViewerZone)
    ensures
        first_day_among(events, today, viewer) matches Some(day) ==> day >= today,
    decreases events.len(),
{
    if events.len() > 0 {
        lemma_among_is_not_past(events.drop_last(), today, viewer);
    }
}

/// The first day of an event from today on is the earliest day, not before today, that it touches.
pub proof fn law_first_day_from_today(local: ViewerLocalSchedule, today: int, first: int, last: int, day: int)
    requires
        month_view::date_bounds(local) == Some((first, last)),
        first <= last,
    ensures
        first_day(local, today) is Some <==> last >= today,
        first_day(local, today) matches Some(found) ==> found >= today && first <= found <= last,
        first_day(local, today) matches Some(found) ==> today <= day < found ==> !(first <= day <= last),
        month_view::date_bounds(local) is None ==> first_day(local, today) is None,
{
}

/// The first day among events is the earliest of their first days.
pub proof fn law_first_day_among_events(events: Seq<EventView>, today: int, viewer: ViewerZone)
    ensures
        forall|i: int|
            0 <= i < events.len() ==> (first_day_of(#[trigger] events[i], today, viewer) matches Some(day)
                ==> (first_day_among(events, today, viewer) matches Some(found) && found <= day)),
        first_day_among(events, today, viewer) is Some ==> exists|i: int|
            0 <= i < events.len() && first_day_of(#[trigger] events[i], today, viewer) == first_day_among(
                events,
                today,
                viewer,
            ),
    decreases events.len(),
{
    if events.len() > 0 {
        let shorter = events.drop_last();
        law_first_day_among_events(shorter, today, viewer);
        let before = first_day_among(shorter, today, viewer);
        let last = events[events.len() - 1];
        assert forall|i: int| 0 <= i < events.len() implies (first_day_of(
            #[trigger] events[i],
            today,
            viewer,
        ) matches Some(day) ==> (first_day_among(events, today, viewer) matches Some(found) && found
            <= day)) by {
            if i < shorter.len() {
                assert(shorter[i] == events[i]);
            }
        }
        if first_day_among(events, today, viewer) is Some {
            if first_day_among(events, today, viewer) == first_day_of(last, today, viewer) {
                assert(first_day_of(events[events.len() - 1], today, viewer) == first_day_among(
                    events,
                    today,
                    viewer,
                ));
            } else {
                let i = choose|i: int|
                    0 <= i < shorter.len() && first_day_of(#[trigger] shorter[i], today, viewer) == before;
                assert(events[i] == shorter[i]);
            }
        }
    }
}

/// The starts to look at are the dates that the rule gives, and the start of the event itself where it
/// lies after the bound and is not left out; each instant once.
pub proof fn law_starts_to_look_at(found: UpcomingView, at: DateTimeView)
    requires
        found.dates.contains(at) || (at == found.start && found.lower.before(at)
            && !occurrences::some_at_second(found.excluded, at.seconds)),
    ensures
        exists|k: int|
            0 <= k < candidates(found).len() && (#[trigger] candidates(found)[k]).same_instant(at),
{
    let all = if found.lower.before(found.start) && !occurrences::some_at_second(
        found.excluded,
        found.start.seconds,
    ) {
        found.dates.push(found.start)
    } else {
        found.dates
    };
    assert(all.contains(at)) by {
        if found.dates.contains(at) {
            let i = choose|i: int| 0 <= i < found.dates.len() && found.dates[i] == at;
            assert(all[i] == at);
        } else {
            assert(all[found.dates.len() as int] == at);
        }
    }
    let sorted = sorting::sorted(all, sorting::by_instant());
    sorting::law_sorted(all, sorting::by_instant());
    assert(sorted.contains(at));
    let i = choose|i: int| 0 <= i < sorted.len() && sorted[i] == at;
    sorting::law_deduplicated(sorted, sorting::one_instant());
    let k = choose|k: int|
        0 <= k < candidates(found).len() && sorting::one_instant()(
            #[trigger] candidates(found)[k],
            sorted[i],
        );
    assert(candidates(found)[k].same_instant(at));
}

/// No other starts are looked at.
pub proof fn law_no_other_starts(found: UpcomingView, k: int)
    requires
        0 <= k < candidates(found).len(),
    ensures
        found.dates.contains(candidates(found)[k]) || candidates(found)[k] == found.start,
        !found.lower.before(found.start) || occurrences::some_at_second(
            found.excluded,
            found.start.seconds,
        ) ==> found.dates.contains(candidates(found)[k]),
{
    let all = if found.lower.before(found.start) && !occurrences::some_at_second(
        found.excluded,
        found.start.seconds,
    ) {
        found.dates.push(found.start)
    } else {
        found.dates
    };
    let sorted = sorting::sorted(all, sorting::by_instant());
    sorting::law_sorted(all, sorting::by_instant());
    sorting::lemma_deduplicated(sorted, sorting::one_instant());
    let at = candidates(found)[k];
    assert(candidates(found).contains(at));
    assert(all.contains(at));
    let i = choose|i: int| 0 <= i < all.len() && all[i] == at;
    if i < found.dates.len() {
        assert(found.dates[i] == at);
    }
}

/// The earliest day of the events in calendars that are shown is the earliest of their days.
pub proof fn law_earliest_of_the_shown(days: Seq<Option<int>>, events: Seq<EventView>, calendars: Seq<CalendarView>)
    requires
        days.len() >= events.len(),
    ensures
        forall|i: int|
            0 <= i < events.len() && month_view::visible_calendar(
                calendars,
                (#[trigger] events[i]).calendar_id,
            ) is Some ==> (days[i] matches Some(day) ==> (earliest_visible(days, events, calendars)
                matches Some(found) && found <= day)),
        earliest_visible(days, events, calendars) is Some ==> exists|i: int|
            0 <= i < events.len() && days[i] == earliest_visible(days, events, calendars)
                && month_view::visible_calendar(calendars, (#[trigger] events[i]).calendar_id) is Some,
    decreases events.len(),
{
    if events.len() > 0 {
        let shorter = events.drop_last();
        law_earliest_of_the_shown(days, shorter, calendars);
        let before = earliest_visible(days, shorter, calendars);
        let now = earliest_visible(days, events, calendars);
        let last = events.len() - 1;
        assert forall|i: int|
            0 <= i < events.len() && month_view::visible_calendar(
                calendars,
                (#[trigger] events[i]).calendar_id,
            ) is Some implies (days[i] matches Some(day) ==> (now matches Some(found) && found <= day)) by {
            if i < shorter.len() {
                assert(shorter[i] == events[i]);
            }
        }
        if now is Some {
            if now == before {
                let i = choose|i: int|
                    0 <= i < shorter.len() && days[i] == before && month_view::visible_calendar(
                        calendars,
                        (#[trigger] shorter[i]).calendar_id,
                    ) is Some;
                assert(events[i] == shorter[i]);
            } else {
                assert(days[last] == now);
                assert(month_view::visible_calendar(calendars, events[last].calendar_id) is Some);
            }
        }
    }
}

/// The earliest day of an event that does not repeat, or whose dates were not found, is its own first
/// day; of one that repeats it is the earliest among its occurrences.
pub proof fn law_earliest_day_of_an_event(
    event: EventView,
    today: int,
    viewer: ViewerZone,
    found: UpcomingView,
)
    ensures
        event.recurrence is None ==> earliest_day(event, today, viewer, Some(found)) == first_day_of(
            event,
            today,
            viewer,
        ),
        earliest_day(event, today, viewer, None) == first_day_of(event, today, viewer),
        event.recurrence is Some ==> forall|i: int|
            0 <= i < expansion::occurrence_events(event, candidates(found)).len() ==> (first_day_of(
                #[trigger] expansion::occurrence_events(event, candidates(found))[i],
                today,
                viewer,
            ) matches Some(day) ==> (earliest_day(event, today, viewer, Some(found)) matches Some(earliest)
                && earliest <= day)),
{
    law_first_day_among_events(
        expansion::occurrence_events(event, candidates(found)),
        today,
        viewer,
    );
}

/// The coming dates of a series are two from the bound on, with its start and the dates left out.
pub proof fn law_coming_dates(
    event: EventView,
    today: int,
    offset: int,
    clocks: Seq<char>,
    source: Seq<char>,
    lower: DateTime,
)
    requires
        event.recurrence is Some,
        expansion::recurrence_source(event.schedule, event.recurrence->0) == Some(source),
        lower_bound(event.schedule, today, offset) == Some(lower),
    ensures
        rules::rule_set_valid(source, clocks) ==> (upcoming_by(event, today, offset, clocks, clocks, clocks)
            matches Some(found) && found.lower == lower@ && Some(found.start) == rules::start_by(
            source,
            clocks,
        ) && Some(found.excluded) == rules::exdates_by(source, clocks) && Some(found.dates)
            == rules::occurrences_after_by(source, lower@, 2, clocks)),
        !rules::rule_set_valid(source, clocks) ==> upcoming_by(event, today, offset, clocks, clocks, clocks)
            is None,
{
}

} // verus!
