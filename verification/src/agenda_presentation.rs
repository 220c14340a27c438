//! How an agenda shows its events.
use vstd::prelude::*;

use crate::date;
use crate::date::{Date, DateTime, DateTimeView, Time};
use crate::lists;
use crate::model;
use crate::model::{EventSchedule, ScheduleView};
use crate::month_view;
use crate::month_view::{AgendaGroup, ChipView, EventChip, GroupView, ViewerLocalEnd};
use crate::time_format;
use crate::time_format::TimeFormatPreference;

verus! {

/// How an event lies to an instant.
#[derive(Clone, Copy, Debug, PartialEq, Eq, Structural)]
pub enum AgendaEventState {
    Past,
    Current,
    Upcoming,
}

/// How much room an agenda has for times.
#[derive(Clone, Copy, Debug, PartialEq, Eq, Structural)]
pub enum AgendaTimeLayout {
    Desktop,
    Compact,
}

/// How an event lies to an instant. One with a start and an end is current from its start up to its
/// end; one on whole days is past from the day after it on.
pub open spec fn state_at(schedule: ScheduleView, now: DateTimeView) -> AgendaEventState {
    match schedule {
        ScheduleView::Timed { start, end, .. } => if now.before(start@) {
            AgendaEventState::Upcoming
        } else if !now.before(end@) {
            AgendaEventState::Past
        } else {
            AgendaEventState::Current
        },
        ScheduleView::AllDay { end_date_exclusive, .. } => if now.local_day() >= end_date_exclusive@ {
            AgendaEventState::Past
        } else {
            AgendaEventState::Upcoming
        },
    }
}

/// How an event lies to an instant.
pub fn event_state(schedule: &EventSchedule, now: &DateTime) -> (r: AgendaEventState)
    ensures
        r == state_at(schedule@, now@),
{
    match schedule {
        EventSchedule::Timed { start, end, .. } => if now.before(start) {
            AgendaEventState::Upcoming
        } else if !now.before(end) {
            AgendaEventState::Past
        } else {
            AgendaEventState::Current
        },
        EventSchedule::AllDay { end_date_exclusive, .. } => if now.local_date().before(
            end_date_exclusive,
        ) {
            AgendaEventState::Upcoming
        } else {
            AgendaEventState::Past
        },
    }
}

/// An event that is past stays past.
pub proof fn law_past_stays_past(schedule: ScheduleView, now: DateTimeView, later: DateTimeView)
    requires
        state_at(schedule, now) == AgendaEventState::Past,
        schedule.runs_forward(),
        !later.before(now),
        later.offset == now.offset,
    ensures
        state_at(schedule, later) == AgendaEventState::Past,
{
}

/// The time of an event in an agenda: its start, with its end where there is room; none for one on
/// whole days.
pub open spec fn chip_time(
    chip: ChipView,
    layout: AgendaTimeLayout,
    preference: TimeFormatPreference,
    system: Seq<char>,
) -> Option<Seq<char>> {
    match (chip.start_time, chip.viewer_local_end) {
        (Some(start), ViewerLocalEnd::Timed(end)) => {
            let first = time_format::time_text(start, preference, system);
            match layout {
                AgendaTimeLayout::Compact => Some(first),
                AgendaTimeLayout::Desktop => Some(
                    first + seq!['–'] + time_format::time_text(
                        Time { seconds: end@.local_second() as u32, nanos: end@.nanos as u32 },
                        preference,
                        system,
                    ),
                ),
            }
        },
        _ => None,
    }
}

/// The time of an event in an agenda.
pub fn time_text(
    chip: &EventChip,
    layout: AgendaTimeLayout,
    preference: TimeFormatPreference,
    system_clock_format: &str,
) -> (r: Option<String>)
    requires
        chip.start_time matches Some(start) ==> start.valid(),
    ensures
        model::text_view(r) == chip_time(chip@, layout, preference, system_clock_format@),
{
    let start = match &chip.start_time {
        Some(start) => start,
        None => {
            return None;
        },
    };
    match (&chip.viewer_local_end, layout) {
        (ViewerLocalEnd::Timed(end), AgendaTimeLayout::Desktop) => {
            let mut out = time_format::format_time(start, preference, system_clock_format);
            let ghost first = out@;
            out.push('–');
            let last = time_format::format_time(
                &end.local_time(),
                preference,
                system_clock_format,
            );
            out.append(last.as_str());
            assert(out@ =~= first + seq!['–'] + last@);
            Some(out)
        },
        (ViewerLocalEnd::Timed(_), AgendaTimeLayout::Compact) => Some(
            time_format::format_time(start, preference, system_clock_format),
        ),
        (ViewerLocalEnd::AllDay(_), _) => None,
    }
}

/// What an agenda shows of a group from today on. Of days without events, today stands alone.
pub open spec fn shown_of(group: GroupView, today: Date) -> Seq<GroupView> {
    match group {
        GroupView::EventDay(day) => if day.date@ >= today@ {
            seq![group]
        } else {
            seq![]
        },
        GroupView::EmptyRange { start_date, end_date_exclusive } => if end_date_exclusive@ <= today@
            || end_date_exclusive@ <= start_date@ {
            seq![]
        } else if start_date@ > today@ {
            seq![group]
        } else if end_date_exclusive@ == today@ + 1 {
            seq![GroupView::EmptyRange { start_date: today, end_date_exclusive }]
        } else {
            seq![
                GroupView::EmptyRange {
                    start_date: today,
                    end_date_exclusive: date::date_of(today@ + 1),
                },
                GroupView::EmptyRange {
                    start_date: date::date_of(today@ + 1),
                    end_date_exclusive,
                },
            ]
        },
    }
}

/// What an agenda shows of groups from today on.
pub open spec fn displayed(groups: Seq<GroupView>, today: Date) -> Seq<GroupView>
    decreases groups.len(),
{
    if groups.len() == 0 {
        seq![]
    } else {
        displayed(groups.drop_last(), today) + shown_of(groups.last(), today)
    }
}

/// Add what an agenda shows of a group from today on.
fn add_shown(group: &AgendaGroup, today: &Date, out: &mut Vec<AgendaGroup>)
    ensures
        lists::views_of(final(out)@) == lists::views_of(old(out)@) + shown_of(group@, *today),
{
    let ghost before = lists::views_of(out@);
    match group {
        AgendaGroup::EventDay(day) => {
            if !day.date.before(today) {
                out.push(group.clone());
            }
        },
        AgendaGroup::EmptyRange { start_date, end_date_exclusive } => {
            let end: i32 = end_date_exclusive.days();
            let first = if start_date.before(today) {
                *today
            } else {
                *start_date
            };
            if first.days() < end {
                if first.same(today) {
                    if let Some(tomorrow) = today.succ_opt() {
                        proof {
                            date::lemma_date_of_day(tomorrow);
                            date::lemma_date_of_day(*end_date_exclusive);
                        }
                        out.push(
                            AgendaGroup::EmptyRange {
                                start_date: *today,
                                end_date_exclusive: tomorrow,
                            },
                        );
                        if tomorrow.before(end_date_exclusive) {
                            out.push(
                                AgendaGroup::EmptyRange {
                                    start_date: tomorrow,
                                    end_date_exclusive: *end_date_exclusive,
                                },
                            );
                        }
                    }
                } else {
                    out.push(
                        AgendaGroup::EmptyRange {
                            start_date: first,
                            end_date_exclusive: *end_date_exclusive,
                        },
                    );
                }
            }
        },
    }
    assert(lists::views_of(out@) =~= before + shown_of(group@, *today));
}

/// What an agenda shows of groups from today on: days with events before today are left out, and days
/// without events begin today at the earliest, with today alone.
pub fn display_groups(groups: &Vec<AgendaGroup>, today: &Date) -> (r: Vec<AgendaGroup>)
    ensures
        lists::views_of(r@) == displayed(lists::views_of(groups@), *today),
{
    let ghost all = lists::views_of(groups@);
    let mut out: Vec<AgendaGroup> = Vec::new();
    assert(lists::views_of(out@) =~= displayed(all.take(0), *today));
    for i in 0..groups.len()
        invariant
            all == lists::views_of(groups@),
            lists::views_of(out@) == displayed(all.take(i as int), *today),
    {
        proof {
            lists::lemma_views_take(groups@, i as int);
        }
        add_shown(&groups[i], today, &mut out);
    }
    proof {
        lists::lemma_views_all(groups@);
    }
    out
}

/// Whether a group is a day with events from today on.
pub open spec fn is_upcoming(group: GroupView, today: int) -> bool {
    group matches GroupView::EventDay(day) && day.date@ >= today
}

/// Whether no group is a day with events from today on.
pub open spec fn has_none_upcoming(groups: Seq<GroupView>, today: int) -> bool {
    forall|i: int| 0 <= i < groups.len() ==> !is_upcoming(#[trigger] groups[i], today)
}

/// Whether no group is a day with events from today on.
pub fn has_no_upcoming_events(groups: &Vec<AgendaGroup>, today: &Date) -> (r: bool)
    ensures
        r == has_none_upcoming(lists::views_of(groups@), today@),
{
    let ghost all = lists::views_of(groups@);
    for i in 0..groups.len()
        invariant
            all == lists::views_of(groups@),
            forall|k: int| 0 <= k < i ==> !is_upcoming(#[trigger] all[k], today@),
    {
        if let AgendaGroup::EventDay(day) = &groups[i] {
            if !day.date.before(today) {
                assert(is_upcoming(all[i as int], today@));
                return false;
            }
        }
    }
    true
}

/// An agenda shows nothing before today.
pub proof fn law_nothing_before_today(groups: Seq<GroupView>, today: Date)
    requires
        date::is_day(today@),
        forall|i: int|
            0 <= i < groups.len() ==> date::is_day(
                month_view::group_end(#[trigger] groups[i]) - 1,
            ),
    ensures
        forall|i: int|
            0 <= i < displayed(groups, today).len() ==> month_view::group_start(
                #[trigger] displayed(groups, today)[i],
            ) >= today@,
    decreases groups.len(),
{
    if groups.len() > 0 {
        let earlier = groups.drop_last();
        assert forall|i: int| 0 <= i < earlier.len() implies date::is_day(
            month_view::group_end(#[trigger] earlier[i]) - 1,
        ) by {
            assert(earlier[i] == groups[i]);
        }
        law_nothing_before_today(earlier, today);
        let before = displayed(earlier, today);
        let after = displayed(groups, today);
        let part = shown_of(groups.last(), today);
        assert(groups[groups.len() - 1] == groups.last());
        assert forall|i: int| 0 <= i < after.len() implies month_view::group_start(
            #[trigger] after[i],
        ) >= today@ by {
            if i < before.len() {
                assert(after[i] == before[i]);
            } else {
                assert(after[i] == part[i - before.len()]);
                if date::is_day(today@ + 1) {
                    date::lemma_date_of(today@ + 1);
                }
            }
        }
    }
}

/// An event is to come before it starts, is on from its start, and is past from its end on; one on
/// whole days is past once the first day after it has come.
pub proof fn law_states_of_an_event(schedule: ScheduleView, now: DateTimeView)
    requires
        schedule.runs_forward(),
    ensures
        schedule matches ScheduleView::Timed { start, end, .. } ==> {
            &&& state_at(schedule, now) == AgendaEventState::Upcoming <==> now.before(start@)
            &&& state_at(schedule, now) == AgendaEventState::Past <==> !now.before(end@)
            &&& state_at(schedule, now) == AgendaEventState::Current <==> !now.before(start@)
                && now.before(end@)
        },
        schedule matches ScheduleView::AllDay { end_date_exclusive, .. } ==> {
            &&& state_at(schedule, now) == AgendaEventState::Past <==> now.local_day()
                >= end_date_exclusive@
            &&& state_at(schedule, now) == AgendaEventState::Upcoming <==> now.local_day()
                < end_date_exclusive@
        },
{
}

/// The time of an event is its start, and with room for it also its end; one on whole days has none.
pub proof fn law_time_of_an_event(chip: ChipView, preference: TimeFormatPreference, system: Seq<char>)
    ensures
        chip.start_time is None ==> chip_time(chip, AgendaTimeLayout::Compact, preference, system) is None
            && chip_time(chip, AgendaTimeLayout::Desktop, preference, system) is None,
        chip.start_time matches Some(start) ==> chip.viewer_local_end matches ViewerLocalEnd::Timed(end)
            ==> chip_time(chip, AgendaTimeLayout::Compact, preference, system) == Some(
            time_format::time_text(start, preference, system),
        ) && chip_time(chip, AgendaTimeLayout::Desktop, preference, system) == Some(
            time_format::time_text(start, preference, system) + "–"@ + time_format::time_text(
                Time { seconds: end@.local_second() as u32, nanos: end@.nanos as u32 },
                preference,
                system,
            ),
        ),
{
    reveal_strlit("–");
    assert("–"@ =~= seq!['–']);
}

/// Of the days with events those from today on are shown, and no others.
pub proof fn law_days_from_today_are_shown(groups: Seq<GroupView>, today: Date, day: month_view::DayView)
    ensures
        displayed(groups, today).contains(GroupView::EventDay(day)) <==> groups.contains(
            GroupView::EventDay(day),
        ) && day.date@ >= today@,
    decreases groups.len(),
{
    let wanted = GroupView::EventDay(day);
    if groups.len() > 0 {
        let before = groups.drop_last();
        let first = displayed(before, today);
        let last = shown_of(groups.last(), today);
        let out = displayed(groups, today);
        law_days_from_today_are_shown(before, today, day);
        assert(out =~= first + last);
        if out.contains(wanted) {
            let k = choose|k: int| 0 <= k < out.len() && out[k] == wanted;
            if k < first.len() {
                assert(first[k] == wanted);
                assert(first.contains(wanted));
                let n = choose|n: int| 0 <= n < before.len() && before[n] == wanted;
                assert(groups[n] == wanted);
            } else {
                assert(last[k - first.len()] == wanted);
                assert(groups[groups.len() - 1] == wanted);
            }
        }
        if groups.contains(wanted) && day.date@ >= today@ {
            let n = choose|n: int| 0 <= n < groups.len() && groups[n] == wanted;
            if n < before.len() {
                assert(before[n] == wanted);
                assert(first.contains(wanted));
                let k = choose|k: int| 0 <= k < first.len() && first[k] == wanted;
                assert(out[k] == wanted);
            } else {
                assert(last =~= seq![wanted]);
                assert(out[first.len() as int] == wanted);
            }
        }
    }
}

/// A range without events that holds today is shown from today on: today by itself, and then the rest
/// of the range. One that is over is not shown, and one that is still to come is shown as it is.
pub proof fn law_empty_ranges_from_today(start: Date, end: Date, today: Date)
    requires
        start@ < end@,
        date::is_day(today@ + 1),
    ensures
        ({
            let group = GroupView::EmptyRange { start_date: start, end_date_exclusive: end };
            let shown = shown_of(group, today);
            &&& end@ <= today@ ==> shown.len() == 0
            &&& start@ > today@ ==> shown == seq![group]
            &&& start@ <= today@ && end@ == today@ + 1 ==> shown.len() == 1 && month_view::group_start(
                shown[0],
            ) == today@ && month_view::group_end(shown[0]) == end@
            &&& start@ <= today@ && end@ > today@ + 1 ==> shown.len() == 2 && month_view::group_start(
                shown[0],
            ) == today@ && month_view::group_end(shown[0]) == today@ + 1 && month_view::group_start(
                shown[1],
            ) == today@ + 1 && month_view::group_end(shown[1]) == end@
        }),
{
    date::lemma_date_of(today@ + 1);
}

} // verus!
