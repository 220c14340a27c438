use calendar::agenda_presentation::{
    display_groups, event_state, has_no_upcoming_events, time_text, AgendaEventState, AgendaTimeLayout,
};
use calendar::agenda_render_plan::{render_agenda, AgendaRange, AgendaRenderPlan};
use calendar::date::{Date, DateTime};
use calendar::expansion::{MasterEvent, ProjectedEvent};
use calendar::model::{
    Calendar, CalendarSource, DetachedEvent, Event, EventSchedule, RecurrenceId, RecurrenceSpec,
};
use calendar::month_view::{
    event_date_bounds, is_calendar_visible, project_agenda_in_timezone,
    project_agenda_range_in_timezone, project_month_in_timezone,
    project_agenda, project_agenda_range_with_detached_events_in_timezone, project_month,
    project_month_with_detached_events_in_timezone, project_week_in_timezone,
    project_week_with_detached_events_in_timezone, AgendaGroup, LocalEvent, ViewerLocalEnd,
    ViewerLocalSchedule, ViewerZone,
};
use calendar::time_format::TimeFormatPreference;
use calendar::upcoming::earliest_projected_event_date_in_timezone;

fn day(year: i32, month: u32, day: u32) -> Date {
    Date::from_ymd_opt(year, month, day).unwrap()
}

fn instant(date: Date, hour: i64, minute: i64, offset: i32) -> DateTime {
    let seconds =
        (date.days() as i64 - 719163) * 86400 + hour * 3600 + minute * 60 - offset as i64;
    DateTime::new(seconds, 0, offset).unwrap()
}

fn calendars() -> Vec<Calendar> {
    let calendar = |id, visible| Calendar {
        id,
        name: format!("Calendar {id}"),
        color: "#3366cc".to_string(),
        visible,
        read_only: false,
        source: CalendarSource::Local,
    };
    vec![calendar(1, true), calendar(2, false)]
}

fn event(id: u128, calendar_id: u128, schedule: EventSchedule) -> Event {
    Event {
        id,
        calendar_id,
        title: format!("Event {id}"),
        location: String::new(),
        description: String::new(),
        schedule,
        recurrence: None,
        reminders: Vec::new(),
    }
}

fn timed(start: DateTime, end: DateTime) -> EventSchedule {
    EventSchedule::Timed { start, end, timezone: None }
}

fn days(start: Date, end: Date) -> EventSchedule {
    EventSchedule::AllDay { start_date: start, end_date_exclusive: end }
}

#[test]
fn events_touch_the_days_they_last() {
    let at = |d, hour| instant(day(2026, 7, d), hour, 0, 0);
    let bounds = |start, end| event_date_bounds(&ViewerLocalSchedule::Timed { start, end });
    assert_eq!(bounds(at(20, 9), at(20, 10)), Some((day(2026, 7, 20), day(2026, 7, 20))));
    assert_eq!(bounds(at(20, 9), at(21, 1)), Some((day(2026, 7, 20), day(2026, 7, 21))));
    // An end at midnight does not touch the day that begins then.
    assert_eq!(bounds(at(20, 9), at(21, 0)), Some((day(2026, 7, 20), day(2026, 7, 20))));
    assert_eq!(bounds(at(20, 9), at(20, 9)), None);
    let whole = ViewerLocalSchedule::AllDay {
        start_date: day(2026, 7, 20),
        end_date_exclusive: day(2026, 7, 23),
    };
    assert_eq!(event_date_bounds(&whole), Some((day(2026, 7, 20), day(2026, 7, 22))));
}

#[test]
fn months_show_the_events_of_visible_calendars() {
    let events = vec![
        event(10, 1, timed(instant(day(2026, 7, 20), 22, 30, 0), instant(day(2026, 7, 20), 23, 30, 0))),
        event(11, 1, days(day(2026, 7, 20), day(2026, 7, 22))),
        event(12, 2, days(day(2026, 7, 20), day(2026, 7, 22))),
        event(13, 1, timed(instant(day(2026, 7, 20), 8, 0, 0), instant(day(2026, 7, 20), 9, 0, 0))),
    ];
    assert!(is_calendar_visible(&calendars(), 1));
    assert!(!is_calendar_visible(&calendars(), 2));
    let month = project_month_in_timezone(2026, 7, &calendars(), &events, &ViewerZone::Offset(0));
    assert_eq!(month.len(), 42);
    let shown = month.iter().find(|d| d.date == day(2026, 7, 20)).unwrap();
    let timed_ids: Vec<u128> = shown.timed.iter().map(|chip| chip.event_id).collect();
    assert_eq!(timed_ids, vec![13, 10]);
    let whole_ids: Vec<u128> = shown.all_day.iter().map(|chip| chip.event_id).collect();
    assert_eq!(whole_ids, vec![11]);
    assert_eq!(shown.all_day[0].color, "#3366cc");
    // By the clocks of Berlin the late event is on the next day.
    let berlin = ViewerZone::Named("Europe/Berlin".to_string());
    let month = project_month_in_timezone(2026, 7, &calendars(), &events, &berlin);
    let next = month.iter().find(|d| d.date == day(2026, 7, 21)).unwrap();
    assert_eq!(next.timed.len(), 1);
    assert_eq!(next.timed[0].start_time.unwrap().hour(), 0);
    assert_eq!(next.all_day.len(), 1);
}

#[test]
fn weeks_show_every_day_and_agendas_from_a_day_on() {
    let events = vec![event(10, 1, days(day(2026, 7, 24), day(2026, 7, 25)))];
    let zone = ViewerZone::Offset(3600);
    let week = project_week_in_timezone(&day(2026, 7, 22), &calendars(), &events, &zone);
    assert_eq!(week.len(), 7);
    assert_eq!(week[0].date, day(2026, 7, 20));
    assert_eq!(week[4].all_day.len(), 1);
    let agenda = project_agenda_in_timezone(&day(2026, 7, 22), &calendars(), &events, &zone);
    let dates: Vec<Date> = agenda.iter().map(|d| d.date).collect();
    assert_eq!(dates, vec![day(2026, 7, 22), day(2026, 7, 24)]);
}

#[test]
fn groups_cover_the_days_of_a_range() {
    let events = vec![event(10, 1, days(day(2026, 7, 22), day(2026, 7, 23)))];
    let groups = project_agenda_range_in_timezone(
        &day(2026, 7, 20),
        &day(2026, 7, 25),
        &calendars(),
        &events,
        &ViewerZone::Offset(0),
    );
    assert_eq!(groups.len(), 3);
    assert!(matches!(
        &groups[0],
        AgendaGroup::EmptyRange { start_date, end_date_exclusive }
            if *start_date == day(2026, 7, 20) && *end_date_exclusive == day(2026, 7, 22)
    ));
    assert!(matches!(&groups[1], AgendaGroup::EventDay(d) if d.date == day(2026, 7, 22)));
    assert!(matches!(
        &groups[2],
        AgendaGroup::EmptyRange { start_date, .. } if *start_date == day(2026, 7, 23)
    ));
}

#[test]
fn changed_occurrences_are_shown_where_they_moved() {
    let mut master = event(10, 1, days(day(2026, 7, 20), day(2026, 7, 21)));
    master.recurrence = Some(RecurrenceSpec::of_rule("RRULE:FREQ=DAILY;COUNT=2".to_string()));
    let moved = DetachedEvent::Modified {
        recurrence_id: RecurrenceId::AllDay(day(2026, 7, 21)),
        title: "Moved".to_string(),
        location: String::new(),
        description: String::new(),
        schedule: days(day(2026, 7, 28), day(2026, 7, 29)),
        reminders: Vec::new(),
    };
    let masters = vec![MasterEvent { event: master, detached: vec![moved] }];
    let month = project_month_with_detached_events_in_timezone(
        2026,
        7,
        &calendars(),
        &masters,
        &ViewerZone::Offset(0),
    );
    let on = |d| month.iter().find(|shown| shown.date == day(2026, 7, d)).unwrap();
    assert_eq!(on(20).all_day.len(), 1);
    assert!(on(21).all_day.is_empty());
    assert_eq!(on(28).all_day[0].title, "Moved");
    assert!(on(28).all_day[0].original_recurrence_id.is_some());
    let zone = ViewerZone::Offset(0);
    let week =
        project_week_with_detached_events_in_timezone(&day(2026, 7, 29), &calendars(), &masters, &zone);
    assert_eq!(week[1].all_day[0].title, "Moved");
    let groups = project_agenda_range_with_detached_events_in_timezone(
        &day(2026, 7, 20),
        &day(2026, 7, 29),
        &calendars(),
        &masters,
        &zone,
    );
    assert_eq!(groups.len(), 3);
    assert!(matches!(&groups[2], AgendaGroup::EventDay(d) if d.date == day(2026, 7, 28)));
}

#[test]
fn events_by_the_clocks_of_the_viewer_are_shown_as_they_are() {
    let held = || {
        vec![LocalEvent {
            shown: ProjectedEvent {
                event: event(10, 1, days(day(2026, 7, 24), day(2026, 7, 25))),
                original_recurrence_id: None,
            },
            local: ViewerLocalSchedule::AllDay {
                start_date: day(2026, 7, 24),
                end_date_exclusive: day(2026, 7, 25),
            },
        }]
    };
    let month = project_month(2026, 7, &calendars(), held());
    assert_eq!(month.iter().filter(|d| !d.all_day.is_empty()).count(), 1);
    let agenda = project_agenda(&day(2026, 7, 22), &calendars(), held());
    let dates: Vec<Date> = agenda.iter().map(|d| d.date).collect();
    assert_eq!(dates, vec![day(2026, 7, 22), day(2026, 7, 24)]);
}

#[test]
fn chips_are_past_once_their_end_has_passed() {
    let events = vec![
        event(10, 1, days(day(2026, 7, 20), day(2026, 7, 21))),
        event(11, 1, timed(instant(day(2026, 7, 20), 8, 0, 0), instant(day(2026, 7, 20), 9, 0, 0))),
    ];
    let month = project_month_in_timezone(2026, 7, &calendars(), &events, &ViewerZone::Offset(0));
    let shown = month.iter().find(|d| d.date == day(2026, 7, 20)).unwrap();
    let nine = instant(day(2026, 7, 20), 9, 0, 0);
    let later = instant(day(2026, 7, 20), 9, 1, 0);
    assert!(!shown.timed[0].is_past_at(&nine));
    assert!(shown.timed[0].is_past_at(&later));
    assert!(!shown.all_day[0].is_past_at(&instant(day(2026, 7, 21), 0, 0, 0)));
    assert!(shown.all_day[0].is_past_at(&instant(day(2026, 7, 21), 0, 1, 0)));
    assert!(matches!(shown.all_day[0].viewer_local_end, ViewerLocalEnd::AllDay(_)));
}

#[test]
fn agendas_tell_past_from_current_and_upcoming() {
    let at = |hour| instant(day(2026, 7, 20), hour, 0, 0);
    let schedule = timed(at(9), at(10));
    assert_eq!(event_state(&schedule, &at(8)), AgendaEventState::Upcoming);
    assert_eq!(event_state(&schedule, &at(9)), AgendaEventState::Current);
    assert_eq!(event_state(&schedule, &at(10)), AgendaEventState::Past);
    let whole = days(day(2026, 7, 20), day(2026, 7, 21));
    assert_eq!(event_state(&whole, &at(9)), AgendaEventState::Upcoming);
    let tomorrow = instant(day(2026, 7, 21), 0, 0, 0);
    assert_eq!(event_state(&whole, &tomorrow), AgendaEventState::Past);
}

#[test]
fn agendas_show_times_as_there_is_room() {
    let events =
        vec![event(11, 1, timed(instant(day(2026, 7, 20), 8, 0, 0), instant(day(2026, 7, 20), 9, 30, 0)))];
    let week = project_week_in_timezone(&day(2026, 7, 20), &calendars(), &events, &ViewerZone::Offset(0));
    let chip = &week[0].timed[0];
    let text = |layout| time_text(chip, layout, TimeFormatPreference::TwentyFourHour, "");
    assert_eq!(text(AgendaTimeLayout::Desktop).as_deref(), Some("08:00–09:30"));
    assert_eq!(text(AgendaTimeLayout::Compact).as_deref(), Some("08:00"));
}

#[test]
fn agendas_show_nothing_before_today() {
    let groups = vec![
        AgendaGroup::EmptyRange { start_date: day(2026, 7, 18), end_date_exclusive: day(2026, 7, 23) },
    ];
    let shown = display_groups(&groups, &day(2026, 7, 20));
    assert_eq!(shown.len(), 2);
    assert!(matches!(
        &shown[0],
        AgendaGroup::EmptyRange { start_date, end_date_exclusive }
            if *start_date == day(2026, 7, 20) && *end_date_exclusive == day(2026, 7, 21)
    ));
    assert!(has_no_upcoming_events(&groups, &day(2026, 7, 20)));
}

#[test]
fn agendas_reach_to_the_next_event() {
    let far = vec![event(10, 1, days(day(2026, 12, 24), day(2026, 12, 25)))];
    let today = day(2026, 7, 20);
    let range = AgendaRange::new(&today, 56);
    assert_eq!(range.end_date_exclusive, day(2026, 9, 14));
    match render_agenda(&today, &range, &calendars(), &far, 0) {
        AgendaRenderPlan::Groups(groups) => {
            assert!(matches!(groups.last().unwrap(), AgendaGroup::EventDay(d) if d.date == day(2026, 12, 24)));
        }
        AgendaRenderPlan::NoUpcoming => panic!("an event comes"),
    }
    let past = vec![event(10, 1, days(day(2026, 1, 1), day(2026, 1, 2)))];
    assert!(matches!(
        render_agenda(&today, &range, &calendars(), &past, 0),
        AgendaRenderPlan::NoUpcoming
    ));
}

#[test]
fn ranges_of_agendas_grow() {
    let mut range = AgendaRange::new(&day(2026, 7, 20), 10);
    range.ensure_target(&day(2026, 7, 25));
    assert_eq!(range.end_date_exclusive, day(2026, 7, 30));
    range.ensure_target(&day(2026, 7, 29));
    assert_eq!(range.end_date_exclusive, day(2026, 7, 31));
    range.ensure_target(&day(2026, 7, 1));
    assert_eq!(range.end_date_exclusive, day(2026, 7, 31));
    range.ensure_target(&day(2026, 8, 3));
    assert_eq!(range.end_date_exclusive, day(2026, 8, 5));
    assert_eq!(range.start_date, day(2026, 7, 20));
    range.extend_bottom(28);
    assert_eq!(range.end_date_exclusive, day(2026, 9, 2));
    range.extend_bottom(-5);
    assert_eq!(range.end_date_exclusive, day(2026, 9, 2));
    let mut short = AgendaRange { start_date: day(2026, 7, 20), end_date_exclusive: day(2026, 7, 22) };
    short.ensure_target(&day(2026, 7, 25));
    assert_eq!(short.start_date, day(2026, 7, 20));
    assert_eq!(short.end_date_exclusive, day(2026, 7, 27));
}

#[test]
fn the_earliest_event_is_not_past() {
    let mut weekly = event(10, 1, days(day(2026, 1, 5), day(2026, 1, 6)));
    weekly.recurrence = Some(RecurrenceSpec::of_rule("RRULE:FREQ=WEEKLY".to_string()));
    let hidden = event(11, 2, days(day(2026, 7, 20), day(2026, 7, 21)));
    let found = earliest_projected_event_date_in_timezone(
        &day(2026, 7, 21),
        &calendars(),
        &vec![weekly, hidden],
        0,
    );
    assert_eq!(found, Some(day(2026, 7, 27)));
    let nothing = earliest_projected_event_date_in_timezone(&day(2026, 7, 21), &calendars(), &Vec::new(), 0);
    assert_eq!(nothing, None);
}

#[test]
fn agendas_are_the_listed_days_of_their_weeks() {
    let zone = ViewerZone::Offset(0);
    let events = vec![
        event(10, 1, days(day(2026, 7, 20), day(2026, 7, 21))),
        event(11, 1, timed(instant(day(2026, 7, 24), 9, 0, 0), instant(day(2026, 7, 24), 10, 0, 0))),
        event(12, 1, days(day(2026, 7, 26), day(2026, 7, 28))),
    ];
    let active = day(2026, 7, 22);
    let week = project_week_in_timezone(&active, &calendars(), &events, &zone);
    let agenda = project_agenda_in_timezone(&active, &calendars(), &events, &zone);
    let listed: Vec<Date> = week
        .iter()
        .filter(|shown| {
            shown.date == active
                || (shown.date.days() > active.days()
                    && !(shown.all_day.is_empty() && shown.timed.is_empty()))
        })
        .map(|shown| shown.date)
        .collect();
    assert_eq!(listed, vec![active, day(2026, 7, 24), day(2026, 7, 26)]);
    assert_eq!(agenda.iter().map(|shown| shown.date).collect::<Vec<_>>(), listed);
}
