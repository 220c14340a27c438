use calendar::backend::following;
use calendar::backend::occurrences;
use calendar::date::{Date, DateTime};
use calendar::expansion;
use calendar::model::{DetachedEvent, Event, EventSchedule, RecurrenceId, RecurrenceSpec};
use calendar::recurrence_form::{
    recurrence_from_form, recurrence_presentation, EndCondition, Frequency, RecurrenceForm,
    RecurrenceFormError, RecurrencePresentation, Weekday,
};
use calendar::recurrence_split::{split_recurrence_at, RecurrenceSplitError};
use calendar::rules;

fn day(year: i32, month: u32, day: u32) -> Date {
    Date::from_ymd_opt(year, month, day).unwrap()
}

fn instant(date: Date, hour: i64, minute: i64, offset: i32) -> DateTime {
    let seconds =
        (date.days() as i64 - 719163) * 86400 + hour * 3600 + minute * 60 - offset as i64;
    DateTime::new(seconds, 0, offset).unwrap()
}

fn all_day(start: Date, end: Date) -> EventSchedule {
    EventSchedule::AllDay { start_date: start, end_date_exclusive: end }
}

fn timed(start: DateTime, end: DateTime, timezone: Option<&str>) -> EventSchedule {
    EventSchedule::Timed { start, end, timezone: timezone.map(str::to_string) }
}

fn rule(value: &str) -> Option<RecurrenceSpec> {
    Some(RecurrenceSpec::of_rule(value.to_string()))
}

fn event(schedule: EventSchedule, recurrence: Option<RecurrenceSpec>) -> Event {
    Event {
        id: 7,
        calendar_id: 3,
        title: "Stand-up".to_string(),
        location: "Room".to_string(),
        description: String::new(),
        schedule,
        recurrence,
        reminders: Vec::new(),
    }
}

/// A daily event in Berlin at nine, over the day on which clocks are put forward.
fn berlin_daily(rule_text: &str) -> Event {
    let start = instant(day(2026, 3, 27), 9, 0, 3600);
    let end = instant(day(2026, 3, 27), 10, 0, 3600);
    event(timed(start, end, Some("Europe/Berlin")), rule(rule_text))
}

fn form(frequency: Frequency, interval: u32, weekdays: Vec<Weekday>, end: EndCondition) -> RecurrenceForm {
    RecurrenceForm { frequency, interval, weekdays, end }
}

fn rule_of(form: &RecurrenceForm, schedule: &EventSchedule) -> String {
    let spec = recurrence_from_form(form, schedule).unwrap().unwrap();
    assert!(spec.rdate.is_empty() && spec.exdate.is_empty());
    assert_eq!(spec.rrule.len(), 1);
    spec.rrule[0].clone()
}

#[test]
fn last_days_are_read_in_the_zone_of_the_event() {
    let zones = [
        ("America/New_York", -18000, 21, "RRULE:FREQ=DAILY;UNTIL=20260111T020000Z"),
        ("Asia/Tokyo", 32400, 3, "RRULE:FREQ=DAILY;UNTIL=20260109T180000Z"),
        ("Europe/Berlin", 3600, 9, "RRULE:FREQ=DAILY;UNTIL=20260110T080000Z"),
    ];
    let written = form(Frequency::Daily, 1, vec![], EndCondition::Until(day(2026, 1, 10)));
    for (zone, offset, hour, value) in zones {
        let start = instant(day(2026, 1, 5), hour, 0, offset);
        let end = instant(day(2026, 1, 5), hour + 1, 0, offset);
        let schedule = timed(start, end, Some(zone));
        assert_eq!(rule_of(&written, &schedule), value);
        match recurrence_presentation(&rule(value), &schedule) {
            RecurrencePresentation::Editable { form: read, summary } => {
                assert_eq!(read.frequency, Frequency::Daily);
                assert_eq!(read.interval, 1);
                assert!(read.weekdays.is_empty());
                assert_eq!(read.end, EndCondition::Until(day(2026, 1, 10)));
                assert_eq!(summary, "Every day until 2026-01-10");
            }
            RecurrencePresentation::Custom { .. } => panic!("the form writes this rule"),
        }
        let other = "RRULE:FREQ=DAILY;UNTIL=20260111T020001Z";
        assert!(matches!(
            recurrence_presentation(&rule(other), &schedule),
            RecurrencePresentation::Custom { .. }
        ));
    }
}

#[test]
fn forms_are_written_as_rules() {
    let days = all_day(day(2026, 7, 20), day(2026, 7, 21));
    assert_eq!(
        rule_of(&form(Frequency::Daily, 1, vec![], EndCondition::Never), &days),
        "RRULE:FREQ=DAILY"
    );
    assert_eq!(
        rule_of(&form(Frequency::Monthly, 3, vec![], EndCondition::Count(5)), &days),
        "RRULE:FREQ=MONTHLY;INTERVAL=3;COUNT=5"
    );
    let weekdays = vec![Weekday::Friday, Weekday::Monday, Weekday::Friday];
    assert_eq!(
        rule_of(&form(Frequency::Weekly, 2, weekdays, EndCondition::Until(day(2026, 12, 31))), &days),
        "RRULE:FREQ=WEEKLY;INTERVAL=2;BYDAY=MO,FR;UNTIL=20261231"
    );
    let berlin = berlin_daily("RRULE:FREQ=DAILY").schedule;
    assert_eq!(
        rule_of(&form(Frequency::Yearly, 1, vec![], EndCondition::Until(day(2027, 7, 1))), &berlin),
        "RRULE:FREQ=YEARLY;UNTIL=20270701T070000Z"
    );
    let none = recurrence_from_form(&form(Frequency::NoRepeat, 0, vec![], EndCondition::Never), &days);
    assert!(none.unwrap().is_none());
}

#[test]
fn forms_that_mean_nothing_are_refused() {
    let days = all_day(day(2026, 7, 20), day(2026, 7, 21));
    let refusal = |f: RecurrenceForm, schedule: &EventSchedule| {
        recurrence_from_form(&f, schedule).unwrap_err()
    };
    assert_eq!(
        refusal(form(Frequency::Daily, 0, vec![], EndCondition::Never), &days),
        RecurrenceFormError::InvalidInterval
    );
    assert_eq!(
        refusal(form(Frequency::Weekly, 1, vec![], EndCondition::Never), &days),
        RecurrenceFormError::WeeklyRequiresWeekday
    );
    assert_eq!(
        refusal(form(Frequency::Daily, 1, vec![Weekday::Monday], EndCondition::Never), &days),
        RecurrenceFormError::WeekdaysOnlyApplyToWeekly
    );
    assert_eq!(
        refusal(form(Frequency::Daily, 1, vec![], EndCondition::Count(0)), &days),
        RecurrenceFormError::InvalidCount
    );
    let start = instant(day(2026, 7, 20), 9, 0, 0);
    let nowhere = timed(start, instant(day(2026, 7, 20), 10, 0, 0), Some("Nowhere"));
    assert_eq!(
        refusal(form(Frequency::Daily, 1, vec![], EndCondition::Until(day(2026, 8, 1))), &nowhere),
        RecurrenceFormError::InvalidTimezone
    );
}

#[test]
fn written_rules_are_read_back() {
    let days = all_day(day(2026, 7, 20), day(2026, 7, 21));
    let written = form(
        Frequency::Weekly,
        2,
        vec![Weekday::Tuesday, Weekday::Sunday],
        EndCondition::Count(4),
    );
    let spec = recurrence_from_form(&written, &days).unwrap();
    match recurrence_presentation(&spec, &days) {
        RecurrencePresentation::Editable { form, summary } => {
            assert_eq!(form.frequency, Frequency::Weekly);
            assert_eq!(form.interval, 2);
            assert_eq!(form.weekdays, vec![Weekday::Tuesday, Weekday::Sunday]);
            assert_eq!(form.end, EndCondition::Count(4));
            assert_eq!(summary, "Every 2 weeks on Tuesday, Sunday (4 times)");
        }
        RecurrencePresentation::Custom { .. } => panic!("a written rule is a simple one"),
    }
}

#[test]
fn recurrences_are_summed_up() {
    let days = all_day(day(2026, 7, 20), day(2026, 7, 21));
    let summary = |recurrence: &Option<RecurrenceSpec>| match recurrence_presentation(recurrence, &days) {
        RecurrencePresentation::Editable { summary, .. } => summary,
        RecurrencePresentation::Custom { summary } => summary,
    };
    assert_eq!(summary(&None), "Does not repeat");
    assert_eq!(summary(&rule("RRULE:FREQ=DAILY;UNTIL=20261231")), "Every day until 2026-12-31");
    assert_eq!(summary(&rule("RRULE:FREQ=DAILY;BYMONTH=2")), "Custom recurrence (rule)");
    let mut odd = RecurrenceSpec::of_rule("RRULE:FREQ=DAILY".to_string());
    odd.exdate.push("EXDATE;VALUE=DATE:20260722".to_string());
    odd.rdate.push("RDATE;VALUE=DATE:20260101".to_string());
    assert_eq!(
        summary(&Some(odd)),
        "Custom recurrence (rule, additional dates, excluded dates)"
    );
    assert_eq!(summary(&Some(RecurrenceSpec::default())), "Custom recurrence");
}

#[test]
fn rule_sets_are_read_and_expanded() {
    let source = "DTSTART:20260720T090000Z\nRRULE:FREQ=DAILY;COUNT=3\nEXDATE:20260721T090000Z";
    assert!(rules::is_valid_rule_set(source));
    assert!(!rules::is_valid_rule_set("RRULE:FREQ=SOMETIMES"));
    let from = instant(day(2026, 7, 1), 0, 0, 0);
    let to = instant(day(2026, 8, 1), 0, 0, 0);
    let found = rules::occurrences(source, &from, &to, 100).unwrap();
    let found: Vec<Date> = found.iter().map(|d| d.local_date()).collect();
    assert_eq!(found, vec![day(2026, 7, 20), day(2026, 7, 22)]);
    assert_eq!(rules::exdates(source).unwrap().len(), 1);
    assert!(rules::start(source).unwrap().same_instant(&instant(day(2026, 7, 20), 9, 0, 0)));
    let later = rules::occurrences_after(source, &instant(day(2026, 7, 20), 9, 0, 0), 1).unwrap();
    assert_eq!(later.len(), 1);
    assert!(rules::occurrences("nothing", &from, &to, 100).is_none());
}

#[test]
fn days_that_cannot_be_cut_are_refused() {
    let start = "DTSTART:20260101T000000Z\n";
    let from = instant(day(2026, 1, 1), 0, 0, 0);
    let to = instant(day(2026, 2, 1), 0, 0, 0);
    for rule in [
        "RRULE:FREQ=WEEKLY;BYDAY=éx",
        "RRULE:FREQ=WEEKLY;byweekday=MO,ſU",
        "RRULE:FREQ=WEEKLY;BYDAY=éx\r\nRDATE:20260102T000000Z",
        "FREQ=WEEKLY;BYDAY=MO€",
        "x:FREQ=WEEKLY;BYDAY=𝄞",
    ] {
        let source = format!("{start}{rule}");
        assert!(!rules::can_read(&source));
        assert!(!rules::is_valid_rule_set(&source));
        assert!(rules::occurrences(&source, &from, &to, 10).is_none());
        assert!(rules::occurrences_after(&source, &from, 10).is_none());
        assert!(rules::exdates(&source).is_none());
        assert!(rules::start(&source).is_none());
    }
    for rule in ["RRULE:FREQ=WEEKLY;BYDAY=1é", "RRULE:FREQ=WEEKLY;BYDAY=x,", "RRULE:FREQ=WEEKLY;BYDAY=éxy"] {
        let source = format!("{start}{rule}");
        assert!(rules::can_read(&source));
        assert!(!rules::is_valid_rule_set(&source));
    }
    for rule in ["RRULE:FREQ=WEEKLY;BYDAY=mo,FR", "RRULE:FREQ=WEEKLY;WKST=ſU", "RRULE:FREQ=WEEKLY;BYDAY=MO\r\n"] {
        assert!(rules::is_valid_rule_set(&format!("{start}{rule}")));
    }
}

#[test]
fn series_are_split_at_an_occurrence() {
    let master = berlin_daily("RRULE:FREQ=DAILY;COUNT=5");
    // The occurrence after clocks were put forward.
    let third = instant(day(2026, 3, 29), 9, 0, 7200);
    let identity = RecurrenceId::Timed {
        date_time: third,
        timezone: Some("Europe/Berlin".to_string()),
    };
    let split = split_recurrence_at(&master, &identity).unwrap();
    assert_eq!(split.original_recurrence.rrule, vec!["RRULE:FREQ=DAILY;COUNT=2"]);
    assert_eq!(split.future_recurrence.rrule, vec!["RRULE:FREQ=DAILY;COUNT=3"]);
    let expected = timed(third, instant(day(2026, 3, 29), 10, 0, 7200), Some("Europe/Berlin"));
    assert!(split.future_schedule.same(&expected));
}

#[test]
fn endless_series_keep_their_rule_after_a_split() {
    let master = event(all_day(day(2026, 7, 20), day(2026, 7, 22)), rule("RRULE:FREQ=WEEKLY"));
    let split = split_recurrence_at(&master, &RecurrenceId::AllDay(day(2026, 8, 3))).unwrap();
    assert_eq!(split.original_recurrence.rrule, vec!["RRULE:FREQ=WEEKLY;COUNT=2"]);
    assert_eq!(split.future_recurrence.rrule, vec!["RRULE:FREQ=WEEKLY"]);
    assert!(split.future_schedule.same(&all_day(day(2026, 8, 3), day(2026, 8, 5))));
}

#[test]
fn splits_that_cannot_be_made_are_refused() {
    let days = all_day(day(2026, 7, 20), day(2026, 7, 21));
    let at = |d: Date| RecurrenceId::AllDay(d);
    let refusal = |master: &Event, id: &RecurrenceId| split_recurrence_at(master, id).unwrap_err();
    let plain = event(days.clone(), None);
    assert_eq!(refusal(&plain, &at(day(2026, 7, 21))), RecurrenceSplitError::MissingRecurrence);
    let daily = event(days.clone(), rule("RRULE:FREQ=DAILY;COUNT=3"));
    assert_eq!(refusal(&daily, &at(day(2026, 7, 20))), RecurrenceSplitError::FirstOccurrence);
    assert_eq!(refusal(&daily, &at(day(2026, 7, 24))), RecurrenceSplitError::NotGenerated);
    let timed_id = RecurrenceId::Timed { date_time: instant(day(2026, 7, 21), 0, 0, 0), timezone: None };
    assert_eq!(refusal(&daily, &timed_id), RecurrenceSplitError::MismatchedIdentity);
    let odd = event(days.clone(), rule("RRULE:FREQ=DAILY;BYSETPOS=1;BYMONTH=3"));
    assert_eq!(refusal(&odd, &at(day(2026, 7, 21))), RecurrenceSplitError::UnsupportedRecurrence);
    let mut excluded = RecurrenceSpec::of_rule("RRULE:FREQ=DAILY".to_string());
    excluded.exdate.push("EXDATE;VALUE=DATE:20260722".to_string());
    let excluded = event(days, Some(excluded));
    assert_eq!(refusal(&excluded, &at(day(2026, 7, 21))), RecurrenceSplitError::UnsupportedRecurrence);
    assert!(!RecurrenceSplitError::NotGenerated.message().is_empty());
}

#[test]
fn occurrences_are_told_from_other_days() {
    let daily = event(
        all_day(day(2026, 7, 20), day(2026, 7, 21)),
        rule("RRULE:FREQ=DAILY;INTERVAL=2;COUNT=3"),
    );
    assert!(occurrences::occurrence_is_generated(&daily, &RecurrenceId::AllDay(day(2026, 7, 22))));
    assert!(!occurrences::occurrence_is_generated(&daily, &RecurrenceId::AllDay(day(2026, 7, 23))));
    assert!(!occurrences::occurrence_is_generated(&daily, &RecurrenceId::AllDay(day(2026, 7, 26))));
    assert_eq!(
        following::generated_occurrence_index(&daily, &RecurrenceId::AllDay(day(2026, 7, 24))),
        Some(2)
    );
    let left = following::truncate_recurrence_for_delete(&daily, &RecurrenceId::AllDay(day(2026, 7, 24)));
    assert_eq!(left.unwrap().rrule, vec!["RRULE:FREQ=DAILY;INTERVAL=2;COUNT=2"]);
}

#[test]
fn events_are_expanded_on_the_days_that_are_asked_for() {
    let master = berlin_daily("RRULE:FREQ=DAILY;COUNT=5");
    let found = expansion::expand_event(&master, &day(2026, 3, 28), &day(2026, 3, 30));
    let starts: Vec<(Date, i32)> = found
        .iter()
        .map(|occurrence| match &occurrence.schedule {
            EventSchedule::Timed { start, .. } => (start.local_date(), start.offset()),
            EventSchedule::AllDay { .. } => panic!("the event has a start"),
        })
        .collect();
    assert!(starts.contains(&(day(2026, 3, 28), 3600)));
    assert!(starts.contains(&(day(2026, 3, 29), 7200)));
    assert!(starts.contains(&(day(2026, 3, 30), 7200)));
    assert!(found.iter().all(|occurrence| occurrence.recurrence.is_none()));
    assert!(found.iter().all(|occurrence| occurrence.id == master.id));
    let plain = event(all_day(day(2026, 7, 20), day(2026, 7, 21)), None);
    assert_eq!(expansion::expand_event(&plain, &day(2026, 1, 1), &day(2026, 1, 2)).len(), 1);
}

#[test]
fn changed_occurrences_take_the_place_of_generated_ones() {
    let master = event(
        all_day(day(2026, 7, 20), day(2026, 7, 21)),
        rule("RRULE:FREQ=DAILY;COUNT=3"),
    );
    let moved = DetachedEvent::Modified {
        recurrence_id: RecurrenceId::AllDay(day(2026, 7, 21)),
        title: "Moved".to_string(),
        location: String::new(),
        description: String::new(),
        schedule: all_day(day(2026, 7, 25), day(2026, 7, 26)),
        reminders: Vec::new(),
    };
    let cancelled = DetachedEvent::Cancelled { recurrence_id: RecurrenceId::AllDay(day(2026, 7, 22)) };
    let stray = DetachedEvent::Modified {
        recurrence_id: RecurrenceId::AllDay(day(2026, 9, 1)),
        title: "Stray".to_string(),
        location: String::new(),
        description: String::new(),
        schedule: all_day(day(2026, 7, 26), day(2026, 7, 27)),
        reminders: Vec::new(),
    };
    let changes = vec![moved, cancelled, stray];
    let shown = expansion::expand_with_changes(&master, &changes, &day(2026, 7, 19), &day(2026, 7, 31));
    let titles: Vec<&str> = shown.iter().map(|p| p.event.title.as_str()).collect();
    assert_eq!(titles, vec!["Stand-up", "Moved"]);
    let resolved =
        expansion::event_for_recurrence_id(&master, &changes, &RecurrenceId::AllDay(day(2026, 7, 21))).unwrap();
    assert_eq!(resolved.title, "Moved");
    assert!(resolved.recurrence.is_none());
    assert!(
        expansion::event_for_recurrence_id(&master, &changes, &RecurrenceId::AllDay(day(2026, 7, 22)))
            .is_none()
    );
    assert!(
        expansion::event_for_recurrence_id(&master, &Vec::new(), &RecurrenceId::AllDay(day(2026, 7, 24)))
            .is_none()
    );
}

#[test]
fn identities_name_their_occurrences() {
    let master = berlin_daily("RRULE:FREQ=DAILY;COUNT=5");
    let found = expansion::expand_event(&master, &day(2026, 3, 29), &day(2026, 3, 29));
    let occurrence = found
        .iter()
        .find(|occurrence| match &occurrence.schedule {
            EventSchedule::Timed { start, .. } => start.local_date() == day(2026, 3, 29),
            EventSchedule::AllDay { .. } => false,
        })
        .unwrap();
    let identity = expansion::recurrence_id_for_generated_occurrence(&master, occurrence).unwrap();
    assert!(expansion::recurrence_id_matches(&master.schedule, &occurrence.schedule, &identity));
    let again = expansion::generated_occurrence_for_recurrence_id(&master, &identity).unwrap();
    assert!(again.schedule.same(&occurrence.schedule));
    assert_eq!(
        expansion::recurrence_id_date(&master.schedule, &identity),
        Some(day(2026, 3, 29))
    );
}
