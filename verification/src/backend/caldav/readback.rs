//! What reading gives back of an event that was written.
use vstd::prelude::*;

use crate::backend::caldav::ical;
use crate::backend::caldav::ical::{DateView, IcalCalendarView, IcalEventView, PartView};
use crate::backend::caldav::mapping;
use crate::backend::caldav::serialize;
use crate::backend::caldav::serialize::ContentsView;
use crate::backend::caldav::{MappedView, MappingErrorView};
use crate::backend::rows;
use crate::date;
use crate::date::{DateTime, Time};
use crate::lines;
use crate::model::{EventView, RecurrenceView, ReminderView, ScheduleView, Uuid};
use crate::text;
use crate::zone;

verus! {

/// A date, or a date and time, as it is found again: times are written in whole seconds.
pub open spec fn found_date(written: DateView) -> DateView {
    match written {
        DateView::Utc(seconds, _) => DateView::Utc(seconds, 0),
        DateView::Zoned(day, second, _, name) => DateView::Zoned(day, second, 0, name),
        other => other,
    }
}

/// Whether a component of an event is the alarm of a reminder.
pub open spec fn is_alarm_of(part: PartView, reminder: ReminderView) -> bool {
    &&& mapping::same_case(part.kind, "VALARM"@)
    &&& mapping::alarm_refusal(part) is None
    &&& ical::value_named(part.properties, "DESCRIPTION"@) == Some(reminder.description)
    &&& ical::property_named(part.properties, "TRIGGER"@) matches Some(trigger)
        && mapping::trigger_refusal(trigger) is None && mapping::duration_of(trigger.value) == Some(
        -reminder.seconds_before_start as int,
    )
}

/// Whether components of an event are the alarms of reminders, one for one.
pub open spec fn are_alarms_of(parts: Seq<PartView>, reminders: Seq<ReminderView>) -> bool {
    &&& parts.len() == reminders.len()
    &&& forall|i: int| 0 <= i < parts.len() ==> is_alarm_of(#[trigger] parts[i], reminders[i])
}

/// Whether an event holds under a key the text that was written under it.
pub open spec fn holds_text(found: IcalEventView, contents: ContentsView, key: Seq<char>) -> bool {
    ical::value_named(found.properties, key) == Some(contents.properties[key].text)
}

/// Whether an event that was found in a text holds what was written: its texts, its start and its
/// end, its alarms, and neither a length nor the mark of an exception.
pub open spec fn holds_contents(
    found: IcalEventView,
    contents: ContentsView,
    start: DateView,
    end: DateView,
) -> bool {
    &&& holds_text(found, contents, "UID"@)
    &&& holds_text(found, contents, "SUMMARY"@)
    &&& holds_text(found, contents, "LOCATION"@)
    &&& holds_text(found, contents, "DESCRIPTION"@)
    &&& found.start == Some(found_date(start))
    &&& found.end == Some(found_date(end))
    &&& are_alarms_of(found.parts, contents.alarms)
    &&& !ical::has_property_spec(found, "RECURRENCE-ID"@)
    &&& !ical::has_property_spec(found, "DURATION"@)
}

/// Whether an instant is a whole second.
pub open spec fn is_whole(instant: DateTime) -> bool {
    instant@.valid() && instant@.nanos == 0
}

/// Whether a schedule is of days, or of instants that are whole seconds.
pub open spec fn is_whole_schedule(schedule: ScheduleView) -> bool {
    match schedule {
        ScheduleView::AllDay { start_date, end_date_exclusive } => date::is_day(start_date@)
            && date::is_day(end_date_exclusive@),
        ScheduleView::Timed { start, end, .. } => is_whole(start) && is_whole(end),
    }
}

/// Whether a schedule is of days, or of instants that are whole seconds and in a zone under the
/// offset of its clocks.
pub open spec fn is_plain_schedule(schedule: ScheduleView) -> bool {
    is_whole_schedule(schedule) && serialize::is_shown_in_zone(schedule)
}

/// Whether a recurrence can be read: not empty, of one rule at most, without periods, and each line
/// under its property.
pub open spec fn is_readable(recurrence: RecurrenceView) -> bool {
    &&& rows::is_proper(recurrence)
    &&& !mapping::is_empty_recurrence(recurrence)
    &&& !mapping::is_unsupported(recurrence)
}

/// The lines of an optional recurrence.
pub open spec fn lines_of(recurrence: Option<RecurrenceView>) -> RecurrenceView {
    match recurrence {
        Some(recurrence) => recurrence,
        None => RecurrenceView { rrule: seq![], rdate: seq![], exdate: seq![] },
    }
}

/// An instant as it is read: in UTC where it has no zone.
pub open spec fn read_instant(instant: DateTime, timezone: Option<Seq<char>>) -> DateTime {
    if timezone is None && instant@.offset != 0 {
        date::date_time_of(instant@.at_offset(0))
    } else {
        instant
    }
}

/// A schedule as it is read: its instants in UTC where they have no zone.
pub open spec fn read_schedule(schedule: ScheduleView) -> ScheduleView {
    match schedule {
        ScheduleView::Timed { start, end, timezone } => ScheduleView::Timed {
            start: read_instant(start, timezone),
            end: read_instant(end, timezone),
            timezone,
        },
        other => other,
    }
}

proof fn lemma_instant_is_read(instant: DateTime, timezone: Option<Seq<char>>)
    requires
        is_whole(instant),
        timezone matches Some(name) ==> zone::shown_in(instant@, name) == instant@,
        serialize::written_instant(instant, timezone) is Some,
    ensures
        ({
            let written = serialize::written_instant(instant, timezone)->0;
            &&& !(written is Date)
            &&& mapping::instant_of(found_date(written)) == Ok::<
                (DateTime, Option<Seq<char>>),
                MappingErrorView,
            >((read_instant(instant, timezone), timezone))
            &&& read_instant(instant, timezone)@ == if timezone is None {
                instant@.at_offset(0)
            } else {
                instant@
            }
        }),
{
    date::lemma_date_time_of_view(instant);
    match timezone {
        None => {
            date::lemma_date_time_of(instant@.at_offset(0));
        },
        Some(name) => {
            let shown = zone::shown_in(instant@, name);
            date::lemma_local_day_in_range(shown);
            let time = Time { seconds: shown.local_second() as u32, nanos: 0 };
            assert(zone::local_instant(name, shown.local_day(), time) == Some(instant@));
        },
    }
}

proof fn lemma_alarms_are_read(parts: Seq<PartView>, reminders: Seq<ReminderView>)
    requires
        are_alarms_of(parts, reminders),
        serialize::all_before(reminders),
    ensures
        mapping::reminders_of(parts) == Ok::<Seq<ReminderView>, Seq<char>>(reminders),
    decreases parts.len(),
{
    if parts.len() == 0 {
        assert(reminders =~= seq![]);
    } else {
        let (before, given) = (parts.drop_last(), reminders.drop_last());
        assert forall|i: int| 0 <= i < before.len() implies is_alarm_of(
            #[trigger] before[i],
            given[i],
        ) by {
            assert(is_alarm_of(parts[i], reminders[i]));
        }
        assert forall|i: int| 0 <= i < given.len() implies (
        #[trigger] given[i]).seconds_before_start > 0 by {
            assert(reminders[i].seconds_before_start > 0);
        }
        lemma_alarms_are_read(before, given);
        assert(is_alarm_of(parts[parts.len() - 1], reminders[reminders.len() - 1]));
        assert(reminders[reminders.len() - 1].seconds_before_start > 0);
        assert(reminders =~= given.push(reminders.last()));
    }
}

/// The key of a line that writes a rule begins with an R.
proof fn lemma_rule_key(line: Seq<char>)
    requires
        lines::property_name(line) == Some("RRULE"@),
        serialize::line_parts(line) is Some,
    ensures
        ({
            let key = (serialize::line_parts(line)->0).0;
            key.len() > 0 && text::upper_char(key[0]) == 'R'
        }),
{
    reveal_strlit("RRULE");
    let key = (serialize::line_parts(line)->0).0;
    let first = text::split(key, ';')[0];
    let at = text::index_of_char(key, ';');
    text::lemma_index_of_char(key, ';');
    assert(first == if at < key.len() {
        key.take(at)
    } else {
        key
    });
    assert(text::upper(first).len() == 5);
    assert(text::upper(first)[0] == 'R');
    assert(first[0] == key[0]);
}

proof fn lemma_rules_keep(contents: ContentsView, all: Seq<Seq<char>>)
    requires
        lines::all_write(all, "RRULE"@),
        serialize::with_single(contents, all) is Some,
    ensures
        ({
            let after = serialize::with_single(contents, all)->0;
            &&& after.alarms == contents.alarms
            &&& forall|key: Seq<char>|
                key.len() > 0 && text::upper_char(key[0]) != 'R' ==> #[trigger] after.properties[key]
                    == contents.properties[key]
        }),
    decreases all.len(),
{
    if all.len() > 0 {
        let before = all.drop_last();
        assert forall|i: int| 0 <= i < before.len() implies lines::property_name(
            #[trigger] before[i],
        ) == Some("RRULE"@) by {
            assert(lines::property_name(all[i]) == Some("RRULE"@));
        }
        lemma_rules_keep(contents, before);
        assert(lines::property_name(all[all.len() - 1]) == Some("RRULE"@));
        lemma_rule_key(all.last());
    }
}

proof fn lemma_listed_keep(contents: ContentsView, all: Seq<Seq<char>>)
    requires
        serialize::with_listed(contents, all) is Some,
    ensures
        serialize::with_listed(contents, all)->0.properties == contents.properties,
        serialize::with_listed(contents, all)->0.alarms == contents.alarms,
    decreases all.len(),
{
    if all.len() > 0 {
        lemma_listed_keep(contents, all.drop_last());
    }
}

/// The lines of a recurrence change nothing else that is written.
proof fn lemma_recurrence_keeps(contents: ContentsView, recurrence: RecurrenceView)
    requires
        rows::is_proper(recurrence),
        serialize::with_recurrence(contents, recurrence) is Some,
    ensures
        ({
            let after = serialize::with_recurrence(contents, recurrence)->0;
            &&& after.alarms == contents.alarms
            &&& forall|key: Seq<char>|
                key.len() > 0 && text::upper_char(key[0]) != 'R' ==> #[trigger] after.properties[key]
                    == contents.properties[key]
        }),
{
    let first = serialize::with_single(contents, recurrence.rrule)->0;
    let second = serialize::with_listed(first, recurrence.rdate)->0;
    lemma_rules_keep(contents, recurrence.rrule);
    lemma_listed_keep(first, recurrence.rdate);
    lemma_listed_keep(second, recurrence.exdate);
}

proof fn lemma_contents(event: EventView, remote_uid: Seq<char>, valid: bool)
    requires
        serialize::event_contents(event, remote_uid, valid) is Ok,
        event.recurrence matches Some(recurrence) ==> is_readable(recurrence),
    ensures
        ({
            let contents = serialize::event_contents(event, remote_uid, valid)->Ok_0;
            let (start, end) = serialize::written_schedule(event.schedule)->0;
            &&& contents.alarms == event.reminders
            &&& contents.properties["UID"@] == serialize::text_property(remote_uid)
            &&& contents.properties["SUMMARY"@] == serialize::text_property(event.title)
            &&& contents.properties["LOCATION"@] == serialize::text_property(event.location)
            &&& contents.properties["DESCRIPTION"@] == serialize::text_property(event.description)
            &&& contents.properties["DTSTART"@] == serialize::date_property(start)
            &&& contents.properties["DTEND"@] == serialize::date_property(end)
        }),
{
    reveal_strlit("UID");
    reveal_strlit("SUMMARY");
    reveal_strlit("LOCATION");
    reveal_strlit("DESCRIPTION");
    reveal_strlit("DTSTART");
    reveal_strlit("DTEND");
    assert("UID"@.len() == 3 && "SUMMARY"@.len() == 7 && "LOCATION"@.len() == 8);
    assert("DESCRIPTION"@.len() == 11 && "DTSTART"@.len() == 7 && "DTEND"@.len() == 5);
    assert("UID"@[0] == 'U' && "SUMMARY"@[0] == 'S' && "LOCATION"@[0] == 'L');
    assert("DESCRIPTION"@[0] == 'D' && "DTSTART"@[0] == 'D' && "DTEND"@[0] == 'D');
    let (start, end) = serialize::written_schedule(event.schedule)->0;
    let plain = serialize::plain_contents(event, remote_uid, start, end);
    assert(plain.properties["SUMMARY"@] == serialize::text_property(event.title));
    assert(plain.properties["DTSTART"@] == serialize::date_property(start));
    if let Some(recurrence) = event.recurrence {
        lemma_recurrence_keeps(plain, recurrence);
    }
}

/// A written event is read back: where an event in a text holds what was written, and the lines of
/// the text the lines of the recurrence, it stands for an event with the same texts, days or
/// instants, recurrence and reminders, under the identifier that it was written with. The instants
/// are whole seconds and those in a zone are under the offset of its clocks; those without a zone are
/// read in UTC. The text that its recurrence is accepted by is that of the written event.
pub proof fn law_written_event_is_read_back(
    event: EventView,
    remote_uid: Seq<char>,
    valid: bool,
    calendar: IcalCalendarView,
    content: Seq<char>,
    event_id: Uuid,
    calendar_id: Uuid,
)
    requires
        serialize::event_contents(event, remote_uid, valid) is Ok,
        is_plain_schedule(event.schedule),
        event.recurrence matches Some(recurrence) ==> is_readable(recurrence),
        mapping::calendar_refusal(calendar) is None,
        calendar.event matches Some(found) && holds_contents(
            found,
            serialize::event_contents(event, remote_uid, valid)->Ok_0,
            (serialize::written_schedule(event.schedule)->0).0,
            (serialize::written_schedule(event.schedule)->0).1,
        ),
        mapping::written_recurrence(content) == lines_of(event.recurrence),
    ensures
        mapping::mapped_calendar(calendar, content, event_id, calendar_id, valid) == Ok::<
            MappedView,
            MappingErrorView,
        >(
            MappedView {
                event: EventView {
                    id: event_id,
                    calendar_id,
                    schedule: read_schedule(event.schedule),
                    ..event
                },
                remote_uid,
            },
        ),
        event.recurrence is Some ==> mapping::calendar_text_to_accept(calendar, content)
            == serialize::text_to_accept(event),
{
    let found = calendar.event->0;
    let (start, end) = serialize::written_schedule(event.schedule)->0;
    lemma_contents(event, remote_uid, valid);
    lemma_alarms_are_read(found.parts, event.reminders);
    match event.schedule {
        ScheduleView::AllDay { start_date, end_date_exclusive } => {
            date::lemma_date_of_day(start_date);
            date::lemma_date_of_day(end_date_exclusive);
        },
        ScheduleView::Timed { start: from, end: to, timezone } => {
            lemma_instant_is_read(from, timezone);
            lemma_instant_is_read(to, timezone);
        },
    }
    assert(mapping::event_schedule(found) == Ok::<ScheduleView, MappingErrorView>(
        read_schedule(event.schedule),
    ));
    assert(mapping::start_line(read_schedule(event.schedule)) == mapping::start_line(
        event.schedule,
    ));
}

// ---------------------------------------------------------------------------------------------
// From the text
// ---------------------------------------------------------------------------------------------

/// Whether a recurrence is one plain rule.
pub open spec fn is_plain_rule(recurrence: RecurrenceView) -> bool {
    &&& recurrence.rrule.len() == 1
    &&& text::starts_with(recurrence.rrule[0], "RRULE:"@)
    &&& recurrence.rrule[0].len() > 6
    &&& serialize::is_plain_line(recurrence.rrule[0])
    &&& recurrence.rdate.len() == 0
    &&& recurrence.exdate.len() == 0
}

/// Whether an event has plain texts, a plain start and end in whole seconds, and at most one rule,
/// which is plain.
pub open spec fn is_plain_event(event: EventView, remote_uid: Seq<char>) -> bool {
    &&& event.recurrence matches Some(recurrence) ==> is_plain_rule(recurrence)
    &&& serialize::is_plain_text(remote_uid)
    &&& serialize::is_plain_text(event.title)
    &&& serialize::is_plain_text(event.location)
    &&& serialize::is_plain_text(event.description)
    &&& forall|i: int|
        0 <= i < event.reminders.len() ==> serialize::is_plain_text(
            (#[trigger] event.reminders[i]).description,
        )
    &&& is_whole_schedule(event.schedule)
    &&& serialize::written_schedule(event.schedule) matches Some((start, end))
        ==> serialize::is_plain_date(start) && serialize::is_plain_date(end)
}

/// Whether a text is mapped to an event, whatever identifiers it is read under: to the same texts,
/// days or instants, recurrence and reminders, and to the identifier that it was written with. The
/// text that the recurrence is accepted by is that of the event; without a recurrence nothing has to
/// be accepted.
pub open spec fn is_mapped_back(content: Seq<char>, event: EventView, remote_uid: Seq<char>) -> bool {
    &&& forall|event_id: Uuid, calendar_id: Uuid, valid: bool|
        valid || event.recurrence is None ==> #[trigger] mapping::mapped_resource(
            content,
            event_id,
            calendar_id,
            valid,
        ) == Ok::<MappedView, MappingErrorView>(
            MappedView {
                event: EventView {
                    id: event_id,
                    calendar_id,
                    schedule: read_schedule(event.schedule),
                    ..event
                },
                remote_uid,
            },
        )
    &&& mapping::resource_text_to_accept(content) == serialize::text_to_accept(event)
}

/// The line of a plain rule is written as its property.
proof fn lemma_plain_rule(recurrence: RecurrenceView)
    requires
        is_plain_rule(recurrence),
    ensures
        is_readable(recurrence),
        serialize::line_parts(recurrence.rrule[0]) == Some(
            ("RRULE"@, recurrence.rrule[0].skip(6)),
        ),
        recurrence.rrule[0] == "RRULE:"@ + recurrence.rrule[0].skip(6),
{
    reveal_strlit("RRULE:");
    reveal_strlit("RRULE");
    reveal_strlit("DTSTART");
    let line = recurrence.rrule[0];
    assert(line.take(6) == "RRULE:"@);
    assert forall|i: int| 0 <= i < 6 implies line[i] == "RRULE:"@[i] by {
        assert(line.take(6)[i] == line[i]);
    }
    text::lemma_index_of_char_unique(line, ':', 5);
    assert(line.take(5) =~= "RRULE"@);
    assert(line =~= "RRULE:"@ + line.skip(6));
    assert forall|i: int| 0 <= i < 5 implies "RRULE"@[i] != ';' by {}
    text::lemma_index_of_char_unique("RRULE"@, ';', 5);
    assert(text::split("RRULE"@, ';')[0] == "RRULE"@);
    assert(text::upper("RRULE"@) =~= "RRULE"@);
    assert(text::lower("RRULE"@).len() == 5 && text::lower("DTSTART"@).len() == 7);
    assert(lines::property_name(line) == Some("RRULE"@));
}

/// What a plain event is written with is plain.
pub proof fn lemma_plain_contents(event: EventView, remote_uid: Seq<char>, valid: bool)
    requires
        is_plain_event(event, remote_uid),
        serialize::event_contents(event, remote_uid, valid) is Ok,
    ensures
        serialize::is_plain(serialize::event_contents(event, remote_uid, valid)->Ok_0),
        serialize::held_recurrence(serialize::event_contents(event, remote_uid, valid)->Ok_0)
            == lines_of(event.recurrence),
        ({
            let held = serialize::event_contents(event, remote_uid, valid)->Ok_0.properties;
            forall|key: Seq<char>| #[trigger]
                held.contains_key(key) <==> serialize::is_text_key(key) || serialize::is_date_key(key)
                    || (key == "RRULE"@ && event.recurrence is Some)
        }),
{
    let contents = serialize::event_contents(event, remote_uid, valid)->Ok_0;
    let (start, end) = serialize::written_schedule(event.schedule)->0;
    let plain = serialize::plain_contents(event, remote_uid, start, end);
    lemma_keys_differ();
    assert(serialize::is_plain_date_property(serialize::date_property(start)));
    assert(serialize::is_plain_date_property(serialize::date_property(end)));
    if let Some(recurrence) = event.recurrence {
        lemma_plain_rule(recurrence);
        let line = recurrence.rrule[0];
        let value = line.skip(6);
        assert(recurrence.rrule.drop_last() =~= seq![]);
        assert(serialize::with_single(plain, recurrence.rrule.drop_last()) == Some(plain));
        assert(contents.properties == plain.properties.insert(
            "RRULE"@,
            serialize::text_property(value),
        ));
        assert forall|i: int| 0 <= i < value.len() implies ' ' <= #[trigger] value[i] <= '~' by {
            assert(value[i] == line[i + 6]);
        }
        assert(recurrence.rrule =~= seq![line]);
        assert(recurrence.rdate =~= seq![]);
        assert(recurrence.exdate =~= seq![]);
    } else {
        assert(!plain.properties.contains_key("RRULE"@));
    }
    assert(contents.lists =~= Map::empty());
}

proof fn lemma_keys_differ()
    ensures
        "UID"@ != "SUMMARY"@ && "UID"@ != "LOCATION"@ && "UID"@ != "DESCRIPTION"@,
        "SUMMARY"@ != "LOCATION"@ && "SUMMARY"@ != "DESCRIPTION"@ && "LOCATION"@ != "DESCRIPTION"@,
        "DTSTART"@ != "SUMMARY"@ && "DTSTART"@ != "DTEND"@ && "DTSTART"@ != "DTSTAMP"@,
        !serialize::is_text_key("DTSTART"@) && !serialize::is_text_key("DTEND"@),
        !serialize::is_text_key("RRULE"@) && !serialize::is_date_key("RRULE"@),
        "RRULE"@ != "RECURRENCE-ID"@ && "RRULE"@ != "DURATION"@,
        !serialize::is_text_key("RECURRENCE-ID"@) && !serialize::is_date_key("RECURRENCE-ID"@),
        !serialize::is_text_key("DURATION"@) && !serialize::is_date_key("DURATION"@),
        "RECURRENCE-ID"@ != "DTSTAMP"@ && "DURATION"@ != "DTSTAMP"@ && "REPEAT"@ != "DTSTAMP"@,
        "ACTION"@ != "TRIGGER"@ && "ACTION"@ != "DESCRIPTION"@ && "TRIGGER"@ != "DESCRIPTION"@,
        "REPEAT"@ != "UID"@ && "REPEAT"@ != "ACTION"@ && "REPEAT"@ != "TRIGGER"@ && "REPEAT"@
            != "DESCRIPTION"@,
        "DURATION"@ != "UID"@ && "DURATION"@ != "ACTION"@ && "DURATION"@ != "TRIGGER"@ && "DURATION"@
            != "DESCRIPTION"@,
        "RELATED"@ != "VALUE"@,
{
    reveal_strlit("UID");
    reveal_strlit("SUMMARY");
    reveal_strlit("LOCATION");
    reveal_strlit("DESCRIPTION");
    reveal_strlit("DTSTART");
    reveal_strlit("DTEND");
    reveal_strlit("DTSTAMP");
    reveal_strlit("RECURRENCE-ID");
    reveal_strlit("DURATION");
    reveal_strlit("ACTION");
    reveal_strlit("TRIGGER");
    reveal_strlit("REPEAT");
    reveal_strlit("RELATED");
    reveal_strlit("VALUE");
    reveal_strlit("RRULE");
    assert("RRULE"@.len() == 5 && "RRULE"@[0] == 'R' && "DTEND"@[0] == 'D');
    assert("UID"@.len() == 3 && "SUMMARY"@.len() == 7 && "LOCATION"@.len() == 8);
    assert("DESCRIPTION"@.len() == 11 && "DTSTART"@.len() == 7 && "DTEND"@.len() == 5);
    assert("DTSTAMP"@.len() == 7 && "RECURRENCE-ID"@.len() == 13 && "DURATION"@.len() == 8);
    assert("ACTION"@.len() == 6 && "TRIGGER"@.len() == 7 && "REPEAT"@.len() == 6);
    assert("RELATED"@.len() == 7 && "VALUE"@.len() == 5);
    assert("DTSTART"@[5] == 'R' && "DTSTAMP"@[5] == 'M' && "SUMMARY"@[0] == 'S');
    assert("LOCATION"@[0] == 'L' && "DURATION"@[0] == 'D' && "TRIGGER"@[0] == 'T');
    assert("ACTION"@[0] == 'A' && "REPEAT"@[0] == 'R' && "DTSTART"@[0] == 'D');
}

/// Digits of a length of time are read as their number.
proof fn lemma_digits_are_read(digits: Seq<char>, i: int)
    requires
        text::is_number(digits),
        text::number_value(digits) <= i64::MAX,
        0 <= i <= digits.len(),
    ensures
        ({
            let state = mapping::LengthView { in_time: true, ..mapping::length_start() };
            let reached = mapping::LengthView {
                number: text::number_value(digits.take(i)),
                have_number: i > 0,
                ..state
            };
            mapping::length_read(state, digits.push('S')) == mapping::length_read(
                reached,
                digits.skip(i).push('S'),
            )
        }),
    decreases i,
{
    let state = mapping::LengthView { in_time: true, ..mapping::length_start() };
    if i == 0 {
        assert(digits.take(0) =~= seq![]);
        assert(digits.skip(0) =~= digits);
    } else {
        lemma_digits_are_read(digits, i - 1);
        let before = digits.take(i - 1);
        let rest = digits.skip(i - 1).push('S');
        let c = digits[i - 1];
        text::lemma_number_value_grows(digits, i);
        text::lemma_number_value_grows(digits, i - 1);
        assert(text::is_digit(c));
        assert(digits.take(i).drop_last() =~= before);
        assert(digits.take(i).last() == c);
        assert(rest[0] == c);
        assert(rest.drop_first() =~= digits.skip(i).push('S'));
    }
}

/// The trigger of an alarm is read as the seconds before the start.
proof fn lemma_trigger_is_read(seconds: int)
    requires
        0 < seconds <= i64::MAX,
    ensures
        mapping::duration_of(serialize::trigger_text(seconds)) == Some(-seconds),
{
    reveal_strlit("-PT");
    reveal_strlit("S");
    let digits = text::decimal(seconds as nat);
    let value = serialize::trigger_text(seconds);
    text::lemma_decimal(seconds as nat);
    let length = mapping::unsigned(value);
    assert(value[0] == '-' && value[1] == 'P' && value[2] == 'T');
    assert(length =~= seq!['P', 'T'] + digits.push('S'));
    let rest = length.drop_first();
    assert(rest[0] == 'T');
    assert(rest.drop_first() =~= digits.push('S'));
    lemma_digits_are_read(digits, digits.len() as int);
    assert(digits.take(digits.len() as int) =~= digits);
    let last = digits.skip(digits.len() as int).push('S');
    assert(last =~= seq!['S']);
    assert(last.drop_first() =~= seq![]);
    let reached = mapping::LengthView {
        in_time: true,
        number: seconds,
        have_number: true,
        ..mapping::length_start()
    };
    assert(mapping::unit_seconds(reached, 'S') == Some(1int));
    assert(reached.number == seconds);
    assert(reached.number * 1 == seconds) by (nonlinear_arith)
        requires
            reached.number == seconds,
    ;
    assert(mapping::length_step(reached, 'S') is Some);
    let end = mapping::length_step(reached, 'S')->0;
    assert(end.total == seconds);
    assert(mapping::length_read(end, seq![]) == Some(end));
}

proof fn lemma_alarm_is_found(content: Seq<char>, k: int, reminder: ReminderView)
    requires
        0 <= k <= usize::MAX,
        serialize::is_alarm_in(content, k, reminder),
        reminder.seconds_before_start > 0,
    ensures
        is_alarm_of(ical::part_facts(content, 0, k as usize), reminder),
{
    let part = ical::part_facts(content, 0, k as usize);
    let held = serialize::alarm_properties(reminder);
    lemma_keys_differ();
    lemma_trigger_is_read(reminder.seconds_before_start as int);
    assert(held.contains_key("ACTION"@) && held.contains_key("TRIGGER"@) && held.contains_key(
        "DESCRIPTION"@,
    ));
    assert(!held.contains_key("REPEAT"@) && !held.contains_key("DURATION"@));
    let trigger = ical::property_named(part.properties, "TRIGGER"@);
    assert(trigger is Some);
    let params = trigger->0.params;
    assert(params == seq![("RELATED"@, "START"@)]);
    assert(params.drop_first() =~= seq![]);
    assert(ical::param_named(params.drop_first(), "VALUE"@) is None);
    assert(ical::param_named(params, "VALUE"@) is None);
    assert(ical::param_named(params, "RELATED"@) == Some("START"@));
    assert(!mapping::same_case("START"@, "END"@)) by {
        reveal_strlit("START");
        reveal_strlit("END");
        assert(text::lower("START"@).len() == 5 && text::lower("END"@).len() == 3);
    }
    assert(ical::value_named(part.properties, "ACTION"@) == Some("DISPLAY"@));
    assert(ical::property_named(part.properties, "REPEAT"@) is None);
    assert(ical::property_named(part.properties, "DURATION"@) is None);
}

/// A plain event that the parser finds in a text as it was written holds what was written.
proof fn lemma_found_holds(whole: Seq<char>, event: EventView, remote_uid: Seq<char>, valid: bool)
    requires
        is_plain_event(event, remote_uid),
        serialize::event_contents(event, remote_uid, valid) is Ok,
        event.reminders.len() <= usize::MAX,
        serialize::is_found_in(
            whole,
            serialize::event_contents(event, remote_uid, valid)->Ok_0,
        ),
    ensures
        ({
            let calendar = ical::calendar_facts(whole);
            let (start, end) = serialize::written_schedule(event.schedule)->0;
            &&& mapping::calendar_refusal(calendar) is None
            &&& calendar.event matches Some(found) && holds_contents(
                found,
                serialize::event_contents(event, remote_uid, valid)->Ok_0,
                start,
                end,
            )
            &&& mapping::written_recurrence(whole) == lines_of(event.recurrence)
        }),
{
    let contents = serialize::event_contents(event, remote_uid, valid)->Ok_0;
    let (start, end) = serialize::written_schedule(event.schedule)->0;
    let calendar = ical::calendar_facts(whole);
    let kinds = seq![true];
    if let Some(recurrence) = event.recurrence {
        lemma_plain_rule(recurrence);
    }
    lemma_contents(event, remote_uid, valid);
    lemma_plain_contents(event, remote_uid, valid);
    lemma_keys_differ();
    assert(kinds[0]);
    assert(ical::first_set(kinds) == 0);
    assert(calendar.event == Some(ical::event_facts(whole, 0)));
    assert(kinds.filter(|event: bool| event).len() <= 1) by {
        reveal(Seq::filter);
        assert(kinds.drop_last() =~= seq![]);
        assert(kinds.drop_last().filter(|event: bool| event).len() == 0);
    }
    assert(mapping::calendar_refusal(calendar) is None);
    let found = calendar.event->0;
    let held = contents.properties;
    assert(held.contains_key("UID"@) && held.contains_key("SUMMARY"@) && held.contains_key(
        "LOCATION"@,
    ) && held.contains_key("DESCRIPTION"@) && held.contains_key("DTSTART"@) && held.contains_key(
        "DTEND"@,
    ));
    assert(!held.contains_key("RECURRENCE-ID"@) && !held.contains_key("DURATION"@));
    assert(ical::property_named(found.properties, "UID"@) is Some);
    assert(ical::property_named(found.properties, "SUMMARY"@) is Some);
    assert(ical::property_named(found.properties, "LOCATION"@) is Some);
    assert(ical::property_named(found.properties, "DESCRIPTION"@) is Some);
    assert(ical::property_named(found.properties, "RECURRENCE-ID"@) is None);
    assert(ical::property_named(found.properties, "DURATION"@) is None);
    assert(ical::event_date(whole, 0, "DTSTART"@) == Some(start)) by {
        assert(held["DTSTART"@] == serialize::date_property(start));
    }
    assert(ical::event_date(whole, 0, "DTEND"@) == Some(end)) by {
        assert(held["DTEND"@] == serialize::date_property(end));
    }
    assert(found_date(start) == start && found_date(end) == end);
    assert forall|i: int| 0 <= i < found.parts.len() implies is_alarm_of(
        #[trigger] found.parts[i],
        contents.alarms[i],
    ) by {
        assert(serialize::is_alarm_in(whole, i, contents.alarms[i]));
        assert(event.reminders[i].seconds_before_start > 0);
        lemma_alarm_is_found(whole, i, contents.alarms[i]);
    }
    assert(holds_contents(found, contents, start, end));
}

/// A plain event that the parser finds in a text as it was written is mapped back from the text.
pub proof fn lemma_mapped_back(content: Seq<char>, event: EventView, remote_uid: Seq<char>, valid: bool)
    requires
        is_plain_event(event, remote_uid),
        serialize::is_shown_in_zone(event.schedule),
        serialize::event_contents(event, remote_uid, valid) is Ok,
        event.reminders.len() <= usize::MAX,
        serialize::is_found_in(
            ical::unfolded(content),
            serialize::event_contents(event, remote_uid, valid)->Ok_0,
        ),
    ensures
        is_mapped_back(content, event, remote_uid),
{
    let whole = ical::unfolded(content);
    let calendar = ical::calendar_facts(whole);
    if let Some(recurrence) = event.recurrence {
        lemma_plain_rule(recurrence);
    }
    lemma_found_holds(whole, event, remote_uid, valid);
    assert forall|event_id: Uuid, calendar_id: Uuid, accepted: bool|
        accepted || event.recurrence is None implies #[trigger] mapping::mapped_resource(
        content,
        event_id,
        calendar_id,
        accepted,
    ) == Ok::<MappedView, MappingErrorView>(
        MappedView {
            event: EventView {
                id: event_id,
                calendar_id,
                schedule: read_schedule(event.schedule),
                ..event
            },
            remote_uid,
        },
    ) by {
        assert(serialize::event_contents(event, remote_uid, accepted) == serialize::event_contents(
            event,
            remote_uid,
            valid,
        ));
        law_written_event_is_read_back(
            event,
            remote_uid,
            accepted,
            calendar,
            whole,
            event_id,
            calendar_id,
        );
    }
    law_written_event_is_read_back(event, remote_uid, valid, calendar, whole, event.id, event.id);
    if event.recurrence is None {
        assert(mapping::is_empty_recurrence(lines_of(None)));
    }
}

} // verus!
