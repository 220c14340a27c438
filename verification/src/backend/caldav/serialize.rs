//! Writing events as resources.
use chrono::Timelike;
use icalendar::{CalendarDateTime, Component, DatePerhapsTime, Event as IcalendarEvent, EventLike};
use vstd::prelude::*;

use crate::backend::caldav::ical;
use crate::backend::caldav::ical::{DateView, PropertyView};
use crate::backend::caldav::mapping;
use crate::backend::caldav::readback;
use crate::backend::caldav::EventSerializationError;
use crate::date;
use crate::date::{Date, DateTime, DateTimeView, Time};
use crate::formats;
use crate::model;
use crate::model::{Event, EventSchedule, EventView, RecurrenceSpec, RecurrenceView, ReminderSpec, ReminderView, ScheduleView};
use crate::rules;
use crate::text;
use crate::zone;

verus! {

// ---------------------------------------------------------------------------------------------
// The event to write
// ---------------------------------------------------------------------------------------------

/// A date, or a date and time, to write.
pub enum WrittenDate {
    Day(Date),
    /// In UTC.
    Instant(DateTime),
    /// In the zone with a name.
    Zoned(Date, Time, String),
}

impl View for WrittenDate {
    type V = DateView;

    open spec fn view(&self) -> DateView {
        match *self {
            WrittenDate::Day(day) => DateView::Date(day@ as i32),
            WrittenDate::Instant(instant) => DateView::Utc(
                instant@.seconds as i64,
                instant@.nanos as u32,
            ),
            WrittenDate::Zoned(day, time, name) => DateView::Zoned(
                day@ as i32,
                time.seconds,
                time.nanos,
                name@,
            ),
        }
    }
}

/// A property to write: the text of its value before any escapes, and its parameters.
pub struct HeldView {
    pub text: Seq<char>,
    pub params: Seq<(Seq<char>, Seq<char>)>,
}

/// A property without parameters.
pub open spec fn text_property(value: Seq<char>) -> HeldView {
    HeldView { text: value, params: seq![] }
}

/// The property that a date, or a date and time, is written as: a date with the kind of its value, a
/// time in a zone with the name of the zone, and both to the second.
pub open spec fn date_property(value: DateView) -> HeldView {
    match value {
        DateView::Date(day) => HeldView {
            text: formats::compact_date(day as int),
            params: seq![("VALUE"@, "DATE"@)],
        },
        DateView::Utc(seconds, nanos) => text_property(
            formats::compact_utc(
                DateTimeView { seconds: seconds as int, nanos: nanos as int, offset: 0 },
            ),
        ),
        DateView::Zoned(day, second, nanos, name) => HeldView {
            text: formats::compact_date_time(day as int, second as int, nanos as int),
            params: seq![("TZID"@, name)],
        },
        DateView::Floating => text_property(seq![]),
    }
}

/// What an event to write holds.
pub struct ContentsView {
    /// The properties that occur once.
    pub properties: Map<Seq<char>, HeldView>,
    /// The properties that can occur more than once.
    pub lists: Map<Seq<char>, Seq<Seq<char>>>,
    /// The alarms that show a text, each some seconds before the start.
    pub alarms: Seq<ReminderView>,
}

/// `icalendar::Event`, to which properties and alarms are added one by one.
#[verifier::external_type_specification]
#[verifier::external_body]
pub struct ExIcalendarEvent(IcalendarEvent);

/// The properties of an event that occur once, by key: the text and the parameters of each.
pub uninterp spec fn kept_properties(event: IcalendarEvent) -> Map<Seq<char>, HeldView>;

/// The properties of an event that can occur more than once, by key.
pub uninterp spec fn kept_lists(event: IcalendarEvent) -> Map<Seq<char>, Seq<Seq<char>>>;

/// The display alarms of an event.
pub uninterp spec fn kept_alarms(event: IcalendarEvent) -> Seq<ReminderView>;

/// What an event holds.
pub open spec fn contents_of(event: IcalendarEvent) -> ContentsView {
    ContentsView {
        properties: kept_properties(event),
        lists: kept_lists(event),
        alarms: kept_alarms(event),
    }
}

/// What an event holds to which nothing was added.
pub open spec fn no_contents() -> ContentsView {
    ContentsView { properties: Map::empty(), lists: Map::empty(), alarms: Seq::empty() }
}

/// The text that `icalendar` writes for a calendar of one event that holds these properties and
/// alarms. The stamps are what it writes of its own accord: the time of writing of the event and of
/// each alarm, and the random identifier of each alarm.
pub uninterp spec fn calendar_text(
    properties: Map<Seq<char>, HeldView>,
    lists: Map<Seq<char>, Seq<Seq<char>>>,
    alarms: Seq<ReminderView>,
    stamps: Seq<Seq<char>>,
) -> Option<Seq<char>>;

/// `icalendar::Event::new`: an event that holds nothing.
#[verifier::external_body]
fn icalendar_event() -> (r: IcalendarEvent)
    ensures
        contents_of(r) == no_contents(),
{
    IcalendarEvent::new()
}

/// `icalendar::Component::add_property`: sets the property with a key, in place of one that was
/// there.
#[verifier::external_body]
fn icalendar_add_property(event: &mut IcalendarEvent, key: &str, value: &str)
    ensures
        kept_properties(*final(event)) == kept_properties(*old(event)).insert(
            key@,
            text_property(value@),
        ),
        kept_lists(*final(event)) == kept_lists(*old(event)),
        kept_alarms(*final(event)) == kept_alarms(*old(event)),
{
    event.add_property(key, value);
}

/// `icalendar::Component::append_property` of a date made by `DatePerhapsTime::to_property`: sets
/// the property with a key, in place of one that was there, to the text and the parameters that the
/// date is written with.
#[verifier::external_body]
fn icalendar_add_date(event: &mut IcalendarEvent, key: &str, value: &WrittenDate)
    requires
        value matches WrittenDate::Zoned(_, time, _) ==> time.valid(),
    ensures
        kept_properties(*final(event)) == kept_properties(*old(event)).insert(
            key@,
            date_property(value@),
        ),
        kept_lists(*final(event)) == kept_lists(*old(event)),
        kept_alarms(*final(event)) == kept_alarms(*old(event)),
{
    let date = |day: &Date| chrono::NaiveDate::from_num_days_from_ce_opt(day.days()).unwrap();
    let time = |seconds| chrono::NaiveTime::from_num_seconds_from_midnight_opt(seconds, 0).unwrap();
    let value = match value {
        WrittenDate::Day(day) => DatePerhapsTime::from(date(day)),
        WrittenDate::Instant(at) => DatePerhapsTime::from(
            chrono::DateTime::from_timestamp(at.timestamp(), at.subsec_nanos()).unwrap(),
        ),
        WrittenDate::Zoned(day, at, name) => DatePerhapsTime::from(CalendarDateTime::WithTimezone {
            date_time: date(day).and_time(time(at.seconds).with_nanosecond(at.nanos).unwrap()),
            tzid: name.clone(),
        }),
    };
    event.append_property(value.to_property(key));
}

/// `icalendar::Component::add_multi_property`: adds one more property under a key.
#[verifier::external_body]
fn icalendar_add_multi_property(event: &mut IcalendarEvent, key: &str, value: &str)
    ensures
        kept_lists(*final(event)) == kept_lists(*old(event)).insert(
            key@,
            listed_under(kept_lists(*old(event)), key@).push(value@),
        ),
        kept_properties(*final(event)) == kept_properties(*old(event)),
        kept_alarms(*final(event)) == kept_alarms(*old(event)),
{
    event.add_multi_property(key, value);
}

/// `icalendar::EventLike::alarm` with `Alarm::display`: adds an alarm that shows a text some seconds
/// before the start. `chrono::Duration::seconds` cannot hold more seconds than the bound.
#[verifier::external_body]
fn icalendar_add_alarm(event: &mut IcalendarEvent, reminder: &ReminderSpec)
    requires
        0 < reminder.seconds_before_start <= LONGEST_REMINDER,
    ensures
        kept_alarms(*final(event)) == kept_alarms(*old(event)).push(reminder@),
        kept_properties(*final(event)) == kept_properties(*old(event)),
        kept_lists(*final(event)) == kept_lists(*old(event)),
{
    event.alarm(icalendar::Alarm::display(
        &reminder.description,
        (-chrono::Duration::seconds(reminder.seconds_before_start), icalendar::Related::Start),
    ));
}

/// Whether a text is of ASCII characters that can be seen, spaces and line feeds.
pub open spec fn is_plain_text(s: Seq<char>) -> bool {
    forall|i: int| 0 <= i < s.len() ==> ' ' <= #[trigger] s[i] <= '~' || s[i] == '\n'
}

/// Whether a text is of ASCII characters that can be seen and spaces.
pub open spec fn is_plain_line(s: Seq<char>) -> bool {
    forall|i: int| 0 <= i < s.len() ==> ' ' <= #[trigger] s[i] <= '~'
}

/// Whether a character can stand in the name of a plain zone.
pub open spec fn is_plain_name_char(c: char) -> bool {
    ||| 'a' <= c <= 'z'
    ||| 'A' <= c <= 'Z'
    ||| text::is_digit(c)
    ||| c == '/'
    ||| c == '_'
    ||| c == '-'
    ||| c == '+'
}

/// Whether the name of a zone is of letters, digits and a few marks.
pub open spec fn is_plain_name(s: Seq<char>) -> bool {
    s.len() > 0 && forall|i: int| 0 <= i < s.len() ==> is_plain_name_char(#[trigger] s[i])
}

/// Whether a date has a year of four digits and a time is a whole second.
pub open spec fn is_plain_date(value: DateView) -> bool {
    match value {
        DateView::Date(day) => date::is_day(day as int) && formats::has_four_digit_year(day as int),
        DateView::Utc(seconds, nanos) => nanos == 0 && date::is_instant(seconds as int, 0)
            && formats::has_four_digit_year(date::day_of_second(seconds as int)),
        DateView::Zoned(day, second, nanos, name) => nanos == 0 && second < 86400 && date::is_day(
            day as int,
        ) && formats::has_four_digit_year(day as int) && is_plain_name(name),
        DateView::Floating => false,
    }
}

/// Whether a key is that of a text of an event.
pub open spec fn is_text_key(key: Seq<char>) -> bool {
    key == "UID"@ || key == "SUMMARY"@ || key == "LOCATION"@ || key == "DESCRIPTION"@
}

/// Whether a key is that of the start or the end of an event.
pub open spec fn is_date_key(key: Seq<char>) -> bool {
    key == "DTSTART"@ || key == "DTEND"@
}

/// Whether a property is the one that a plain date is written as.
pub open spec fn is_plain_date_property(held: HeldView) -> bool {
    exists|value: DateView| is_plain_date(value) && held == #[trigger] date_property(value)
}

/// Whether an event holds only plain texts, a plain start and end, perhaps one plain rule, and alarms
/// with plain texts.
pub open spec fn is_plain(contents: ContentsView) -> bool {
    &&& contents.lists == Map::<Seq<char>, Seq<Seq<char>>>::empty()
    &&& forall|key: Seq<char>| #[trigger]
        contents.properties.contains_key(key) ==> {
            ||| is_text_key(key) && contents.properties[key].params.len() == 0 && is_plain_text(
                contents.properties[key].text,
            )
            ||| is_date_key(key) && is_plain_date_property(contents.properties[key])
            ||| key == "RRULE"@ && contents.properties[key].params.len() == 0 && is_plain_line(
                contents.properties[key].text,
            )
        }
    &&& forall|i: int|
        0 <= i < contents.alarms.len() ==> is_plain_text(
            (#[trigger] contents.alarms[i]).description,
        )
}

/// Whether the properties that were found in a component are those that it was written with, one of
/// each, beside the stamp and the identifier that a component is given of itself.
pub open spec fn are_held(found: Seq<PropertyView>, held: Map<Seq<char>, HeldView>) -> bool {
    forall|key: Seq<char>|
        {
            &&& held.contains_key(key) ==> #[trigger] ical::property_named(found, key) == Some(
                PropertyView { key, value: held[key].text, params: held[key].params },
            )
            &&& !held.contains_key(key) && key != "DTSTAMP"@ && key != "UID"@
                ==> ical::property_named(found, key) is None
        }
}

/// The text of the trigger of an alarm some seconds before the start, such as `-PT600S`.
pub open spec fn trigger_text(seconds: int) -> Seq<char> {
    "-PT"@ + text::decimal(seconds as nat) + "S"@
}

/// The properties that the alarm of a reminder is written with.
pub open spec fn alarm_properties(reminder: ReminderView) -> Map<Seq<char>, HeldView> {
    Map::<Seq<char>, HeldView>::empty().insert("ACTION"@, text_property("DISPLAY"@)).insert(
        "TRIGGER"@,
        HeldView {
            text: trigger_text(reminder.seconds_before_start as int),
            params: seq![("RELATED"@, "START"@)],
        },
    ).insert("DESCRIPTION"@, text_property(reminder.description))
}

/// Whether the component in an event that is number `k` is the alarm of a reminder.
pub open spec fn is_alarm_in(content: Seq<char>, k: int, reminder: ReminderView) -> bool {
    &&& ical::part_kinds(content, 0)[k] == "VALARM"@
    &&& are_held(ical::part_properties(content, 0, k as usize), alarm_properties(reminder))
    &&& ical::part_lists(content, 0, k as usize).len() == 0
    &&& !ical::part_has_parts(content, 0, k as usize)
}

/// The recurrence that an event holds which has at most one rule, and no list of dates.
pub open spec fn held_recurrence(contents: ContentsView) -> RecurrenceView {
    RecurrenceView {
        rrule: if contents.properties.contains_key("RRULE"@) {
            seq!["RRULE:"@ + contents.properties["RRULE"@].text]
        } else {
            seq![]
        },
        rdate: seq![],
        exdate: seq![],
    }
}

/// Whether the parser finds in a text one calendar of one event that holds what was written, and the
/// lines of the text are those of the recurrence that was written.
pub open spec fn is_found_in(content: Seq<char>, contents: ContentsView) -> bool {
    &&& ical::root_names(content) == Ok::<Seq<Seq<char>>, Seq<char>>(seq!["VCALENDAR"@])
    &&& ical::component_kinds(content) == Ok::<Seq<bool>, Seq<char>>(seq![true])
    &&& are_held(ical::event_properties(content, 0), contents.properties)
    &&& ical::event_lists(content, 0).len() == 0
    &&& forall|key: Seq<char>, value: DateView|
        #![trigger ical::event_date(content, 0, key), date_property(value)]
        contents.properties.contains_key(key) && is_date_key(key) && is_plain_date(value)
            && contents.properties[key] == date_property(value) ==> ical::event_date(content, 0, key)
            == Some(value)
    &&& ical::part_kinds(content, 0).len() == contents.alarms.len()
    &&& forall|k: int|
        0 <= k < contents.alarms.len() ==> is_alarm_in(content, k, #[trigger] contents.alarms[k])
    &&& mapping::written_recurrence(content) == held_recurrence(contents)
}

/// `icalendar::Calendar::push` and `TryInto<String>`: the text of a calendar of one event, named by
/// [`calendar_text`]. The event and each alarm carry the time of writing, and each alarm a random
/// identifier: of those nothing is said. Where the event holds only plain texts and dates, the
/// parser of the same crate (`parser::unfold`, `parser::read_calendar`) finds in the text what was
/// written: lines are folded and unfolded, texts escaped and unescaped, and dates formatted and
/// parsed by the same formats.
#[verifier::external_body]
fn icalendar_text(event: IcalendarEvent) -> (r: Option<String>)
    ensures
        exists|stamps: Seq<Seq<char>>|
            model::text_view(r) == #[trigger] calendar_text(
                kept_properties(event),
                kept_lists(event),
                kept_alarms(event),
                stamps,
            ),
        r is Some && is_plain(contents_of(event)) ==> is_found_in(
            ical::unfolded(r->0@),
            contents_of(event),
        ),
{
    let mut calendar = icalendar::Calendar::new();
    calendar.push(event);
    TryInto::<String>::try_into(&calendar).ok()
}

/// The most seconds before its start that a reminder can be written with.
pub const LONGEST_REMINDER: i64 = 9223372036854775;

/// The properties under a key.
pub open spec fn listed_under(lists: Map<Seq<char>, Seq<Seq<char>>>, key: Seq<char>) -> Seq<Seq<char>> {
    if lists.contains_key(key) {
        lists[key]
    } else {
        seq![]
    }
}

// ---------------------------------------------------------------------------------------------
// Schedules
// ---------------------------------------------------------------------------------------------

/// An instant as it is written: in UTC, or as the clocks of its zone show it. None where the zone is
/// not known, where its clocks show that time more than once, or where the instant is kept under
/// another offset than that of the zone.
pub open spec fn written_instant(instant: DateTime, timezone: Option<Seq<char>>) -> Option<DateView> {
    match timezone {
        None => Some(DateView::Utc(instant@.seconds as i64, instant@.nanos as u32)),
        Some(name) => if !zone::zone_known(name) {
            None
        } else {
            let shown = zone::shown_in(instant@, name);
            let time = Time { seconds: shown.local_second() as u32, nanos: shown.nanos as u32 };
            match zone::local_instant(name, shown.local_day(), time) {
                Some(resolved) => if resolved.offset == instant@.offset {
                    Some(DateView::Zoned(shown.local_day() as i32, time.seconds, time.nanos, name))
                } else {
                    None
                },
                None => None,
            }
        },
    }
}

/// The start and the end of a schedule as they are written; none where it does not run forward or
/// one of them cannot be written.
pub open spec fn written_schedule(schedule: ScheduleView) -> Option<(DateView, DateView)> {
    if !schedule.runs_forward() {
        None
    } else {
        match schedule {
            ScheduleView::AllDay { start_date, end_date_exclusive } => Some(
                (DateView::Date(start_date@ as i32), DateView::Date(end_date_exclusive@ as i32)),
            ),
            ScheduleView::Timed { start, end, timezone } => match (
                written_instant(start, timezone),
                written_instant(end, timezone),
            ) {
                (Some(start), Some(end)) => Some((start, end)),
                _ => None,
            },
        }
    }
}

/// Whether the clocks of the zone of a schedule show its instants under the offsets that they are kept
/// with.
pub open spec fn is_shown_in_zone(schedule: ScheduleView) -> bool {
    schedule matches ScheduleView::Timed { start, end, timezone: Some(name) } ==> zone::shown_in(
        start@,
        name,
    ) == start@ && zone::shown_in(end@, name) == end@
}

/// The values of an optional date to write.
pub open spec fn written_view(r: Option<WrittenDate>) -> Option<DateView> {
    match r {
        Some(value) => Some(value@),
        None => None,
    }
}

/// An instant as it is written in a zone.
pub fn serialize_tz_value(instant: &DateTime, timezone: &Option<String>) -> (r: Option<WrittenDate>)
    ensures
        written_view(r) == written_instant(*instant, model::text_view(*timezone)),
        r matches Some(WrittenDate::Zoned(_, time, _)) ==> time.valid(),
        r is Some ==> (model::text_view(*timezone) matches Some(name) ==> zone::shown_in(
            instant@,
            name,
        ) == instant@),
{
    match timezone {
        None => Some(WrittenDate::Instant(*instant)),
        Some(name) => {
            let shown = match zone::in_zone(instant, name.as_str()) {
                Some(shown) => shown,
                None => {
                    return None;
                },
            };
            let day = shown.local_date();
            let time = shown.local_time();
            let resolved = match zone::instant_in_zone(name.as_str(), &day, time) {
                Some(resolved) => resolved,
                None => {
                    return None;
                },
            };
            if resolved.offset() != instant.offset() {
                return None;
            }
            proof {
                let seconds = instant@.seconds as i64;
                date::lemma_local_day_in_range(shown@);
                assert(seconds + zone::zone_offset(name@, seconds) == date::day_start(day@)
                    + time.seconds);
            }
            Some(WrittenDate::Zoned(day, time, name.clone()))
        },
    }
}

/// The start and the end of a schedule as they are written.
fn serialize_schedule(schedule: &EventSchedule) -> (r: Option<(WrittenDate, WrittenDate)>)
    ensures
        match r {
            Some((start, end)) => written_schedule(schedule@) == Some((start@, end@)),
            None => written_schedule(schedule@) is None,
        },
        r matches Some((WrittenDate::Zoned(_, time, _), _)) ==> time.valid(),
        r matches Some((_, WrittenDate::Zoned(_, time, _))) ==> time.valid(),
        r is Some ==> is_shown_in_zone(schedule@),
{
    if !schedule.runs_forward() {
        return None;
    }
    match schedule {
        EventSchedule::AllDay { start_date, end_date_exclusive } => Some(
            (WrittenDate::Day(*start_date), WrittenDate::Day(*end_date_exclusive)),
        ),
        EventSchedule::Timed { start, end, timezone } => {
            let start = match serialize_tz_value(start, timezone) {
                Some(start) => start,
                None => {
                    return None;
                },
            };
            let end = match serialize_tz_value(end, timezone) {
                Some(end) => end,
                None => {
                    return None;
                },
            };
            Some((start, end))
        },
    }
}

// ---------------------------------------------------------------------------------------------
// Recurrences
// ---------------------------------------------------------------------------------------------

/// The key and the value of a line of a recurrence; none where one of them is empty or missing, or
/// the line is a start.
pub open spec fn line_parts(line: Seq<char>) -> Option<(Seq<char>, Seq<char>)> {
    match text::split_once(line, ':') {
        Some((key, value)) => if key.len() == 0 || value.len() == 0 || mapping::same_case(
            key,
            "DTSTART"@,
        ) {
            None
        } else {
            Some((key, value))
        },
        None => None,
    }
}

/// Contents with lines added as properties that occur once.
pub open spec fn with_single(contents: ContentsView, all: Seq<Seq<char>>) -> Option<ContentsView>
    decreases all.len(),
{
    if all.len() == 0 {
        Some(contents)
    } else {
        match (with_single(contents, all.drop_last()), line_parts(all.last())) {
            (Some(before), Some((key, value))) => Some(
                ContentsView {
                    properties: before.properties.insert(key, text_property(value)),
                    ..before
                },
            ),
            _ => None,
        }
    }
}

/// Contents with lines added as properties that can occur more than once.
pub open spec fn with_listed(contents: ContentsView, all: Seq<Seq<char>>) -> Option<ContentsView>
    decreases all.len(),
{
    if all.len() == 0 {
        Some(contents)
    } else {
        match (with_listed(contents, all.drop_last()), line_parts(all.last())) {
            (Some(before), Some((key, value))) => Some(
                ContentsView {
                    lists: before.lists.insert(key, listed_under(before.lists, key).push(value)),
                    ..before
                },
            ),
            _ => None,
        }
    }
}

/// Contents with the lines of a recurrence.
pub open spec fn with_recurrence(contents: ContentsView, recurrence: RecurrenceView) -> Option<
    ContentsView,
> {
    match with_single(contents, recurrence.rrule) {
        Some(first) => match with_listed(first, recurrence.rdate) {
            Some(second) => with_listed(second, recurrence.exdate),
            None => None,
        },
        None => None,
    }
}

/// The key and the value of a line of a recurrence.
fn split_line(line: &str) -> (r: Option<(String, String)>)
    ensures
        match r {
            Some((key, value)) => line_parts(line@) == Some((key@, value@)),
            None => line_parts(line@) is None,
        },
{
    match text::split_chars_once(&text::chars_of(line), ':') {
        Some((key, value)) => if key.len() == 0 || value.len() == 0 || text::same_ignoring_case(
            &key,
            "DTSTART",
        ) {
            None
        } else {
            Some((text::string_of(&key), text::string_of(&value)))
        },
        None => None,
    }
}

proof fn lemma_single_fails(contents: ContentsView, all: Seq<Seq<char>>, n: int)
    requires
        0 <= n <= all.len(),
        with_single(contents, all.take(n)) is None,
    ensures
        with_single(contents, all) is None,
    decreases all.len(),
{
    if n == all.len() {
        assert(all.take(n) =~= all);
    } else {
        assert(all.drop_last().take(n) =~= all.take(n));
        lemma_single_fails(contents, all.drop_last(), n);
    }
}

proof fn lemma_listed_fails(contents: ContentsView, all: Seq<Seq<char>>, n: int)
    requires
        0 <= n <= all.len(),
        with_listed(contents, all.take(n)) is None,
    ensures
        with_listed(contents, all) is None,
    decreases all.len(),
{
    if n == all.len() {
        assert(all.take(n) =~= all);
    } else {
        assert(all.drop_last().take(n) =~= all.take(n));
        lemma_listed_fails(contents, all.drop_last(), n);
    }
}

/// Add lines to an event as properties that occur once; false where one cannot be added.
fn add_single(event: &mut IcalendarEvent, all: &Vec<String>) -> (r: bool)
    ensures
        r == (with_single(contents_of(*old(event)), text::views(all@)) is Some),
        r ==> with_single(contents_of(*old(event)), text::views(all@)) == Some(
            contents_of(*final(event)),
        ),
{
    let ghost views = text::views(all@);
    let ghost before = contents_of(*event);
    for i in 0..all.len()
        invariant
            views == text::views(all@),
            with_single(before, views.take(i as int)) == Some(contents_of(*event)),
            before == contents_of(*old(event)),
    {
        assert(views.take(i + 1).drop_last() =~= views.take(i as int));
        assert(views.take(i + 1).last() == all@[i as int]@);
        match split_line(all[i].as_str()) {
            Some((key, value)) => {
                icalendar_add_property(event, key.as_str(), value.as_str());
            },
            None => {
                proof {
                    lemma_single_fails(before, views, i + 1);
                }
                return false;
            },
        }
    }
    assert(views.take(views.len() as int) =~= views);
    true
}

/// Add lines to an event as properties that can occur more than once; false where one cannot be
/// added.
fn add_listed(event: &mut IcalendarEvent, all: &Vec<String>) -> (r: bool)
    ensures
        r == (with_listed(contents_of(*old(event)), text::views(all@)) is Some),
        r ==> with_listed(contents_of(*old(event)), text::views(all@)) == Some(
            contents_of(*final(event)),
        ),
{
    let ghost views = text::views(all@);
    let ghost before = contents_of(*event);
    for i in 0..all.len()
        invariant
            views == text::views(all@),
            with_listed(before, views.take(i as int)) == Some(contents_of(*event)),
            before == contents_of(*old(event)),
    {
        assert(views.take(i + 1).drop_last() =~= views.take(i as int));
        assert(views.take(i + 1).last() == all@[i as int]@);
        match split_line(all[i].as_str()) {
            Some((key, value)) => {
                icalendar_add_multi_property(event, key.as_str(), value.as_str());
            },
            None => {
                proof {
                    lemma_listed_fails(before, views, i + 1);
                }
                return false;
            },
        }
    }
    assert(views.take(views.len() as int) =~= views);
    true
}

/// Add the lines of a recurrence to an event; false where one cannot be added.
fn add_recurrence(event: &mut IcalendarEvent, recurrence: &RecurrenceSpec) -> (r: bool)
    ensures
        r == (with_recurrence(contents_of(*old(event)), recurrence@) is Some),
        r ==> with_recurrence(contents_of(*old(event)), recurrence@) == Some(
            contents_of(*final(event)),
        ),
{
    if !add_single(event, &recurrence.rrule) {
        return false;
    }
    if !add_listed(event, &recurrence.rdate) {
        return false;
    }
    add_listed(event, &recurrence.exdate)
}

// ---------------------------------------------------------------------------------------------
// Events
// ---------------------------------------------------------------------------------------------

/// Whether each reminder comes before the start.
pub open spec fn all_before(reminders: Seq<ReminderView>) -> bool {
    forall|i: int| 0 <= i < reminders.len() ==> (#[trigger] reminders[i]).seconds_before_start > 0
}

/// Whether no reminder comes longer before the start than can be written.
pub open spec fn all_writable(reminders: Seq<ReminderView>) -> bool {
    forall|i: int|
        0 <= i < reminders.len() ==> (#[trigger] reminders[i]).seconds_before_start
            <= LONGEST_REMINDER
}

/// What an event to write holds, apart from its recurrence.
pub open spec fn plain_contents(event: EventView, remote_uid: Seq<char>, start: DateView, end: DateView) -> ContentsView {
    ContentsView {
        properties: Map::<Seq<char>, HeldView>::empty().insert(
            "UID"@,
            text_property(remote_uid),
        ).insert("SUMMARY"@, text_property(event.title)).insert(
            "LOCATION"@,
            text_property(event.location),
        ).insert("DESCRIPTION"@, text_property(event.description)).insert(
            "DTSTART"@,
            date_property(start),
        ).insert("DTEND"@, date_property(end)),
        lists: Map::empty(),
        alarms: event.reminders,
    }
}

/// What an event to write holds, or why it cannot be written; `valid` says whether the text of its
/// recurrence is accepted.
pub open spec fn event_contents(event: EventView, remote_uid: Seq<char>, valid: bool) -> Result<
    ContentsView,
    EventSerializationError,
> {
    if text::trimmed(remote_uid).len() == 0 {
        Err(EventSerializationError::EmptyUid)
    } else {
        match written_schedule(event.schedule) {
            None => Err(EventSerializationError::InvalidSchedule),
            Some((start, end)) => if !all_before(event.reminders) {
                Err(EventSerializationError::UnsupportedReminders)
            } else {
                let plain = plain_contents(event, remote_uid, start, end);
                match event.recurrence {
                    None => Ok(plain),
                    Some(recurrence) => if mapping::recurrence_refusal(
                        event.schedule,
                        recurrence,
                        valid,
                    ) is Some {
                        Err(EventSerializationError::UnsupportedRecurrence)
                    } else {
                        match with_recurrence(plain, recurrence) {
                            Some(contents) => Ok(contents),
                            None => Err(EventSerializationError::UnsupportedRecurrence),
                        }
                    },
                }
            },
        }
    }
}

/// Add reminders to an event as alarms; false where one does not come before the start.
fn add_alarms(event: &mut IcalendarEvent, reminders: &Vec<ReminderSpec>) -> (r: bool)
    requires
        all_writable(model::reminder_views(reminders@)),
    ensures
        r == all_before(model::reminder_views(reminders@)),
        r ==> contents_of(*final(event)) == (ContentsView {
            alarms: kept_alarms(*old(event)) + model::reminder_views(reminders@),
            ..contents_of(*old(event))
        }),
{
    let ghost views = model::reminder_views(reminders@);
    let ghost before = *event;
    assert(kept_alarms(before) + views.take(0) =~= kept_alarms(before));
    for i in 0..reminders.len()
        invariant
            before == *old(event),
            views == model::reminder_views(reminders@),
            all_writable(views),
            forall|k: int| 0 <= k < i ==> (#[trigger] views[k]).seconds_before_start > 0,
            contents_of(*event) == (ContentsView {
                alarms: kept_alarms(before) + views.take(i as int),
                ..contents_of(before)
            }),
    {
        assert(views[i as int] == reminders@[i as int]@);
        if reminders[i].seconds_before_start <= 0 {
            return false;
        }
        icalendar_add_alarm(event, &reminders[i]);
        assert(kept_alarms(before) + views.take(i + 1) =~= (kept_alarms(before) + views.take(
            i as int,
        )).push(views[i as int]));
    }
    assert(views.take(views.len() as int) =~= views);
    true
}

/// The event to write; `valid` says whether the text of its recurrence is accepted.
pub fn event_to_write(event: &Event, remote_uid: &str, valid: bool) -> (r: Result<
    IcalendarEvent,
    EventSerializationError,
>)
    requires
        all_writable(event@.reminders),
    ensures
        match r {
            Ok(written) => event_contents(event@, remote_uid@, valid) == Ok::<
                ContentsView,
                EventSerializationError,
            >(contents_of(written)),
            Err(error) => event_contents(event@, remote_uid@, valid) == Err::<
                ContentsView,
                EventSerializationError,
            >(error),
        },
        r is Ok ==> is_shown_in_zone(event@.schedule),
{
    if text::trim_chars(&text::chars_of(remote_uid)).len() == 0 {
        return Err(EventSerializationError::EmptyUid);
    }
    let (start, end): (WrittenDate, WrittenDate) = match serialize_schedule(&event.schedule) {
        Some(dates) => dates,
        None => {
            return Err(EventSerializationError::InvalidSchedule);
        },
    };
    let mut written = icalendar_event();
    icalendar_add_property(&mut written, "UID", remote_uid);
    icalendar_add_property(&mut written, "SUMMARY", event.title.as_str());
    icalendar_add_property(&mut written, "LOCATION", event.location.as_str());
    icalendar_add_property(&mut written, "DESCRIPTION", event.description.as_str());
    icalendar_add_date(&mut written, "DTSTART", &start);
    icalendar_add_date(&mut written, "DTEND", &end);
    if !add_alarms(&mut written, &event.reminders) {
        return Err(EventSerializationError::UnsupportedReminders);
    }
    let ghost plain = plain_contents(event@, remote_uid@, start@, end@);
    assert(Seq::<ReminderView>::empty() + event@.reminders =~= event@.reminders);
    assert(contents_of(written) == plain);
    if let Some(recurrence) = &event.recurrence {
        if mapping::recurrence_dtstart(&event.schedule).is_none() || !valid {
            return Err(EventSerializationError::UnsupportedRecurrence);
        }
        if !add_recurrence(&mut written, recurrence) {
            return Err(EventSerializationError::UnsupportedRecurrence);
        }
    }
    Ok(written)
}

/// The text that must be accepted for the recurrence of an event, where there is one.
pub open spec fn text_to_accept(event: EventView) -> Option<Seq<char>> {
    match event.recurrence {
        Some(recurrence) => mapping::validation_text(event.schedule, recurrence),
        None => None,
    }
}

/// The resource that an event is written as, or why it cannot be written.
pub open spec fn serialized(
    event: EventView,
    remote_uid: Seq<char>,
    valid: bool,
    stamps: Seq<Seq<char>>,
) -> Result<Seq<char>, EventSerializationError> {
    match event_contents(event, remote_uid, valid) {
        Err(error) => Err(error),
        Ok(contents) => match calendar_text(
            contents.properties,
            contents.lists,
            contents.alarms,
            stamps,
        ) {
            Some(content) => Ok(content),
            None => Err(EventSerializationError::Serialization),
        },
    }
}

/// The values of a resource that was written, or why there is none.
pub open spec fn serialized_view(r: Result<String, EventSerializationError>) -> Result<
    Seq<char>,
    EventSerializationError,
> {
    match r {
        Ok(content) => Ok(content@),
        Err(error) => Err(error),
    }
}

/// Whether an outcome is that of writing an event at some time.
pub open spec fn is_serialized(
    r: Result<Seq<char>, EventSerializationError>,
    event: EventView,
    remote_uid: Seq<char>,
    valid: bool,
) -> bool {
    exists|stamps: Seq<Seq<char>>| r == #[trigger] serialized(event, remote_uid, valid, stamps)
}

/// Whether an outcome is that of writing an event at some time on some machine.
pub open spec fn is_written(
    r: Result<Seq<char>, EventSerializationError>,
    event: EventView,
    remote_uid: Seq<char>,
) -> bool {
    exists|valid: bool|
        #[trigger] rules::is_verdict(valid, text_to_accept(event)) && is_serialized(
            r,
            event,
            remote_uid,
            valid,
        )
}

/// The text of an event that was made ready to be written.
fn text_of_event(event: &Event, remote_uid: &str, valid: bool, written: IcalendarEvent) -> (r: Option<
    String,
>)
    requires
        event_contents(event@, remote_uid@, valid) == Ok::<ContentsView, EventSerializationError>(
            contents_of(written),
        ),
        is_shown_in_zone(event@.schedule),
    ensures
        exists|stamps: Seq<Seq<char>>|
            model::text_view(r) == #[trigger] calendar_text(
                kept_properties(written),
                kept_lists(written),
                kept_alarms(written),
                stamps,
            ),
        readback::is_plain_event(event@, remote_uid@) ==> (r matches Some(content)
            ==> readback::is_mapped_back(content@, event@, remote_uid@)),
{
    let reminders: usize = event.reminders.len();
    let content = icalendar_text(written);
    proof {
        if readback::is_plain_event(event@, remote_uid@) && content is Some {
            readback::lemma_plain_contents(event@, remote_uid@, valid);
            assert(event@.reminders.len() == reminders);
            readback::lemma_mapped_back(content->0@, event@, remote_uid@, valid);
        }
    }
    content
}

/// Write an event as a resource with one event. Whether a recurrence in local times is accepted can
/// depend on the zone of the machine; where it says of each time which zone it is in, or there is
/// none, the outcome depends on the event and the time of writing alone. A plain event is read back
/// from the resource.
pub fn serialize_icalendar_event(event: &Event, remote_uid: &str) -> (r: Result<
    String,
    EventSerializationError,
>)
    requires
        all_writable(event@.reminders),
    ensures
        is_written(serialized_view(r), event@, remote_uid@),
        readback::is_plain_event(event@, remote_uid@) ==> (r matches Ok(content)
            ==> readback::is_mapped_back(content@, event@, remote_uid@)),
{
    let source = match &event.recurrence {
        Some(recurrence) => mapping::make_validation_text(&event.schedule, recurrence),
        None => None,
    };
    let valid = rules::is_accepted(&source);
    assert(rules::is_verdict(valid, text_to_accept(event@)));
    let ghost no_stamps = Seq::<Seq<char>>::empty();
    let r = match event_to_write(event, remote_uid, valid) {
        Ok(written) => {
            let ghost contents = contents_of(written);
            let content = text_of_event(event, remote_uid, valid, written);
            let ghost stamps = choose|stamps: Seq<Seq<char>>|
                model::text_view(content) == #[trigger] calendar_text(
                    contents.properties,
                    contents.lists,
                    contents.alarms,
                    stamps,
                );
            let r = match content {
                Some(content) => Ok(content),
                None => Err(EventSerializationError::Serialization),
            };
            assert(serialized_view(r) == serialized(event@, remote_uid@, valid, stamps));
            r
        },
        Err(error) => {
            let r = Err(error);
            assert(serialized_view(r) == serialized(event@, remote_uid@, valid, no_stamps));
            r
        },
    };
    assert(is_serialized(serialized_view(r), event@, remote_uid@, valid));
    r
}

// ---------------------------------------------------------------------------------------------
// Laws of what is written
// ---------------------------------------------------------------------------------------------

/// An event without a recurrence is written with its name, title, place and description, and its start
/// and end, each under the property for it, and with nothing else; its reminders become alarms.
pub proof fn law_properties_of_a_written_event(event: EventView, remote_uid: Seq<char>, valid: bool)
    requires
        event_contents(event, remote_uid, valid) is Ok,
        event.recurrence is None,
    ensures
        ({
            let contents = event_contents(event, remote_uid, valid)->Ok_0;
            let (start, end) = written_schedule(event.schedule)->0;
            &&& written_schedule(event.schedule) is Some
            &&& contents.properties.contains_key("UID"@) && contents.properties["UID"@]
                == text_property(remote_uid)
            &&& contents.properties.contains_key("SUMMARY"@) && contents.properties["SUMMARY"@]
                == text_property(event.title)
            &&& contents.properties.contains_key("LOCATION"@) && contents.properties["LOCATION"@]
                == text_property(event.location)
            &&& contents.properties.contains_key("DESCRIPTION"@)
                && contents.properties["DESCRIPTION"@] == text_property(event.description)
            &&& contents.properties.contains_key("DTSTART"@) && contents.properties["DTSTART"@]
                == date_property(start)
            &&& contents.properties.contains_key("DTEND"@) && contents.properties["DTEND"@]
                == date_property(end)
            &&& forall|key: Seq<char>| #[trigger]
                contents.properties.contains_key(key) ==> key == "UID"@ || key == "SUMMARY"@ || key
                    == "LOCATION"@ || key == "DESCRIPTION"@ || key == "DTSTART"@ || key == "DTEND"@
            &&& contents.lists == Map::<Seq<char>, Seq<Seq<char>>>::empty()
            &&& contents.alarms == event.reminders
        }),
{
    reveal_strlit("UID");
    reveal_strlit("SUMMARY");
    reveal_strlit("LOCATION");
    reveal_strlit("DESCRIPTION");
    reveal_strlit("DTSTART");
    reveal_strlit("DTEND");
    assert("UID"@.len() == 3 && "SUMMARY"@.len() == 7 && "LOCATION"@.len() == 8
        && "DESCRIPTION"@.len() == 11 && "DTSTART"@.len() == 7 && "DTEND"@.len() == 5);
    assert("SUMMARY"@[0] == 'S' && "DTSTART"@[0] == 'D');
}

/// A recurring event is written with a line of its rule as the property before its first colon, with
/// what follows as the value, and with all else as without the rule. One with added or excluded dates
/// has each under its property too, in order.
pub proof fn law_recurrence_of_a_written_event(
    contents: ContentsView,
    recurrence: RecurrenceView,
    dates: Seq<Seq<char>>,
    key: Seq<char>,
    value: Seq<char>,
)
    requires
        !key.contains(':'),
        key.len() > 0,
        value.len() > 0,
        text::lower(key) != text::lower("DTSTART"@),
    ensures
        recurrence.rrule.len() == 0 && recurrence.rdate.len() == 0 && recurrence.exdate.len() == 0
            ==> with_recurrence(contents, recurrence) == Some(contents),
        recurrence.rrule == seq![key + ":"@ + value] && recurrence.rdate.len() == 0
            && recurrence.exdate.len() == 0 ==> with_recurrence(contents, recurrence) == Some(
            ContentsView {
                properties: contents.properties.insert(
                    key,
                    HeldView { text: value, params: seq![] },
                ),
                ..contents
            },
        ),
        with_listed(contents, dates) matches Some(before) ==> (with_listed(
            contents,
            dates.push(key + ":"@ + value),
        ) matches Some(after) && after.properties == before.properties && after.alarms == before.alarms
            && after.lists.contains_key(key) && after.lists[key] == (if before.lists.contains_key(key) {
            before.lists[key]
        } else {
            Seq::<Seq<char>>::empty()
        }).push(value) && forall|other: Seq<char>|
            other != key ==> (#[trigger] after.lists.contains_key(other)
                <==> before.lists.contains_key(other)) && (before.lists.contains_key(other)
                ==> after.lists[other] == before.lists[other])),
{
    reveal_strlit(":");
    assert(":"@ =~= seq![':']);
    let line = key + ":"@ + value;
    assert forall|i: int| 0 <= i < key.len() implies line[i] != ':' by {
        assert(line[i] == key[i]);
        assert(key.contains(key[i]));
    }
    text::lemma_index_of_char_unique(line, ':', key.len() as int);
    assert(line.take(key.len() as int) =~= key);
    assert(line.skip(key.len() as int + 1) =~= value);
    assert(line_parts(line) == Some((key, value)));
    if recurrence.rrule == seq![line] {
        assert(recurrence.rrule.drop_last() =~= seq![]);
        assert(with_single(contents, recurrence.rrule.drop_last()) == Some(contents));
        assert(recurrence.rrule.last() == line);
    }
    assert(dates.push(line).drop_last() =~= dates);
    assert(dates.push(line).last() == line);
}

/// An event is not written without a name, where its schedule does not run forward, or has a time that
/// its zone does not show under that offset, where a reminder does not come before the start, or where
/// its recurrence is not valid.
pub proof fn law_events_that_are_not_written(event: EventView, remote_uid: Seq<char>, valid: bool)
    ensures
        text::trimmed(remote_uid).len() == 0 ==> event_contents(event, remote_uid, valid) == Err::<
            ContentsView,
            EventSerializationError,
        >(EventSerializationError::EmptyUid),
        text::trimmed(remote_uid).len() > 0 && !event.schedule.runs_forward() ==> event_contents(
            event,
            remote_uid,
            valid,
        ) == Err::<ContentsView, EventSerializationError>(EventSerializationError::InvalidSchedule),
        text::trimmed(remote_uid).len() > 0 && written_schedule(event.schedule) is Some ==> {
            &&& (exists|i: int|
                0 <= i < event.reminders.len() && (#[trigger] event.reminders[i]).seconds_before_start
                    <= 0) ==> event_contents(event, remote_uid, valid) == Err::<
                ContentsView,
                EventSerializationError,
            >(EventSerializationError::UnsupportedReminders)
            &&& (forall|i: int|
                0 <= i < event.reminders.len() ==> (#[trigger] event.reminders[i]).seconds_before_start
                    > 0) ==> {
                &&& event.recurrence is None ==> event_contents(event, remote_uid, valid) is Ok
                &&& event.recurrence is Some && !valid ==> event_contents(event, remote_uid, valid)
                    == Err::<ContentsView, EventSerializationError>(
                    EventSerializationError::UnsupportedRecurrence,
                )
            }
        },
        event.schedule is AllDay && event.schedule.runs_forward() ==> written_schedule(event.schedule)
            is Some,
{
}

/// Whole days are written as they are; an instant without a zone in UTC, to the second and under no
/// zone; and one in a zone as the clocks of the zone show it, under the name of the zone.
pub proof fn law_written_times(instant: DateTime, timezone: Option<Seq<char>>)
    requires
        instant@.valid(),
    ensures
        timezone is None ==> (written_instant(instant, timezone) matches Some(DateView::Utc(seconds, nanos))
            && seconds == instant@.seconds && nanos == instant@.nanos),
        timezone matches Some(name) ==> {
            &&& !zone::zone_known(name) ==> written_instant(instant, timezone) is None
            &&& zone::shown_in(instant@, name).valid() ==> (written_instant(instant, timezone) matches Some(
                value,
            ) ==> (value matches DateView::Zoned(day, second, nanos, zone) && ({
                let shown = zone::shown_in(instant@, name);
                &&& zone == name
                &&& day == shown.local_day()
                &&& second == shown.local_second()
                &&& nanos == shown.nanos
            })))
        },
{
    if let Some(name) = timezone {
        if zone::shown_in(instant@, name).valid() {
            date::lemma_local_day_in_range(zone::shown_in(instant@, name));
        }
    }
}

/// How dates are written: a day as a date that says so, an instant in UTC without parameters, and a
/// time in a zone with the name of the zone.
pub proof fn law_text_of_dates(value: DateView)
    ensures
        value matches DateView::Date(day) ==> date_property(value).text == formats::compact_date(
            day as int,
        ) && date_property(value).params == seq![("VALUE"@, "DATE"@)],
        value matches DateView::Utc(seconds, nanos) ==> date_property(value).text
            == formats::compact_utc(
            DateTimeView { seconds: seconds as int, nanos: nanos as int, offset: 0 },
        ) && date_property(value).params.len() == 0,
        value matches DateView::Zoned(day, second, nanos, name) ==> date_property(value).text
            == formats::compact_date_time(day as int, second as int, nanos as int) && date_property(
            value,
        ).params == seq![("TZID"@, name)],
{
}

/// An event that cannot be written is refused for the first reason; any other is written as the text of
/// its contents, or refused where there is no such text.
pub proof fn law_written_or_refused(event: EventView, remote_uid: Seq<char>, valid: bool, stamps: Seq<Seq<char>>)
    ensures
        match event_contents(event, remote_uid, valid) {
            Err(error) => serialized(event, remote_uid, valid, stamps) == Err::<
                Seq<char>,
                EventSerializationError,
            >(error),
            Ok(contents) => match serialized(event, remote_uid, valid, stamps) {
                Ok(content) => calendar_text(
                    contents.properties,
                    contents.lists,
                    contents.alarms,
                    stamps,
                ) == Some(content),
                Err(error) => error is Serialization && calendar_text(
                    contents.properties,
                    contents.lists,
                    contents.alarms,
                    stamps,
                ) is None,
            },
        },
{
}

} // verus!
