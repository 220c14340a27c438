//! The recurrences of the simple editor: rules written, read, described and split.
use vstd::prelude::*;

use crate::date;
use crate::date::{Date, DateTime, Time};
use crate::formats;
use crate::model;
use crate::model::{EventSchedule, RecurrenceSpec, ScheduleView};
use crate::text;
use crate::zone;

verus! {

// ---------------------------------------------------------------------------------------------
// The form
// ---------------------------------------------------------------------------------------------

/// How often the simple editor lets an event repeat.
#[derive(Clone, Copy, Debug, PartialEq, Eq, Structural)]
pub enum Frequency {
    NoRepeat,
    Daily,
    Weekly,
    Monthly,
    Yearly,
}

/// A day of the week.
#[derive(Clone, Copy, Debug, PartialEq, Eq, Structural)]
pub enum Weekday {
    Monday,
    Tuesday,
    Wednesday,
    Thursday,
    Friday,
    Saturday,
    Sunday,
}

/// When a recurrence ends.
#[derive(Clone, Copy, Debug, PartialEq, Eq, Structural)]
pub enum EndCondition {
    Never,
    Count(u32),
    Until(Date),
}

/// The state of the simple editor.
#[derive(Debug)]
pub struct RecurrenceForm {
    pub frequency: Frequency,
    pub interval: u32,
    pub weekdays: Vec<Weekday>,
    pub end: EndCondition,
}

/// The values of a [`RecurrenceForm`].
#[verifier::ext_equal]
pub struct FormView {
    pub frequency: Frequency,
    pub interval: u32,
    pub weekdays: Seq<Weekday>,
    pub end: EndCondition,
}

impl View for RecurrenceForm {
    type V = FormView;

    open spec fn view(&self) -> FormView {
        FormView {
            frequency: self.frequency,
            interval: self.interval,
            weekdays: self.weekdays@,
            end: self.end,
        }
    }
}

/// How a recurrence is shown: as a form, or in words alone.
#[derive(Debug)]
pub enum RecurrencePresentation {
    Editable { form: RecurrenceForm, summary: String },
    Custom { summary: String },
}

/// Why a form is no recurrence.
#[derive(Clone, Copy, Debug, PartialEq, Eq, Structural)]
pub enum RecurrenceFormError {
    InvalidInterval,
    WeeklyRequiresWeekday,
    WeekdaysOnlyApplyToWeekly,
    InvalidCount,
    InvalidTimezone,
}

impl RecurrenceFormError {
    /// What to tell the user.
    pub open spec fn message_spec(self) -> Seq<char> {
        match self {
            RecurrenceFormError::InvalidInterval => "recurrence interval must be at least one"@,
            RecurrenceFormError::WeeklyRequiresWeekday => "weekly recurrence requires a weekday"@,
            RecurrenceFormError::WeekdaysOnlyApplyToWeekly => "weekdays only apply to weekly recurrence"@,
            RecurrenceFormError::InvalidCount => "recurrence count must be at least one"@,
            RecurrenceFormError::InvalidTimezone => "recurrence boundary is not representable in the event timezone"@,
        }
    }

    /// What to tell the user.
    pub fn message(&self) -> (r: String)
        ensures
            r@ == self.message_spec(),
    {
        let message = match self {
            RecurrenceFormError::InvalidInterval => "recurrence interval must be at least one",
            RecurrenceFormError::WeeklyRequiresWeekday => "weekly recurrence requires a weekday",
            RecurrenceFormError::WeekdaysOnlyApplyToWeekly => "weekdays only apply to weekly recurrence",
            RecurrenceFormError::InvalidCount => "recurrence count must be at least one",
            RecurrenceFormError::InvalidTimezone => "recurrence boundary is not representable in the event timezone",
        };
        message.to_owned()
    }
}

// ---------------------------------------------------------------------------------------------
// Weekdays
// ---------------------------------------------------------------------------------------------

/// The weekday `n` days after Monday.
pub open spec fn weekday_at(n: int) -> Weekday {
    if n == 0 {
        Weekday::Monday
    } else if n == 1 {
        Weekday::Tuesday
    } else if n == 2 {
        Weekday::Wednesday
    } else if n == 3 {
        Weekday::Thursday
    } else if n == 4 {
        Weekday::Friday
    } else if n == 5 {
        Weekday::Saturday
    } else {
        Weekday::Sunday
    }
}

/// The number of a weekday, Monday the first.
pub open spec fn weekday_number_spec(weekday: Weekday) -> u8 {
    match weekday {
        Weekday::Monday => 1,
        Weekday::Tuesday => 2,
        Weekday::Wednesday => 3,
        Weekday::Thursday => 4,
        Weekday::Friday => 5,
        Weekday::Saturday => 6,
        Weekday::Sunday => 7,
    }
}

/// Those of the first `n` days of the week that a list holds, in the order of the week.
pub open spec fn weekdays_before(weekdays: Seq<Weekday>, n: nat) -> Seq<Weekday>
    decreases n,
{
    if n == 0 {
        seq![]
    } else if weekdays.contains(weekday_at(n - 1)) {
        weekdays_before(weekdays, (n - 1) as nat).push(weekday_at(n - 1))
    } else {
        weekdays_before(weekdays, (n - 1) as nat)
    }
}

/// The weekdays of a list in the order of the week, each once.
pub open spec fn ordered_weekdays(weekdays: Seq<Weekday>) -> Seq<Weekday> {
    weekdays_before(weekdays, 7)
}

/// The code of a weekday in a rule.
pub open spec fn weekday_code_spec(weekday: Weekday) -> Seq<char> {
    match weekday {
        Weekday::Monday => "MO"@,
        Weekday::Tuesday => "TU"@,
        Weekday::Wednesday => "WE"@,
        Weekday::Thursday => "TH"@,
        Weekday::Friday => "FR"@,
        Weekday::Saturday => "SA"@,
        Weekday::Sunday => "SU"@,
    }
}

/// The codes of a list of weekdays.
pub open spec fn weekday_codes(weekdays: Seq<Weekday>) -> Seq<Seq<char>> {
    Seq::new(weekdays.len(), |i: int| weekday_code_spec(weekdays[i]))
}

/// The weekday that a code stands for.
pub open spec fn coded_weekday(code: Seq<char>) -> Option<Weekday> {
    let code = text::upper(code);
    if code == "MO"@ {
        Some(Weekday::Monday)
    } else if code == "TU"@ {
        Some(Weekday::Tuesday)
    } else if code == "WE"@ {
        Some(Weekday::Wednesday)
    } else if code == "TH"@ {
        Some(Weekday::Thursday)
    } else if code == "FR"@ {
        Some(Weekday::Friday)
    } else if code == "SA"@ {
        Some(Weekday::Saturday)
    } else if code == "SU"@ {
        Some(Weekday::Sunday)
    } else {
        None
    }
}

/// The English name of a weekday.
pub open spec fn weekday_name_spec(weekday: Weekday) -> Seq<char> {
    match weekday {
        Weekday::Monday => "Monday"@,
        Weekday::Tuesday => "Tuesday"@,
        Weekday::Wednesday => "Wednesday"@,
        Weekday::Thursday => "Thursday"@,
        Weekday::Friday => "Friday"@,
        Weekday::Saturday => "Saturday"@,
        Weekday::Sunday => "Sunday"@,
    }
}

/// The names of a list of weekdays.
pub open spec fn weekday_names(weekdays: Seq<Weekday>) -> Seq<Seq<char>> {
    Seq::new(weekdays.len(), |i: int| weekday_name_spec(weekdays[i]))
}

/// The code of a weekday in a rule.
pub fn weekday_code(weekday: Weekday) -> (r: String)
    ensures
        r@ == weekday_code_spec(weekday),
{
    let code = match weekday {
        Weekday::Monday => "MO",
        Weekday::Tuesday => "TU",
        Weekday::Wednesday => "WE",
        Weekday::Thursday => "TH",
        Weekday::Friday => "FR",
        Weekday::Saturday => "SA",
        Weekday::Sunday => "SU",
    };
    code.to_owned()
}

/// The English name of a weekday.
pub fn weekday_name(weekday: Weekday) -> (r: String)
    ensures
        r@ == weekday_name_spec(weekday),
{
    let name = match weekday {
        Weekday::Monday => "Monday",
        Weekday::Tuesday => "Tuesday",
        Weekday::Wednesday => "Wednesday",
        Weekday::Thursday => "Thursday",
        Weekday::Friday => "Friday",
        Weekday::Saturday => "Saturday",
        Weekday::Sunday => "Sunday",
    };
    name.to_owned()
}

/// The weekday `n` days after Monday.
fn weekday_from_monday(n: u32) -> (r: Weekday)
    requires
        n < 7,
    ensures
        r == weekday_at(n as int),
{
    if n == 0 {
        Weekday::Monday
    } else if n == 1 {
        Weekday::Tuesday
    } else if n == 2 {
        Weekday::Wednesday
    } else if n == 3 {
        Weekday::Thursday
    } else if n == 4 {
        Weekday::Friday
    } else if n == 5 {
        Weekday::Saturday
    } else {
        Weekday::Sunday
    }
}

/// Whether a list holds a weekday.
fn has_weekday(weekdays: &Vec<Weekday>, weekday: Weekday) -> (r: bool)
    ensures
        r == weekdays@.contains(weekday),
{
    for i in 0..weekdays.len()
        invariant
            forall|k: int| 0 <= k < i ==> weekdays@[k] != weekday,
    {
        if weekdays[i] == weekday {
            assert(weekdays@[i as int] == weekday);
            return true;
        }
    }
    false
}

/// The weekdays of a list in the order of the week, each once.
fn order_weekdays(weekdays: &Vec<Weekday>) -> (r: Vec<Weekday>)
    ensures
        r@ == ordered_weekdays(weekdays@),
{
    let mut out: Vec<Weekday> = Vec::new();
    for n in 0..7u32
        invariant
            out@ == weekdays_before(weekdays@, n as nat),
    {
        let weekday = weekday_from_monday(n);
        assert(weekdays_before(weekdays@, (n + 1) as nat) == if weekdays@.contains(weekday) {
            weekdays_before(weekdays@, n as nat).push(weekday)
        } else {
            weekdays_before(weekdays@, n as nat)
        });
        if has_weekday(weekdays, weekday) {
            out.push(weekday);
        }
    }
    out
}

/// Which weekdays a list in the order of the week holds.
proof fn lemma_weekday_kept(weekdays: Seq<Weekday>, n: nat, w: Weekday)
    requires
        n <= 7,
    ensures
        weekdays_before(weekdays, n).contains(w) <==> weekdays.contains(w) && weekday_number_spec(w)
            <= n,
    decreases n,
{
    if n > 0 {
        let m = (n - 1) as nat;
        lemma_weekday_kept(weekdays, m, w);
        let shorter = weekdays_before(weekdays, m);
        let day = weekday_at(n - 1);
        assert(weekday_number_spec(w) == n <==> w == day);
        if weekdays.contains(day) {
            let longer = shorter.push(day);
            if longer.contains(w) {
                let k = choose|k: int| 0 <= k < longer.len() && longer[k] == w;
                if k < shorter.len() {
                    assert(shorter[k] == w);
                }
            }
            if shorter.contains(w) {
                let k = choose|k: int| 0 <= k < shorter.len() && shorter[k] == w;
                assert(longer[k] == w);
            }
            assert(longer[longer.len() - 1] == day);
        }
    }
}

/// A list in the order of the week holds what the list holds, each weekday once.
pub proof fn lemma_weekdays_before(weekdays: Seq<Weekday>, n: nat)
    requires
        n <= 7,
    ensures
        forall|w: Weekday|
            #![trigger weekdays_before(weekdays, n).contains(w)]
            #![trigger weekdays.contains(w)]
            weekdays_before(weekdays, n).contains(w) <==> weekdays.contains(w) && weekday_number_spec(
                w,
            ) <= n,
        weekdays_before(weekdays, n).no_duplicates(),
    decreases n,
{
    assert forall|w: Weekday|
        #![trigger weekdays_before(weekdays, n).contains(w)]
        #![trigger weekdays.contains(w)]
        weekdays_before(weekdays, n).contains(w) <==> weekdays.contains(w) && weekday_number_spec(w)
            <= n by {
        lemma_weekday_kept(weekdays, n, w);
    }
    if n > 0 {
        let m = (n - 1) as nat;
        lemma_weekdays_before(weekdays, m);
        lemma_weekday_kept(weekdays, m, weekday_at(n - 1));
    }
}

/// Putting a list in the order of the week twice is putting it there once.
pub proof fn lemma_ordered_weekdays_idempotent(weekdays: Seq<Weekday>)
    ensures
        ordered_weekdays(ordered_weekdays(weekdays)) == ordered_weekdays(weekdays),
{
    lemma_weekdays_before(weekdays, 7);
    lemma_same_members_same_order(ordered_weekdays(weekdays), weekdays, 7);
}

proof fn lemma_same_members_same_order(a: Seq<Weekday>, b: Seq<Weekday>, n: nat)
    requires
        forall|w: Weekday| a.contains(w) <==> b.contains(w),
    ensures
        weekdays_before(a, n) == weekdays_before(b, n),
    decreases n,
{
    if n > 0 {
        lemma_same_members_same_order(a, b, (n - 1) as nat);
    }
}

// ---------------------------------------------------------------------------------------------
// The last day of a recurrence
// ---------------------------------------------------------------------------------------------

/// The value of `UNTIL` for the last day `day` of an event: the date for an all-day event, and
/// otherwise the instant, in UTC, at which the event starts on that day in its own zone.
pub open spec fn until_text(day: int, schedule: ScheduleView) -> Result<Seq<char>, RecurrenceFormError> {
    match schedule {
        ScheduleView::AllDay { .. } => Ok(formats::compact_date(day)),
        ScheduleView::Timed { start, timezone: None, .. } => {
            let utc = start@.at_offset(0);
            Ok(formats::compact_date_time(day, utc.local_second(), utc.nanos).push('Z'))
        },
        ScheduleView::Timed { start, timezone: Some(name), .. } => if zone::zone_known(name) {
            match zone::local_instant(name, day, local_time_of(zone::shown_in(start@, name))) {
                Some(instant) => Ok(formats::compact_utc(instant)),
                None => Err(RecurrenceFormError::InvalidTimezone),
            }
        } else {
            Err(RecurrenceFormError::InvalidTimezone)
        },
    }
}

/// The local time of day of an instant.
pub open spec fn local_time_of(v: date::DateTimeView) -> Time {
    Time { seconds: v.local_second() as u32, nanos: v.nanos as u32 }
}

/// Whether the value of `UNTIL` for a last day is not empty, fits into a rule and is read as that
/// day.
pub open spec fn until_value_reads_back(day: int, schedule: ScheduleView) -> bool {
    &&& until_text(day, schedule) matches Ok(until)
    &&& until.len() > 0
    &&& !until.contains(';')
    &&& parsed_until(until, schedule) == Some(day)
}

/// Whether the value of `UNTIL` for a last day is written with a year of four digits.
pub open spec fn has_short_until(day: int, schedule: ScheduleView) -> bool {
    match schedule {
        ScheduleView::Timed { start, timezone: Some(name), .. } => zone::local_instant(
            name,
            day,
            local_time_of(zone::shown_in(start@, name)),
        ) matches Some(instant) && formats::has_four_digit_year(instant.at_offset(0).local_day()),
        _ => formats::has_four_digit_year(day),
    }
}

proof fn lemma_all_day_until_reads_back(day: int, schedule: ScheduleView)
    requires
        schedule is AllDay,
        formats::date_reads_back(day),
        date::is_day(day),
        has_short_until(day, schedule),
    ensures
        until_value_reads_back(day, schedule),
{
    formats::lemma_compact_civil(date::civil_of(day));
}

/// A value with the date and time of an instant in UTC is read as the day on which the clocks of the
/// event show that instant.
proof fn lemma_timed_until_reads_back(
    day: int,
    schedule: ScheduleView,
    until: Seq<char>,
    utc: date::DateTimeView,
)
    requires
        schedule is Timed,
        utc.valid(),
        utc.offset == 0,
        formats::date_reads_back(utc.local_day()),
        formats::has_four_digit_year(utc.local_day()),
        until_text(day, schedule) == Ok::<Seq<char>, RecurrenceFormError>(until),
        until == formats::compact_utc(utc),
        shown_day(utc.seconds, schedule) == Some(day),
    ensures
        until_value_reads_back(day, schedule),
{
    assert(utc.at_offset(0) == utc);
    date::lemma_local_day_in_range(utc);
    formats::lemma_compact_utc(utc);
    lemma_utc_seconds(utc);
    assert(until_seconds(until) == Some(utc.seconds));
    assert forall|i: int| 0 <= i < until.len() implies until[i] != ';' by {
        if i != 8 && i != 15 {
            assert(text::is_digit(until[i]));
        }
    }
}

/// The last day of an event without a zone is read back.
#[verifier::spinoff_prover]
proof fn lemma_utc_until_reads_back(day: int, schedule: ScheduleView)
    requires
        schedule matches ScheduleView::Timed { start, timezone: None, .. } && start@.valid(),
        formats::date_reads_back(day),
        formats::has_four_digit_year(day),
    ensures
        until_value_reads_back(day, schedule),
{
    let utc = schedule->start@.at_offset(0);
    let at = date::DateTimeView {
        seconds: date::day_start(day) + utc.local_second(),
        nanos: utc.nanos,
        offset: 0,
    };
    date::lemma_local_day_in_range(utc);
    date::lemma_four_digit_day(day);
    lemma_second_of_day(day, utc.local_second());
    assert(utc.nanos >= 1000000000 ==> at.seconds % 60 == 59);
    assert(at.at_offset(0) == at);
    lemma_timed_until_reads_back(day, schedule, until_text(day, schedule)->Ok_0, at);
}

proof fn lemma_second_of_day(day: int, second: int)
    requires
        0 <= second < 86400,
    ensures
        date::day_of_second(date::day_start(day) + second) == day,
        (date::day_start(day) + second) % 86400 == second,
{
}

/// The last day of an event in a zone is read back, where the clocks of the zone show the instant at
/// which it starts on that day.
proof fn lemma_zoned_until_reads_back(day: int, schedule: ScheduleView, instant: date::DateTimeView)
    requires
        schedule matches ScheduleView::Timed { start, timezone: Some(name), .. } && zone::zone_known(
            name,
        ) && zone::local_instant(name, day, local_time_of(zone::shown_in(start@, name))) == Some(
            instant,
        ) && zone::shown_in(instant, name).local_day() == day,
        instant.valid(),
        formats::date_reads_back(instant.at_offset(0).local_day()),
        has_short_until(day, schedule),
    ensures
        until_value_reads_back(day, schedule),
{
    lemma_timed_until_reads_back(
        day,
        schedule,
        until_text(day, schedule)->Ok_0,
        instant.at_offset(0),
    );
}

/// The date and time of an instant in UTC is read back to its second.
proof fn lemma_utc_seconds(utc: date::DateTimeView)
    requires
        utc.valid(),
        utc.offset == 0,
        formats::date_reads_back(utc.local_day()),
        formats::has_four_digit_year(utc.local_day()),
    ensures
        until_seconds(formats::compact_utc(utc)) == Some(utc.seconds),
{
    assert(utc.at_offset(0) == utc);
    date::lemma_local_day_in_range(utc);
    formats::lemma_compact_utc(utc);
    assert(utc.nanos >= 1000000000 ==> utc.local_second() % 60 == 59);
    formats::lemma_second_reads_back(
        formats::compact_utc(utc),
        9,
        utc.local_second(),
        utc.nanos,
    );
}

/// The value of `UNTIL` for the last day of an event that starts at `start` in the named zone.
fn until_value_in_zone(day: &Date, start: &DateTime, name: &str) -> (r: Option<(String, DateTime)>)
    ensures
        match r {
            Some((value, instant)) => zone::zone_known(name@) && zone::local_instant(
                name@,
                day@,
                local_time_of(zone::shown_in(start@, name@)),
            ) == Some(instant@) && value@ == formats::compact_utc(instant@) && zone::shown_in(
                instant@,
                name@,
            ).local_day() == day@ && formats::date_reads_back(instant@.at_offset(0).local_day()) && instant@.valid(),
            None => zone::zone_known(name@) ==> zone::local_instant(
                name@,
                day@,
                local_time_of(zone::shown_in(start@, name@)),
            ) is None,
        },
{
    match zone::in_zone(start, name) {
        None => None,
        Some(shown) => {
            let time = shown.local_time();
            assert(time == local_time_of(zone::shown_in(start@, name@)));
            match zone::instant_in_zone(name, day, time) {
                Some(instant) => Some((formats::compact_utc_text(&instant), instant)),
                None => None,
            }
        },
    }
}

/// The value of `UNTIL` for the last day of an event.
pub fn until_value(day: &Date, schedule: &EventSchedule) -> (r: Result<String, RecurrenceFormError>)
    ensures
        match r {
            Ok(value) => until_text(day@, schedule@) == Ok::<Seq<char>, RecurrenceFormError>(value@),
            Err(error) => until_text(day@, schedule@) == Err::<Seq<char>, RecurrenceFormError>(error),
        },
        r is Ok && has_short_until(day@, schedule@) ==> until_value_reads_back(day@, schedule@),
{
    let known: i32 = day.days();
    match schedule {
        EventSchedule::AllDay { .. } => {
            let value = formats::compact_date_text(day);
            proof {
                if has_short_until(day@, schedule@) {
                    lemma_all_day_until_reads_back(day@, schedule@);
                }
            }
            Ok(value)
        },
        EventSchedule::Timed { start, timezone, .. } => match timezone {
            None => {
                let utc = start.with_offset(0);
                let time = utc.local_time();
                let mut value = formats::compact_date_time_text(day, &time);
                value.push('Z');
                proof {
                    assert(until_text(day@, schedule@) == Ok::<Seq<char>, RecurrenceFormError>(
                        value@,
                    ));
                    if has_short_until(day@, schedule@) {
                        lemma_utc_until_reads_back(day@, schedule@);
                    }
                }
                Ok(value)
            },
            Some(name) => match until_value_in_zone(day, start, name.as_str()) {
                None => Err(RecurrenceFormError::InvalidTimezone),
                Some((value, instant)) => {
                    proof {
                        assert(until_text(day@, schedule@) == Ok::<Seq<char>, RecurrenceFormError>(
                            value@,
                        ));
                        if has_short_until(day@, schedule@) {
                            lemma_zoned_until_reads_back(day@, schedule@, instant@);
                        }
                    }
                    Ok(value)
                },
            },
        },
    }
}

/// The seconds since the epoch that a date and time in UTC stands for, such as `20260111T020000Z`.
pub open spec fn until_seconds(value: Seq<char>) -> Option<int> {
    if value.len() == 16 && value[8] == 'T' && value[15] == 'Z' {
        match (formats::parsed_compact_date(value.take(8)), formats::second_at(value, 9)) {
            (Some(day), Some(second)) => Some(date::day_start(day as int) + second),
            _ => None,
        }
    } else {
        None
    }
}

/// The day on which the clocks of a timed event show an instant: those of its zone, and those of UTC
/// where it has none.
pub open spec fn shown_day(seconds: int, schedule: ScheduleView) -> Option<int> {
    let at = date::DateTimeView { seconds, nanos: 0, offset: 0 };
    if !at.valid() {
        None
    } else {
        match schedule {
            ScheduleView::Timed { timezone: Some(name), .. } => if zone::zone_known(name) {
                Some(zone::shown_in(at, name).local_day())
            } else {
                None
            },
            _ => Some(at.local_day()),
        }
    }
}

/// The last day that a value of `UNTIL` stands for. For a timed event it is the day on which the
/// clocks of the event show the instant, and only the value that would be written for that day is
/// read.
pub open spec fn parsed_until(value: Seq<char>, schedule: ScheduleView) -> Option<int> {
    match schedule {
        ScheduleView::AllDay { .. } => match formats::parsed_compact_date(value) {
            Some(day) => Some(day as int),
            None => None,
        },
        ScheduleView::Timed { .. } => match until_seconds(value) {
            Some(seconds) => match shown_day(seconds, schedule) {
                Some(day) => if until_text(day, schedule) == Ok::<Seq<char>, RecurrenceFormError>(
                    value,
                ) {
                    Some(day)
                } else {
                    None
                },
                None => None,
            },
            None => None,
        },
    }
}

/// The day on which the clocks of a timed event show an instant.
fn find_shown_day(seconds: i64, schedule: &EventSchedule) -> (r: Option<Date>)
    ensures
        match r {
            Some(day) => shown_day(seconds as int, schedule@) == Some(day@),
            None => shown_day(seconds as int, schedule@) is None,
        },
{
    let at = match DateTime::new(seconds, 0, 0) {
        Some(at) => at,
        None => {
            return None;
        },
    };
    match schedule {
        EventSchedule::Timed { timezone: Some(name), .. } => match zone::in_zone(
            &at,
            name.as_str(),
        ) {
            Some(shown) => Some(shown.local_date()),
            None => None,
        },
        _ => Some(at.local_date()),
    }
}

/// The last day that a value of `UNTIL` stands for.
fn parse_until(value: &Vec<char>, schedule: &EventSchedule) -> (r: Option<Date>)
    ensures
        match r {
            Some(day) => parsed_until(value@, schedule@) == Some(day@),
            None => parsed_until(value@, schedule@) is None,
        },
{
    match schedule {
        EventSchedule::AllDay { .. } => formats::parse_compact_date(text::string_of(value).as_str()),
        EventSchedule::Timed { .. } => {
            if value.len() != 16 || value[8] != 'T' || value[15] != 'Z' {
                return None;
            }
            let head = text::slice(value, 0, 8);
            assert(head@ =~= value@.take(8));
            let written = match formats::parse_compact_date(text::string_of(&head).as_str()) {
                Some(written) => written,
                None => {
                    return None;
                },
            };
            let second: u32 = match formats::read_second(value, 9) {
                Some(second) => second,
                None => {
                    return None;
                },
            };
            let seconds: i64 = (written.days() as i64 - date::EPOCH_DAY) * date::DAY_SECONDS
                + second as i64;
            match find_shown_day(seconds, schedule) {
                None => None,
                Some(day) => match until_value(&day, schedule) {
                    Err(_) => None,
                    Ok(again) => if text::chars_are(value, again.as_str()) {
                        Some(day)
                    } else {
                        None
                    },
                },
            }
        },
    }
}

// ---------------------------------------------------------------------------------------------
// Writing a rule
// ---------------------------------------------------------------------------------------------

/// One part of a rule.
pub open spec fn rule_item(key: Seq<char>, value: Seq<char>) -> Seq<char> {
    key + seq!['='] + value
}

/// The name of a frequency in a rule.
pub open spec fn frequency_code(frequency: Frequency) -> Seq<char> {
    match frequency {
        Frequency::NoRepeat => ""@,
        Frequency::Daily => "DAILY"@,
        Frequency::Weekly => "WEEKLY"@,
        Frequency::Monthly => "MONTHLY"@,
        Frequency::Yearly => "YEARLY"@,
    }
}

/// The part of a rule that gives the interval, where it is not one.
pub open spec fn interval_items(form: FormView) -> Seq<Seq<char>> {
    if form.interval != 1 {
        seq![rule_item("INTERVAL"@, text::decimal(form.interval as nat))]
    } else {
        seq![]
    }
}

/// The part of a weekly rule that gives the weekdays, in the order of the week.
pub open spec fn weekday_items(form: FormView) -> Seq<Seq<char>> {
    if form.frequency == Frequency::Weekly {
        seq![
            rule_item(
                "BYDAY"@,
                text::join(weekday_codes(ordered_weekdays(form.weekdays)), seq![',']),
            ),
        ]
    } else {
        seq![]
    }
}

/// The part of a rule that gives its end, where it has one. `until` is the value of the last day.
pub open spec fn end_items(form: FormView, until: Seq<char>) -> Seq<Seq<char>> {
    match form.end {
        EndCondition::Never => seq![],
        EndCondition::Count(count) => seq![rule_item("COUNT"@, text::decimal(count as nat))],
        EndCondition::Until(_) => seq![rule_item("UNTIL"@, until)],
    }
}

/// The parts of the rule of a form.
pub open spec fn rule_items(form: FormView, until: Seq<char>) -> Seq<Seq<char>> {
    seq![rule_item("FREQ"@, frequency_code(form.frequency))] + interval_items(form) + weekday_items(
        form,
    ) + end_items(form, until)
}

/// The line of a rule with the given parts.
pub open spec fn rule_line(items: Seq<Seq<char>>) -> Seq<char> {
    "RRULE"@ + seq![':'] + text::join(items, seq![';'])
}

/// Why a form cannot be written, where that does not depend on its last day.
pub open spec fn form_error(form: FormView) -> Option<RecurrenceFormError> {
    if form.interval == 0 {
        Some(RecurrenceFormError::InvalidInterval)
    } else if form.frequency != Frequency::Weekly && form.weekdays.len() > 0 {
        Some(RecurrenceFormError::WeekdaysOnlyApplyToWeekly)
    } else if form.frequency == Frequency::Weekly && form.weekdays.len() == 0 {
        Some(RecurrenceFormError::WeeklyRequiresWeekday)
    } else if form.end == EndCondition::Count(0) {
        Some(RecurrenceFormError::InvalidCount)
    } else {
        None
    }
}

/// The rule that a form of a repeating event stands for.
pub open spec fn form_rule(form: FormView, schedule: ScheduleView) -> Result<
    Seq<char>,
    RecurrenceFormError,
> {
    match form_error(form) {
        Some(error) => Err(error),
        None => match form.end {
            EndCondition::Until(day) => match until_text(day@, schedule) {
                Ok(until) => Ok(rule_line(rule_items(form, until))),
                Err(error) => Err(error),
            },
            _ => Ok(rule_line(rule_items(form, seq![]))),
        },
    }
}

/// One part of a rule.
fn make_item(key: &str, value: &str) -> (r: String)
    ensures
        r@ == rule_item(key@, value@),
{
    let mut out = key.to_owned();
    out.push('=');
    out.append(value);
    assert(out@ =~= rule_item(key@, value@));
    out
}

/// The codes of weekdays with commas between them.
fn join_codes(weekdays: &Vec<Weekday>) -> (r: String)
    ensures
        r@ == text::join(weekday_codes(weekdays@), seq![',']),
{
    let mut codes: Vec<String> = Vec::new();
    for i in 0..weekdays.len()
        invariant
            text::views(codes@) == weekday_codes(weekdays@.take(i as int)),
    {
        let ghost before = codes@;
        codes.push(weekday_code(weekdays[i]));
        assert(text::views(codes@) =~= text::views(before).push(
            weekday_code_spec(weekdays@[i as int]),
        ));
        assert(weekday_codes(weekdays@.take(i + 1)) =~= weekday_codes(weekdays@.take(i as int)).push(
            weekday_code_spec(weekdays@[i as int]),
        ));
    }
    assert(weekdays@.take(weekdays@.len() as int) =~= weekdays@);
    proof {
        reveal_strlit(",");
        assert(","@ =~= seq![',']);
    }
    text::join_texts(&codes, ",")
}

/// The line of a rule with the given parts.
fn make_rule_line(items: &Vec<String>) -> (r: String)
    ensures
        r@ == rule_line(text::views(items@)),
{
    let mut out = "RRULE".to_owned();
    out.push(':');
    proof {
        reveal_strlit(";");
        assert(";"@ =~= seq![';']);
    }
    out.append(text::join_texts(items, ";").as_str());
    assert(out@ =~= rule_line(text::views(items@)));
    out
}

/// The recurrence that a form stands for; none for an event that does not repeat.
pub fn recurrence_from_form(form: &RecurrenceForm, schedule: &EventSchedule) -> (r: Result<
    Option<RecurrenceSpec>,
    RecurrenceFormError,
>)
    ensures
        form.frequency == Frequency::NoRepeat ==> r matches Ok(None),
        form.frequency != Frequency::NoRepeat ==> match r {
            Ok(Some(recurrence)) => form_rule(form@, schedule@) matches Ok(rule) && recurrence@
                == model::rule_recurrence(rule),
            Ok(None) => false,
            Err(error) => form_rule(form@, schedule@) == Err::<Seq<char>, RecurrenceFormError>(error),
        },
        r is Ok && (form.end matches EndCondition::Until(day) ==> has_short_until(day@, schedule@))
            && form.frequency != Frequency::NoRepeat ==> until_reads_back(form@, schedule@)
            && read_rule(form_rule(form@, schedule@)->Ok_0, schedule@, false) == Some(
            normal_form(form@),
        ),
{
    if form.frequency == Frequency::NoRepeat {
        return Ok(None);
    }
    if form.interval == 0 {
        return Err(RecurrenceFormError::InvalidInterval);
    }
    let weekly = form.frequency == Frequency::Weekly;
    if !weekly && form.weekdays.len() > 0 {
        return Err(RecurrenceFormError::WeekdaysOnlyApplyToWeekly);
    }
    if weekly && form.weekdays.len() == 0 {
        return Err(RecurrenceFormError::WeeklyRequiresWeekday);
    }
    if let EndCondition::Count(count) = form.end {
        if count == 0 {
            return Err(RecurrenceFormError::InvalidCount);
        }
    }
    let frequency = match form.frequency {
        Frequency::NoRepeat => "",
        Frequency::Daily => "DAILY",
        Frequency::Weekly => "WEEKLY",
        Frequency::Monthly => "MONTHLY",
        Frequency::Yearly => "YEARLY",
    };
    let mut items: Vec<String> = Vec::new();
    items.push(make_item("FREQ", frequency));
    let ghost first = seq![rule_item("FREQ"@, frequency_code(form.frequency))];
    assert(text::views(items@) =~= first);
    if form.interval != 1 {
        items.push(make_item("INTERVAL", text::decimal_text(form.interval as u64).as_str()));
    }
    assert(text::views(items@) =~= first + interval_items(form@));
    let ghost second = text::views(items@);
    if weekly {
        let days = order_weekdays(&form.weekdays);
        items.push(make_item("BYDAY", join_codes(&days).as_str()));
    }
    assert(text::views(items@) =~= second + weekday_items(form@));
    let ghost third = text::views(items@);
    let ghost mut until: Seq<char> = seq![];
    match form.end {
        EndCondition::Never => {},
        EndCondition::Count(count) => {
            items.push(make_item("COUNT", text::decimal_text(count as u64).as_str()));
        },
        EndCondition::Until(day) => match until_value(&day, schedule) {
            Ok(value) => {
                items.push(make_item("UNTIL", value.as_str()));
                proof {
                    until = value@;
                }
            },
            Err(error) => {
                return Err(error);
            },
        },
    }
    assert(text::views(items@) =~= third + end_items(form@, until));
    assert(text::views(items@) == rule_items(form@, until));
    let rule = make_rule_line(&items);
    proof {
        if until_reads_back(form@, schedule@) {
            law_form_reads_back(form@, schedule@);
        }
    }
    Ok(Some(RecurrenceSpec::of_rule(rule)))
}

// ---------------------------------------------------------------------------------------------
// Reading a rule
// ---------------------------------------------------------------------------------------------

/// What has been read of a rule so far.
struct RuleParts {
    frequency: Option<Frequency>,
    interval: u32,
    has_interval: bool,
    weekdays: Option<Vec<Weekday>>,
    has_wkst: bool,
    end: EndCondition,
    has_end: bool,
}

/// The values of a partly read rule.
#[verifier::ext_equal]
pub struct RulePartsView {
    pub frequency: Option<Frequency>,
    pub interval: u32,
    pub has_interval: bool,
    pub weekdays: Option<Seq<Weekday>>,
    pub has_wkst: bool,
    pub end: EndView,
    pub has_end: bool,
}

/// The end of a rule, a last day as its day number.
pub enum EndView {
    Never,
    Count(u32),
    Until(int),
}

/// The values of an end condition.
pub open spec fn end_view(end: EndCondition) -> EndView {
    match end {
        EndCondition::Never => EndView::Never,
        EndCondition::Count(count) => EndView::Count(count),
        EndCondition::Until(day) => EndView::Until(day@),
    }
}

impl RuleParts {
    spec fn parts(self) -> RulePartsView {
        RulePartsView {
            frequency: self.frequency,
            interval: self.interval,
            has_interval: self.has_interval,
            weekdays: match self.weekdays {
                Some(weekdays) => Some(weekdays@),
                None => None,
            },
            has_wkst: self.has_wkst,
            end: end_view(self.end),
            has_end: self.has_end,
        }
    }
}

/// A rule of which nothing has been read.
pub open spec fn no_parts() -> RulePartsView {
    RulePartsView {
        frequency: None,
        interval: 1,
        has_interval: false,
        weekdays: None,
        has_wkst: false,
        end: EndView::Never,
        has_end: false,
    }
}

/// The frequency that a name stands for.
pub open spec fn named_frequency(name: Seq<char>) -> Option<Frequency> {
    let name = text::upper(name);
    if name == "DAILY"@ {
        Some(Frequency::Daily)
    } else if name == "WEEKLY"@ {
        Some(Frequency::Weekly)
    } else if name == "MONTHLY"@ {
        Some(Frequency::Monthly)
    } else if name == "YEARLY"@ {
        Some(Frequency::Yearly)
    } else {
        None
    }
}

/// The weekdays that a list of codes stands for, none of them twice.
pub open spec fn coded_weekdays(codes: Seq<Seq<char>>) -> Option<Seq<Weekday>>
    decreases codes.len(),
{
    if codes.len() == 0 {
        Some(seq![])
    } else {
        match (coded_weekdays(codes.drop_last()), coded_weekday(codes.last())) {
            (Some(weekdays), Some(weekday)) => if weekdays.contains(weekday) {
                None
            } else {
                Some(weekdays.push(weekday))
            },
            _ => None,
        }
    }
}

/// The weekdays that a value of `BYDAY` stands for, in the order of the week.
pub open spec fn parsed_weekdays(value: Seq<char>) -> Option<Seq<Weekday>> {
    match coded_weekdays(text::split(value, ',')) {
        Some(weekdays) => Some(ordered_weekdays(weekdays)),
        None => None,
    }
}

/// A rule with one more part read. Each part may come once, and an unknown part is refused.
pub open spec fn read_item(
    parts: RulePartsView,
    item: Seq<char>,
    schedule: ScheduleView,
    allow_wkst: bool,
) -> Option<RulePartsView> {
    match text::split_once(item, '=') {
        None => None,
        Some((key, value)) => {
            let key = text::upper(key);
            if key.len() == 0 || value.len() == 0 {
                None
            } else if key == "FREQ"@ && parts.frequency is None {
                match named_frequency(value) {
                    Some(frequency) => Some(
                        RulePartsView { frequency: Some(frequency), ..parts },
                    ),
                    None => None,
                }
            } else if key == "INTERVAL"@ && !parts.has_interval {
                match text::parsed_number(value, u32::MAX as int) {
                    Some(interval) => if interval == 0 {
                        None
                    } else {
                        Some(
                            RulePartsView { interval: interval as u32, has_interval: true, ..parts },
                        )
                    },
                    None => None,
                }
            } else if key == "BYDAY"@ && parts.weekdays is None {
                match parsed_weekdays(value) {
                    Some(weekdays) => Some(
                        RulePartsView { weekdays: Some(weekdays), ..parts },
                    ),
                    None => None,
                }
            } else if key == "WKST"@ && allow_wkst && !parts.has_wkst {
                Some(RulePartsView { has_wkst: true, ..parts })
            } else if key == "COUNT"@ && !parts.has_end {
                match text::parsed_number(value, u32::MAX as int) {
                    Some(count) => if count == 0 {
                        None
                    } else {
                        Some(
                            RulePartsView {
                                end: EndView::Count(count as u32),
                                has_end: true,
                                ..parts
                            },
                        )
                    },
                    None => None,
                }
            } else if key == "UNTIL"@ && !parts.has_end {
                match parsed_until(value, schedule) {
                    Some(day) => Some(
                        RulePartsView { end: EndView::Until(day), has_end: true, ..parts },
                    ),
                    None => None,
                }
            } else {
                None
            }
        },
    }
}

/// A rule with a list of parts read in order.
pub open spec fn read_items(
    parts: Option<RulePartsView>,
    items: Seq<Seq<char>>,
    schedule: ScheduleView,
    allow_wkst: bool,
) -> Option<RulePartsView>
    decreases items.len(),
{
    if items.len() == 0 {
        parts
    } else {
        match read_items(parts, items.drop_last(), schedule, allow_wkst) {
            Some(before) => read_item(before, items.last(), schedule, allow_wkst),
            None => None,
        }
    }
}

/// The weekday on which an event starts.
pub open spec fn start_weekday(schedule: ScheduleView) -> Weekday {
    match schedule {
        ScheduleView::AllDay { start_date, .. } => weekday_at(date::weekday_of(start_date@)),
        ScheduleView::Timed { start, .. } => weekday_at(date::weekday_of(start@.local_day())),
    }
}

/// The values of a form as they are read: the last day as its day number.
#[verifier::ext_equal]
pub struct ReadForm {
    pub frequency: Frequency,
    pub interval: u32,
    pub weekdays: Seq<Weekday>,
    pub end: EndView,
}

/// The form that the parts of a rule stand for. A weekly rule without weekdays repeats on the
/// weekday of the start.
pub open spec fn finished_form(parts: RulePartsView, schedule: ScheduleView) -> Option<ReadForm> {
    match parts.frequency {
        None => None,
        Some(frequency) => if frequency != Frequency::Weekly && parts.weekdays is Some {
            None
        } else {
            Some(
                ReadForm {
                    frequency,
                    interval: parts.interval,
                    weekdays: if frequency == Frequency::Weekly {
                        match parts.weekdays {
                            Some(weekdays) => weekdays,
                            None => seq![start_weekday(schedule)],
                        }
                    } else {
                        seq![]
                    },
                    end: parts.end,
                },
            )
        },
    }
}

/// The form that a rule stands for, where the simple editor can show it.
pub open spec fn read_rule(rule: Seq<char>, schedule: ScheduleView, allow_wkst: bool) -> Option<
    ReadForm,
> {
    match text::split_once(rule, ':') {
        None => None,
        Some((property, value)) => if text::lower(property) != text::lower("RRULE"@) {
            None
        } else {
            match read_items(Some(no_parts()), text::split(value, ';'), schedule, allow_wkst) {
                Some(parts) => finished_form(parts, schedule),
                None => None,
            }
        },
    }
}

/// The values of a form, the last day as its day number.
pub open spec fn read_view(form: FormView) -> ReadForm {
    ReadForm {
        frequency: form.frequency,
        interval: form.interval,
        weekdays: form.weekdays,
        end: end_view(form.end),
    }
}

/// The weekday that a code stands for.
fn parse_weekday(code: &Vec<char>) -> (r: Option<Weekday>)
    ensures
        r == coded_weekday(code@),
{
    let code = text::upper_chars(code);
    if text::chars_are(&code, "MO") {
        Some(Weekday::Monday)
    } else if text::chars_are(&code, "TU") {
        Some(Weekday::Tuesday)
    } else if text::chars_are(&code, "WE") {
        Some(Weekday::Wednesday)
    } else if text::chars_are(&code, "TH") {
        Some(Weekday::Thursday)
    } else if text::chars_are(&code, "FR") {
        Some(Weekday::Friday)
    } else if text::chars_are(&code, "SA") {
        Some(Weekday::Saturday)
    } else if text::chars_are(&code, "SU") {
        Some(Weekday::Sunday)
    } else {
        None
    }
}

/// A list of codes that cannot be read cannot be read when more codes follow.
proof fn lemma_coded_weekdays_prefix(codes: Seq<Seq<char>>, n: int)
    requires
        0 <= n <= codes.len(),
        coded_weekdays(codes.take(n)) is None,
    ensures
        coded_weekdays(codes) is None,
    decreases codes.len() - n,
{
    if n == codes.len() {
        assert(codes.take(n) =~= codes);
    } else {
        assert(codes.take(n + 1).drop_last() =~= codes.take(n));
        lemma_coded_weekdays_prefix(codes, n + 1);
    }
}

/// The weekdays that a value of `BYDAY` stands for, in the order of the week.
pub fn parse_weekdays(value: &Vec<char>) -> (r: Option<Vec<Weekday>>)
    ensures
        match r {
            Some(weekdays) => parsed_weekdays(value@) == Some(weekdays@),
            None => parsed_weekdays(value@) is None,
        },
{
    let codes = text::split_chars(value, ',');
    let ghost all = text::split(value@, ',');
    let mut weekdays: Vec<Weekday> = Vec::new();
    assert(all.take(0) =~= seq![]);
    for i in 0..codes.len()
        invariant
            text::char_views(codes@) == all,
            all == text::split(value@, ','),
            coded_weekdays(all.take(i as int)) == Some(weekdays@),
    {
        proof {
            assert(all[i as int] == codes@[i as int]@);
            assert(all.take(i + 1).drop_last() =~= all.take(i as int));
            assert(all.take(i + 1).last() == all[i as int]);
        }
        match parse_weekday(&codes[i]) {
            None => {
                proof {
                    lemma_coded_weekdays_prefix(all, i + 1);
                }
                return None;
            },
            Some(weekday) => {
                if has_weekday(&weekdays, weekday) {
                    proof {
                        lemma_coded_weekdays_prefix(all, i + 1);
                    }
                    return None;
                }
                weekdays.push(weekday);
            },
        }
    }
    assert(all.take(all.len() as int) =~= all);
    Some(order_weekdays(&weekdays))
}

/// The frequency that a name stands for.
fn parse_frequency(name: &Vec<char>) -> (r: Option<Frequency>)
    ensures
        r == named_frequency(name@),
{
    let name = text::upper_chars(name);
    if text::chars_are(&name, "DAILY") {
        Some(Frequency::Daily)
    } else if text::chars_are(&name, "WEEKLY") {
        Some(Frequency::Weekly)
    } else if text::chars_are(&name, "MONTHLY") {
        Some(Frequency::Monthly)
    } else if text::chars_are(&name, "YEARLY") {
        Some(Frequency::Yearly)
    } else {
        None
    }
}

/// A rule with one more part read.
fn apply_item(parts: RuleParts, item: &Vec<char>, schedule: &EventSchedule, allow_wkst: bool) -> (r:
    Option<RuleParts>)
    ensures
        match r {
            Some(more) => read_item(parts.parts(), item@, schedule@, allow_wkst) == Some(more.parts()),
            None => read_item(parts.parts(), item@, schedule@, allow_wkst) is None,
        },
{
    let (key, value): (Vec<char>, Vec<char>) = match text::split_chars_once(item, '=') {
        Some(pair) => pair,
        None => {
            return None;
        },
    };
    if key.len() == 0 || value.len() == 0 {
        return None;
    }
    let key = text::upper_chars(&key);
    let mut parts = parts;
    if text::chars_are(&key, "FREQ") && parts.frequency.is_none() {
        match parse_frequency(&value) {
            Some(frequency) => {
                parts.frequency = Some(frequency);
                Some(parts)
            },
            None => None,
        }
    } else if text::chars_are(&key, "INTERVAL") && !parts.has_interval {
        match text::parse_number(&value, u32::MAX as u64) {
            Some(interval) => {
                if interval == 0 {
                    return None;
                }
                parts.interval = interval as u32;
                parts.has_interval = true;
                Some(parts)
            },
            None => None,
        }
    } else if text::chars_are(&key, "BYDAY") && parts.weekdays.is_none() {
        match parse_weekdays(&value) {
            Some(weekdays) => {
                parts.weekdays = Some(weekdays);
                Some(parts)
            },
            None => None,
        }
    } else if text::chars_are(&key, "WKST") && allow_wkst && !parts.has_wkst {
        parts.has_wkst = true;
        Some(parts)
    } else if text::chars_are(&key, "COUNT") && !parts.has_end {
        match text::parse_number(&value, u32::MAX as u64) {
            Some(count) => {
                if count == 0 {
                    return None;
                }
                parts.end = EndCondition::Count(count as u32);
                parts.has_end = true;
                Some(parts)
            },
            None => None,
        }
    } else if text::chars_are(&key, "UNTIL") && !parts.has_end {
        match parse_until(&value, schedule) {
            Some(day) => {
                parts.end = EndCondition::Until(day);
                parts.has_end = true;
                Some(parts)
            },
            None => None,
        }
    } else {
        None
    }
}

/// A rule that cannot be read cannot be read when more parts follow.
proof fn lemma_read_items_prefix(
    parts: Option<RulePartsView>,
    items: Seq<Seq<char>>,
    n: int,
    schedule: ScheduleView,
    allow_wkst: bool,
)
    requires
        0 <= n <= items.len(),
        read_items(parts, items.take(n), schedule, allow_wkst) is None,
    ensures
        read_items(parts, items, schedule, allow_wkst) is None,
    decreases items.len() - n,
{
    if n == items.len() {
        assert(items.take(n) =~= items);
    } else {
        assert(items.take(n + 1).drop_last() =~= items.take(n));
        lemma_read_items_prefix(parts, items, n + 1, schedule, allow_wkst);
    }
}

/// The weekday on which an event starts.
fn schedule_weekday(schedule: &EventSchedule) -> (r: Weekday)
    ensures
        r == start_weekday(schedule@),
{
    let day = match schedule {
        EventSchedule::AllDay { start_date, .. } => *start_date,
        EventSchedule::Timed { start, .. } => start.local_date(),
    };
    weekday_from_monday(day.days_from_monday())
}

/// The form that a rule stands for, where the simple editor can show it; `allow_wkst` admits a
/// first day of the week, which the form does not show.
pub fn parse_simple_rule_with_wkst(rule: &str, schedule: &EventSchedule, allow_wkst: bool) -> (r:
    Option<RecurrenceForm>)
    ensures
        match r {
            Some(form) => read_rule(rule@, schedule@, allow_wkst) == Some(read_view(form@)),
            None => read_rule(rule@, schedule@, allow_wkst) is None,
        },
{
    let (property, value): (Vec<char>, Vec<char>) = match text::split_chars_once(
        &text::chars_of(rule),
        ':',
    ) {
        Some(pair) => pair,
        None => {
            return None;
        },
    };
    if !text::same_ignoring_case(&property, "RRULE") {
        return None;
    }
    let items = text::split_chars(&value, ';');
    let ghost all = text::split(value@, ';');
    let mut parts = RuleParts {
        frequency: None,
        interval: 1,
        has_interval: false,
        weekdays: None,
        has_wkst: false,
        end: EndCondition::Never,
        has_end: false,
    };
    assert(parts.parts() == no_parts());
    assert(all.take(0) =~= seq![]);
    for i in 0..items.len()
        invariant
            text::char_views(items@) == all,
            all == text::split(value@, ';'),
            read_items(Some(no_parts()), all.take(i as int), schedule@, allow_wkst) == Some(
                parts.parts(),
            ),
            text::split_once(rule@, ':') == Some((property@, value@)),
    {
        proof {
            assert(all[i as int] == items@[i as int]@);
            assert(all.take(i + 1).drop_last() =~= all.take(i as int));
            assert(all.take(i + 1).last() == all[i as int]);
        }
        match apply_item(parts, &items[i], schedule, allow_wkst) {
            Some(more) => {
                parts = more;
            },
            None => {
                proof {
                    lemma_read_items_prefix(Some(no_parts()), all, i + 1, schedule@, allow_wkst);
                }
                return None;
            },
        }
    }
    assert(all.take(all.len() as int) =~= all);
    let frequency = match parts.frequency {
        Some(frequency) => frequency,
        None => {
            return None;
        },
    };
    let weekly = frequency == Frequency::Weekly;
    if !weekly && parts.weekdays.is_some() {
        return None;
    }
    let weekdays = if weekly {
        match parts.weekdays {
            Some(weekdays) => weekdays,
            None => {
                let mut only: Vec<Weekday> = Vec::new();
                only.push(schedule_weekday(schedule));
                assert(only@ =~= seq![start_weekday(schedule@)]);
                only
            },
        }
    } else {
        Vec::new()
    };
    let form = RecurrenceForm { frequency, interval: parts.interval, weekdays, end: parts.end };
    assert(read_view(form@) =~= finished_form(
        read_items(Some(no_parts()), all, schedule@, allow_wkst)->0,
        schedule@,
    )->0);
    Some(form)
}

// ---------------------------------------------------------------------------------------------
// Describing a recurrence
// ---------------------------------------------------------------------------------------------

/// "Every day", "Every 3 weeks".
pub open spec fn unit_summary_spec(interval: u32, unit: Seq<char>) -> Seq<char> {
    if interval == 1 {
        "Every "@ + unit
    } else {
        "Every "@ + text::decimal(interval as nat) + " "@ + unit + "s"@
    }
}

/// A form in words.
pub open spec fn form_summary(form: ReadForm) -> Seq<char> {
    let repeats = match form.frequency {
        Frequency::NoRepeat => "Does not repeat"@,
        Frequency::Daily => unit_summary_spec(form.interval, "day"@),
        Frequency::Weekly => unit_summary_spec(form.interval, "week"@) + " on "@ + text::join(
            weekday_names(form.weekdays),
            ", "@,
        ),
        Frequency::Monthly => unit_summary_spec(form.interval, "month"@),
        Frequency::Yearly => unit_summary_spec(form.interval, "year"@),
    };
    match form.end {
        EndView::Never => repeats,
        EndView::Count(count) => repeats + " ("@ + text::decimal(count as nat) + " times)"@,
        EndView::Until(day) => repeats + " until "@ + formats::iso_date(day),
    }
}

/// "Every day", "Every 3 weeks".
pub fn unit_summary(interval: u32, unit: &str) -> (r: String)
    ensures
        r@ == unit_summary_spec(interval, unit@),
{
    if interval == 1 {
        return text::joined("Every ", unit);
    }
    let mut out = text::joined("Every ", text::decimal_text(interval as u64).as_str());
    out.append(" ");
    out.append(unit);
    out.append("s");
    out
}

/// The names of weekdays with commas between them.
fn join_names(weekdays: &Vec<Weekday>) -> (r: String)
    ensures
        r@ == text::join(weekday_names(weekdays@), ", "@),
{
    let mut names: Vec<String> = Vec::new();
    for i in 0..weekdays.len()
        invariant
            text::views(names@) == weekday_names(weekdays@.take(i as int)),
    {
        let ghost before = names@;
        names.push(weekday_name(weekdays[i]));
        assert(text::views(names@) =~= text::views(before).push(
            weekday_name_spec(weekdays@[i as int]),
        ));
        assert(weekday_names(weekdays@.take(i + 1)) =~= weekday_names(weekdays@.take(i as int)).push(
            weekday_name_spec(weekdays@[i as int]),
        ));
    }
    assert(weekdays@.take(weekdays@.len() as int) =~= weekdays@);
    text::join_texts(&names, ", ")
}

/// A form in words.
pub fn summary_for_form(form: &RecurrenceForm) -> (r: String)
    ensures
        r@ == form_summary(read_view(form@)),
{
    let mut out = match form.frequency {
        Frequency::NoRepeat => "Does not repeat".to_owned(),
        Frequency::Daily => unit_summary(form.interval, "day"),
        Frequency::Weekly => {
            let mut week = unit_summary(form.interval, "week");
            week.append(" on ");
            week.append(join_names(&form.weekdays).as_str());
            week
        },
        Frequency::Monthly => unit_summary(form.interval, "month"),
        Frequency::Yearly => unit_summary(form.interval, "year"),
    };
    match form.end {
        EndCondition::Never => {},
        EndCondition::Count(count) => {
            out.append(" (");
            out.append(text::decimal_text(count as u64).as_str());
            out.append(" times)");
        },
        EndCondition::Until(day) => {
            out.append(" until ");
            out.append(formats::iso_date_text(&day).as_str());
        },
    }
    out
}

/// What a recurrence beyond the simple editor is made of.
pub open spec fn custom_details(recurrence: model::RecurrenceView) -> Seq<Seq<char>> {
    let rule = if recurrence.rrule.len() > 0 {
        seq!["rule"@]
    } else {
        seq![]
    };
    let additional = if recurrence.rdate.len() > 0 {
        seq!["additional dates"@]
    } else {
        seq![]
    };
    let excluded = if recurrence.exdate.len() > 0 {
        seq!["excluded dates"@]
    } else {
        seq![]
    };
    rule + additional + excluded
}

/// A recurrence beyond the simple editor in words.
pub open spec fn custom_summary_spec(recurrence: model::RecurrenceView) -> Seq<char> {
    let details = custom_details(recurrence);
    if details.len() == 0 {
        "Custom recurrence"@
    } else {
        "Custom recurrence ("@ + text::join(details, ", "@) + ")"@
    }
}

/// A recurrence beyond the simple editor in words.
pub fn custom_summary(recurrence: &RecurrenceSpec) -> (r: String)
    ensures
        r@ == custom_summary_spec(recurrence@),
{
    let mut details: Vec<String> = Vec::new();
    let ghost none: Seq<Seq<char>> = seq![];
    assert(text::views(details@) =~= none);
    if recurrence.rrule.len() > 0 {
        details.push("rule".to_owned());
        assert(text::views(details@) =~= seq!["rule"@]);
    }
    let ghost first = text::views(details@);
    if recurrence.rdate.len() > 0 {
        details.push("additional dates".to_owned());
        assert(text::views(details@) =~= first + seq!["additional dates"@]);
    } else {
        assert(text::views(details@) =~= first + none);
    }
    let ghost second = text::views(details@);
    if recurrence.exdate.len() > 0 {
        details.push("excluded dates".to_owned());
        assert(text::views(details@) =~= second + seq!["excluded dates"@]);
    } else {
        assert(text::views(details@) =~= second + none);
    }
    assert(text::views(details@) == custom_details(recurrence@));
    if details.len() == 0 {
        "Custom recurrence".to_owned()
    } else {
        let mut out = text::joined("Custom recurrence (", text::join_texts(&details, ", ").as_str());
        out.append(")");
        out
    }
}

/// The form of an event that does not repeat.
pub open spec fn no_repeat() -> ReadForm {
    ReadForm {
        frequency: Frequency::NoRepeat,
        interval: 1,
        weekdays: seq![],
        end: EndView::Never,
    }
}

/// The form that the simple editor shows of a recurrence, where it can show it.
pub open spec fn editable_form(
    recurrence: Option<model::RecurrenceView>,
    schedule: ScheduleView,
) -> Option<ReadForm> {
    match recurrence {
        None => Some(no_repeat()),
        Some(recurrence) => if recurrence.rdate.len() > 0 || recurrence.exdate.len() > 0
            || recurrence.rrule.len() != 1 {
            None
        } else {
            read_rule(recurrence.rrule[0], schedule, false)
        },
    }
}

/// How a recurrence is shown: as a form where the simple editor can show it, and otherwise in
/// words, so that it is not rewritten.
pub fn recurrence_presentation(recurrence: &Option<RecurrenceSpec>, schedule: &EventSchedule) -> (r:
    RecurrencePresentation)
    ensures
        match r {
            RecurrencePresentation::Editable { form, summary } => editable_form(
                model::recurrence_view(*recurrence),
                schedule@,
            ) == Some(read_view(form@)) && summary@ == form_summary(read_view(form@)),
            RecurrencePresentation::Custom { summary } => editable_form(
                model::recurrence_view(*recurrence),
                schedule@,
            ) is None && *recurrence is Some && summary@ == custom_summary_spec(recurrence->0@),
        },
{
    let recurrence = match recurrence {
        None => {
            let form = RecurrenceForm {
                frequency: Frequency::NoRepeat,
                interval: 1,
                weekdays: Vec::new(),
                end: EndCondition::Never,
            };
            assert(read_view(form@) =~= no_repeat());
            let summary = summary_for_form(&form);
            return RecurrencePresentation::Editable { form, summary };
        },
        Some(recurrence) => recurrence,
    };
    if recurrence.rdate.len() > 0 || recurrence.exdate.len() > 0 || recurrence.rrule.len() != 1 {
        return RecurrencePresentation::Custom { summary: custom_summary(recurrence) };
    }
    match parse_simple_rule_with_wkst(recurrence.rrule[0].as_str(), schedule, false) {
        Some(form) => {
            let summary = summary_for_form(&form);
            RecurrencePresentation::Editable { form, summary }
        },
        None => RecurrencePresentation::Custom { summary: custom_summary(recurrence) },
    }
}

// ---------------------------------------------------------------------------------------------
// What is written reads back
// ---------------------------------------------------------------------------------------------

/// A form as it is read back: the weekdays of a weekly rule in the order of the week.
pub open spec fn normal_form(form: FormView) -> ReadForm {
    ReadForm {
        frequency: form.frequency,
        interval: form.interval,
        weekdays: if form.frequency == Frequency::Weekly {
            ordered_weekdays(form.weekdays)
        } else {
            seq![]
        },
        end: end_view(form.end),
    }
}

/// Whether the value written for the last day of a form is read as that day.
pub open spec fn until_reads_back(form: FormView, schedule: ScheduleView) -> bool {
    form.end matches EndCondition::Until(day) ==> until_value_reads_back(day@, schedule)
}

proof fn lemma_item_splits(key: Seq<char>, value: Seq<char>)
    requires
        !key.contains('='),
    ensures
        text::split_once(rule_item(key, value), '=') == Some((key, value)),
{
    let item = rule_item(key, value);
    assert forall|i: int| 0 <= i < key.len() implies item[i] != '=' by {
        assert(item[i] == key[i]);
        assert(key.contains(key[i]));
    }
    text::lemma_index_of_char_unique(item, '=', key.len() as int);
    assert(item.take(key.len() as int) =~= key);
    assert(item.skip(key.len() as int + 1) =~= value);
}

proof fn lemma_item_without(key: Seq<char>, value: Seq<char>, c: char)
    requires
        !key.contains(c),
        !value.contains(c),
        c != '=',
    ensures
        !rule_item(key, value).contains(c),
{
    let item = rule_item(key, value);
    assert forall|i: int| 0 <= i < item.len() implies item[i] != c by {
        if i < key.len() {
            assert(key.contains(key[i]));
        } else if i > key.len() {
            assert(value.contains(value[i - key.len() - 1]));
        }
    }
}

proof fn lemma_number_without(s: Seq<char>, c: char)
    requires
        text::is_number(s),
        !text::is_digit(c),
    ensures
        !s.contains(c),
{
}

proof fn lemma_read_items_step(
    parts: RulePartsView,
    before: Seq<Seq<char>>,
    item: Seq<char>,
    schedule: ScheduleView,
)
    requires
        read_items(Some(no_parts()), before, schedule, false) == Some(parts),
    ensures
        read_items(Some(no_parts()), before + seq![item], schedule, false) == read_item(
            parts,
            item,
            schedule,
            false,
        ),
{
    let items = before + seq![item];
    assert(items.drop_last() =~= before);
    assert(items.last() == item);
}

proof fn lemma_frequency_item(frequency: Frequency, schedule: ScheduleView)
    requires
        frequency != Frequency::NoRepeat,
    ensures
        read_item(no_parts(), rule_item("FREQ"@, frequency_code(frequency)), schedule, false) == Some(
            RulePartsView { frequency: Some(frequency), ..no_parts() },
        ),
        !rule_item("FREQ"@, frequency_code(frequency)).contains(';'),
{
    reveal_strlit("FREQ");
    reveal_strlit("DAILY");
    reveal_strlit("WEEKLY");
    reveal_strlit("MONTHLY");
    reveal_strlit("YEARLY");
    let code = frequency_code(frequency);
    assert(!"FREQ"@.contains('='));
    assert(!"FREQ"@.contains(';'));
    assert(!code.contains(';'));
    lemma_item_splits("FREQ"@, code);
    lemma_item_without("FREQ"@, code, ';');
    assert(text::upper("FREQ"@) =~= "FREQ"@);
    assert(text::upper(code) =~= code);
    assert("DAILY"@.len() == 5 && "WEEKLY"@.len() == 6 && "MONTHLY"@.len() == 7 && "YEARLY"@.len()
        == 6);
    assert("WEEKLY"@[0] == 'W' && "YEARLY"@[0] == 'Y');
}

proof fn lemma_interval_item(parts: RulePartsView, interval: u32, schedule: ScheduleView)
    requires
        interval > 0,
        !parts.has_interval,
    ensures
        read_item(
            parts,
            rule_item("INTERVAL"@, text::decimal(interval as nat)),
            schedule,
            false,
        ) == Some(RulePartsView { interval, has_interval: true, ..parts }),
        !rule_item("INTERVAL"@, text::decimal(interval as nat)).contains(';'),
{
    reveal_strlit("INTERVAL");
    reveal_strlit("FREQ");
    let value = text::decimal(interval as nat);
    text::lemma_decimal(interval as nat);
    text::lemma_parsed_decimal(interval as nat, u32::MAX as int);
    lemma_number_without(value, ';');
    assert(!"INTERVAL"@.contains('='));
    assert(!"INTERVAL"@.contains(';'));
    lemma_item_splits("INTERVAL"@, value);
    lemma_item_without("INTERVAL"@, value, ';');
    assert(text::upper("INTERVAL"@) =~= "INTERVAL"@);
    assert("INTERVAL"@.len() == 8 && "FREQ"@.len() == 4);
}

proof fn lemma_count_item(parts: RulePartsView, count: u32, schedule: ScheduleView)
    requires
        count > 0,
        !parts.has_end,
    ensures
        read_item(parts, rule_item("COUNT"@, text::decimal(count as nat)), schedule, false) == Some(
            RulePartsView { end: EndView::Count(count), has_end: true, ..parts },
        ),
        !rule_item("COUNT"@, text::decimal(count as nat)).contains(';'),
{
    reveal_strlit("COUNT");
    reveal_strlit("INTERVAL");
    reveal_strlit("FREQ");
    reveal_strlit("BYDAY");
    reveal_strlit("WKST");
    let value = text::decimal(count as nat);
    text::lemma_decimal(count as nat);
    text::lemma_parsed_decimal(count as nat, u32::MAX as int);
    lemma_number_without(value, ';');
    assert(!"COUNT"@.contains('='));
    assert(!"COUNT"@.contains(';'));
    lemma_item_splits("COUNT"@, value);
    lemma_item_without("COUNT"@, value, ';');
    assert(text::upper("COUNT"@) =~= "COUNT"@);
    assert("COUNT"@.len() == 5 && "INTERVAL"@.len() == 8 && "FREQ"@.len() == 4 && "WKST"@.len() == 4);
    assert("COUNT"@[0] == 'C' && "BYDAY"@[0] == 'B');
}

proof fn lemma_until_item(parts: RulePartsView, until: Seq<char>, day: int, schedule: ScheduleView)
    requires
        !parts.has_end,
        until.len() > 0,
        !until.contains(';'),
        parsed_until(until, schedule) == Some(day),
    ensures
        read_item(parts, rule_item("UNTIL"@, until), schedule, false) == Some(
            RulePartsView { end: EndView::Until(day), has_end: true, ..parts },
        ),
        !rule_item("UNTIL"@, until).contains(';'),
{
    reveal_strlit("UNTIL");
    reveal_strlit("COUNT");
    reveal_strlit("INTERVAL");
    reveal_strlit("FREQ");
    reveal_strlit("BYDAY");
    reveal_strlit("WKST");
    assert(!"UNTIL"@.contains('='));
    assert(!"UNTIL"@.contains(';'));
    lemma_item_splits("UNTIL"@, until);
    lemma_item_without("UNTIL"@, until, ';');
    assert(text::upper("UNTIL"@) =~= "UNTIL"@);
    assert("UNTIL"@.len() == 5 && "INTERVAL"@.len() == 8 && "FREQ"@.len() == 4 && "WKST"@.len() == 4);
    assert("UNTIL"@[0] == 'U' && "BYDAY"@[0] == 'B' && "COUNT"@[0] == 'C');
}

proof fn lemma_weekday_code(weekday: Weekday)
    ensures
        coded_weekday(weekday_code_spec(weekday)) == Some(weekday),
        weekday_code_spec(weekday).len() == 2,
        !weekday_code_spec(weekday).contains(','),
        !weekday_code_spec(weekday).contains(';'),
{
    reveal_strlit("MO");
    reveal_strlit("TU");
    reveal_strlit("WE");
    reveal_strlit("TH");
    reveal_strlit("FR");
    reveal_strlit("SA");
    reveal_strlit("SU");
    let code = weekday_code_spec(weekday);
    assert(text::upper(code) =~= code);
    assert("MO"@[0] == 'M' && "TU"@[0] == 'T' && "WE"@[0] == 'W' && "TH"@[0] == 'T' && "FR"@[0]
        == 'F' && "SA"@[0] == 'S' && "SU"@[0] == 'S');
    assert("TU"@[1] == 'U' && "TH"@[1] == 'H' && "SA"@[1] == 'A' && "SU"@[1] == 'U');
}

proof fn lemma_codes_read_back(weekdays: Seq<Weekday>)
    requires
        weekdays.no_duplicates(),
    ensures
        coded_weekdays(weekday_codes(weekdays)) == Some(weekdays),
    decreases weekdays.len(),
{
    if weekdays.len() > 0 {
        let shorter = weekdays.drop_last();
        assert(shorter.no_duplicates());
        lemma_codes_read_back(shorter);
        lemma_weekday_code(weekdays.last());
        assert(weekday_codes(weekdays).drop_last() =~= weekday_codes(shorter));
        assert(!shorter.contains(weekdays.last()));
        assert(shorter.push(weekdays.last()) =~= weekdays);
    } else {
        assert(weekdays =~= seq![]);
    }
}

/// Joined pieces hold no character that neither they nor the separator hold.
pub proof fn lemma_join_without(parts: Seq<Seq<char>>, sep: Seq<char>, c: char)
    requires
        forall|i: int| #![trigger parts[i]] 0 <= i < parts.len() ==> !parts[i].contains(c),
        !sep.contains(c),
    ensures
        !text::join(parts, sep).contains(c),
    decreases parts.len(),
{
    let joined = text::join(parts, sep);
    if parts.len() > 1 {
        let rest = parts.drop_first();
        assert forall|i: int| #![trigger rest[i]] 0 <= i < rest.len() implies !rest[i].contains(
            c,
        ) by {
            assert(rest[i] == parts[i + 1]);
        }
        lemma_join_without(rest, sep, c);
        let tail = text::join(rest, sep);
        assert forall|i: int| 0 <= i < joined.len() implies joined[i] != c by {
            let head = parts[0];
            if i < head.len() {
                assert(head.contains(head[i]));
            } else if i < head.len() + sep.len() {
                assert(sep.contains(sep[i - head.len()]));
            } else {
                assert(tail.contains(tail[i - head.len() - sep.len()]));
            }
        }
    }
}

proof fn lemma_byday_item(parts: RulePartsView, weekdays: Seq<Weekday>, schedule: ScheduleView)
    requires
        parts.weekdays is None,
        weekdays.len() > 0,
    ensures
        read_item(
            parts,
            rule_item(
                "BYDAY"@,
                text::join(weekday_codes(ordered_weekdays(weekdays)), seq![',']),
            ),
            schedule,
            false,
        ) == Some(RulePartsView { weekdays: Some(ordered_weekdays(weekdays)), ..parts }),
        !rule_item(
            "BYDAY"@,
            text::join(weekday_codes(ordered_weekdays(weekdays)), seq![',']),
        ).contains(';'),
{
    reveal_strlit("INTERVAL");
    reveal_strlit("FREQ");
    reveal_strlit("BYDAY");
    let days = ordered_weekdays(weekdays);
    let codes = weekday_codes(days);
    let value = text::join(codes, seq![',']);
    lemma_weekdays_before(weekdays, 7);
    assert(weekdays.contains(weekdays[0]));
    assert(days.contains(weekdays[0]));
    assert(days.len() > 0);
    assert forall|i: int| #![trigger codes[i]] 0 <= i < codes.len() implies !codes[i].contains(',')
        && !codes[i].contains(';') && codes[i].len() == 2 by {
        lemma_weekday_code(days[i]);
    }
    text::lemma_split_of_join(codes, ',');
    lemma_codes_read_back(days);
    lemma_ordered_weekdays_idempotent(weekdays);
    lemma_join_without(codes, seq![','], ';');
    assert(value.len() > 0) by {
        if codes.len() == 1 {
            assert(value == codes[0]);
        } else {
            assert(value == codes[0] + seq![','] + text::join(codes.drop_first(), seq![',']));
        }
    }
    assert(!"BYDAY"@.contains('='));
    assert(!"BYDAY"@.contains(';'));
    lemma_item_splits("BYDAY"@, value);
    lemma_item_without("BYDAY"@, value, ';');
    assert(text::upper("BYDAY"@) =~= "BYDAY"@);
    assert("BYDAY"@.len() == 5 && "INTERVAL"@.len() == 8 && "FREQ"@.len() == 4);
}

/// What a form writes reads back as that form, its weekdays in the order of the week, where the
/// value of its last day reads back as that day.
#[verifier::rlimit(40)]
#[verifier::spinoff_prover]
pub proof fn law_form_reads_back(form: FormView, schedule: ScheduleView)
    requires
        form.frequency != Frequency::NoRepeat,
        form_rule(form, schedule) is Ok,
        until_reads_back(form, schedule),
    ensures
        read_rule(form_rule(form, schedule)->Ok_0, schedule, false) == Some(normal_form(form)),
{
    let until: Seq<char> = match form.end {
        EndCondition::Until(day) => until_text(day@, schedule)->Ok_0,
        _ => seq![],
    };
    let items = rule_items(form, until);
    let rule = form_rule(form, schedule)->Ok_0;
    assert(rule == rule_line(items));
    let none: Seq<Seq<char>> = seq![];
    let start = Some(no_parts());
    assert(read_items(start, none, schedule, false) == start);
    // The frequency.
    let i1 = rule_item("FREQ"@, frequency_code(form.frequency));
    let s1 = none + seq![i1];
    let p1 = RulePartsView { frequency: Some(form.frequency), ..no_parts() };
    lemma_frequency_item(form.frequency, schedule);
    lemma_read_items_step(no_parts(), none, i1, schedule);
    assert(s1 =~= seq![i1]);
    // The interval.
    let s2 = s1 + interval_items(form);
    let p2 = RulePartsView { interval: form.interval, has_interval: form.interval != 1, ..p1 };
    if form.interval != 1 {
        lemma_interval_item(p1, form.interval, schedule);
        lemma_read_items_step(
            p1,
            s1,
            rule_item("INTERVAL"@, text::decimal(form.interval as nat)),
            schedule,
        );
    } else {
        assert(s2 =~= s1);
    }
    assert(read_items(start, s2, schedule, false) == Some(p2));
    // The weekdays.
    let s3 = s2 + weekday_items(form);
    let p3 = RulePartsView {
        weekdays: if form.frequency == Frequency::Weekly {
            Some(ordered_weekdays(form.weekdays))
        } else {
            None
        },
        ..p2
    };
    if form.frequency == Frequency::Weekly {
        lemma_byday_item(p2, form.weekdays, schedule);
        lemma_read_items_step(
            p2,
            s2,
            rule_item(
                "BYDAY"@,
                text::join(weekday_codes(ordered_weekdays(form.weekdays)), seq![',']),
            ),
            schedule,
        );
    } else {
        assert(s3 =~= s2);
    }
    assert(read_items(start, s3, schedule, false) == Some(p3));
    // The end.
    let s4 = s3 + end_items(form, until);
    let p4 = RulePartsView {
        end: end_view(form.end),
        has_end: form.end != EndCondition::Never,
        ..p3
    };
    match form.end {
        EndCondition::Never => {
            assert(s4 =~= s3);
        },
        EndCondition::Count(count) => {
            lemma_count_item(p3, count, schedule);
            lemma_read_items_step(
                p3,
                s3,
                rule_item("COUNT"@, text::decimal(count as nat)),
                schedule,
            );
        },
        EndCondition::Until(day) => {
            lemma_until_item(p3, until, day@, schedule);
            lemma_read_items_step(p3, s3, rule_item("UNTIL"@, until), schedule);
        },
    }
    assert(read_items(start, s4, schedule, false) == Some(p4));
    assert(items =~= s4);
    // The line splits into its parts.
    assert forall|i: int| #![trigger items[i]] 0 <= i < items.len() implies !items[i].contains(
        ';',
    ) by {
        if i > 0 && i < s2.len() {
            assert(items[i] == interval_items(form)[i - 1]);
        } else if i >= s2.len() && i < s3.len() {
            assert(items[i] == weekday_items(form)[i - s2.len()]);
        } else if i >= s3.len() {
            assert(items[i] == end_items(form, until)[i - s3.len()]);
        }
    }
    text::lemma_split_of_join(items, ';');
    reveal_strlit("RRULE");
    let body = text::join(items, seq![';']);
    assert forall|i: int| 0 <= i < 5 implies rule[i] != ':' by {
        assert(rule[i] == "RRULE"@[i]);
    }
    text::lemma_index_of_char_unique(rule, ':', 5);
    assert(rule.take(5) =~= "RRULE"@);
    assert(rule.skip(6) =~= body);
    assert(normal_form(form) =~= finished_form(p4, schedule)->0);
}

/// The rule of a form is shown as that form.
pub proof fn law_written_form_is_editable(form: FormView, schedule: ScheduleView)
    requires
        form.frequency != Frequency::NoRepeat,
        form_rule(form, schedule) is Ok,
        until_reads_back(form, schedule),
    ensures
        editable_form(
            Some(model::rule_recurrence(form_rule(form, schedule)->Ok_0)),
            schedule,
        ) == Some(normal_form(form)),
{
    law_form_reads_back(form, schedule);
}

// ---------------------------------------------------------------------------------------------
// Laws of the text
// ---------------------------------------------------------------------------------------------

/// Whether a code consists of two letters, whatever their case.
pub open spec fn is_code(code: Seq<char>, capital: (char, char), small: (char, char)) -> bool {
    code.len() == 2 && (code[0] == capital.0 || code[0] == small.0) && (code[1] == capital.1 || code[1]
        == small.1)
}

/// The weekdays are written MO, TU, WE, TH, FR, SA and SU, and each of these, whatever the case of
/// its letters, is read as that day. Nothing else is read as a day.
pub proof fn law_weekday_codes(code: Seq<char>)
    ensures
        weekday_code_spec(Weekday::Monday) == "MO"@,
        weekday_code_spec(Weekday::Tuesday) == "TU"@,
        weekday_code_spec(Weekday::Wednesday) == "WE"@,
        weekday_code_spec(Weekday::Thursday) == "TH"@,
        weekday_code_spec(Weekday::Friday) == "FR"@,
        weekday_code_spec(Weekday::Saturday) == "SA"@,
        weekday_code_spec(Weekday::Sunday) == "SU"@,
        coded_weekday(code) == Some(Weekday::Monday) <==> is_code(code, ('M', 'O'), ('m', 'o')),
        coded_weekday(code) == Some(Weekday::Tuesday) <==> is_code(code, ('T', 'U'), ('t', 'u')),
        coded_weekday(code) == Some(Weekday::Wednesday) <==> is_code(code, ('W', 'E'), ('w', 'e')),
        coded_weekday(code) == Some(Weekday::Thursday) <==> is_code(code, ('T', 'H'), ('t', 'h')),
        coded_weekday(code) == Some(Weekday::Friday) <==> is_code(code, ('F', 'R'), ('f', 'r')),
        coded_weekday(code) == Some(Weekday::Saturday) <==> is_code(code, ('S', 'A'), ('s', 'a')),
        coded_weekday(code) == Some(Weekday::Sunday) <==> is_code(code, ('S', 'U'), ('s', 'u')),
{
    reveal_strlit("MO");
    reveal_strlit("TU");
    reveal_strlit("WE");
    reveal_strlit("TH");
    reveal_strlit("FR");
    reveal_strlit("SA");
    reveal_strlit("SU");
    let up = text::upper(code);
    assert("MO"@ =~= seq!['M', 'O']);
    assert("TU"@ =~= seq!['T', 'U']);
    assert("WE"@ =~= seq!['W', 'E']);
    assert("TH"@ =~= seq!['T', 'H']);
    assert("FR"@ =~= seq!['F', 'R']);
    assert("SA"@ =~= seq!['S', 'A']);
    assert("SU"@ =~= seq!['S', 'U']);
    assert(up.len() == code.len());
    assert(seq!['M', 'O'][0] == 'M' && seq!['T', 'U'][0] == 'T' && seq!['W', 'E'][0] == 'W'
        && seq!['T', 'H'][0] == 'T' && seq!['F', 'R'][0] == 'F' && seq!['S', 'A'][0] == 'S'
        && seq!['S', 'U'][0] == 'S');
    assert(seq!['M', 'O'][1] == 'O' && seq!['T', 'U'][1] == 'U' && seq!['W', 'E'][1] == 'E'
        && seq!['T', 'H'][1] == 'H' && seq!['F', 'R'][1] == 'R' && seq!['S', 'A'][1] == 'A'
        && seq!['S', 'U'][1] == 'U');
    if code.len() == 2 {
        assert(up =~= seq![text::upper_char(code[0]), text::upper_char(code[1])]);
        lemma_upper_is(code[0]);
        lemma_upper_is(code[1]);
        assert(up[0] == text::upper_char(code[0]) && up[1] == text::upper_char(code[1]));
    }
}

proof fn lemma_upper_is(c: char)
    ensures
        text::upper_char(c) == 'M' <==> c == 'M' || c == 'm',
        text::upper_char(c) == 'O' <==> c == 'O' || c == 'o',
        text::upper_char(c) == 'T' <==> c == 'T' || c == 't',
        text::upper_char(c) == 'U' <==> c == 'U' || c == 'u',
        text::upper_char(c) == 'W' <==> c == 'W' || c == 'w',
        text::upper_char(c) == 'E' <==> c == 'E' || c == 'e',
        text::upper_char(c) == 'H' <==> c == 'H' || c == 'h',
        text::upper_char(c) == 'F' <==> c == 'F' || c == 'f',
        text::upper_char(c) == 'R' <==> c == 'R' || c == 'r',
        text::upper_char(c) == 'S' <==> c == 'S' || c == 's',
        text::upper_char(c) == 'A' <==> c == 'A' || c == 'a',
{
}

/// The codes in a written rule are those of exactly the weekdays of the form, each once, from Monday
/// to Sunday.
pub proof fn law_written_weekdays(weekdays: Seq<Weekday>)
    ensures
        ({
            let codes = weekday_codes(ordered_weekdays(weekdays));
            &&& codes.contains("MO"@) <==> weekdays.contains(Weekday::Monday)
            &&& codes.contains("TU"@) <==> weekdays.contains(Weekday::Tuesday)
            &&& codes.contains("WE"@) <==> weekdays.contains(Weekday::Wednesday)
            &&& codes.contains("TH"@) <==> weekdays.contains(Weekday::Thursday)
            &&& codes.contains("FR"@) <==> weekdays.contains(Weekday::Friday)
            &&& codes.contains("SA"@) <==> weekdays.contains(Weekday::Saturday)
            &&& codes.contains("SU"@) <==> weekdays.contains(Weekday::Sunday)
            &&& forall|i: int, j: int|
                0 <= i < j < codes.len() ==> place_in_week(#[trigger] codes[i]) < place_in_week(
                    #[trigger] codes[j],
                )
        }),
{
    let days = ordered_weekdays(weekdays);
    let codes = weekday_codes(days);
    lemma_weekdays_before(weekdays, 7);
    lemma_code_of_one(weekdays, Weekday::Monday);
    lemma_code_of_one(weekdays, Weekday::Tuesday);
    lemma_code_of_one(weekdays, Weekday::Wednesday);
    lemma_code_of_one(weekdays, Weekday::Thursday);
    lemma_code_of_one(weekdays, Weekday::Friday);
    lemma_code_of_one(weekdays, Weekday::Saturday);
    lemma_code_of_one(weekdays, Weekday::Sunday);
    lemma_weekdays_in_order(weekdays, 7);
    assert forall|i: int, j: int| 0 <= i < j < codes.len() implies place_in_week(#[trigger] codes[i])
        < place_in_week(#[trigger] codes[j]) by {
        lemma_place_of_code(days[i]);
        lemma_place_of_code(days[j]);
    }
}

/// The place of a weekday code in the week, Monday first.
pub open spec fn place_in_week(code: Seq<char>) -> int {
    if code == seq!['M', 'O'] {
        1
    } else if code == seq!['T', 'U'] {
        2
    } else if code == seq!['W', 'E'] {
        3
    } else if code == seq!['T', 'H'] {
        4
    } else if code == seq!['F', 'R'] {
        5
    } else if code == seq!['S', 'A'] {
        6
    } else {
        7
    }
}

proof fn lemma_place_of_code(weekday: Weekday)
    ensures
        place_in_week(weekday_code_spec(weekday)) == weekday_number_spec(weekday),
{
    reveal_strlit("MO");
    reveal_strlit("TU");
    reveal_strlit("WE");
    reveal_strlit("TH");
    reveal_strlit("FR");
    reveal_strlit("SA");
    reveal_strlit("SU");
    let code = weekday_code_spec(weekday);
    assert(code =~= seq![code[0], code[1]]);
    assert(seq!['M', 'O'][0] == 'M' && seq!['T', 'U'][0] == 'T' && seq!['W', 'E'][0] == 'W'
        && seq!['T', 'H'][0] == 'T' && seq!['F', 'R'][0] == 'F' && seq!['S', 'A'][0] == 'S');
    assert(seq!['M', 'O'][1] == 'O' && seq!['T', 'U'][1] == 'U' && seq!['W', 'E'][1] == 'E'
        && seq!['T', 'H'][1] == 'H' && seq!['F', 'R'][1] == 'R' && seq!['S', 'A'][1] == 'A');
    match weekday {
        Weekday::Monday => assert(code =~= seq!['M', 'O']),
        Weekday::Tuesday => assert(code =~= seq!['T', 'U']),
        Weekday::Wednesday => assert(code =~= seq!['W', 'E']),
        Weekday::Thursday => assert(code =~= seq!['T', 'H']),
        Weekday::Friday => assert(code =~= seq!['F', 'R']),
        Weekday::Saturday => assert(code =~= seq!['S', 'A']),
        Weekday::Sunday => {
            assert(code[0] == 'S' && code[1] == 'U');
        },
    }
}

proof fn lemma_code_of_one(weekdays: Seq<Weekday>, weekday: Weekday)
    ensures
        weekday_codes(ordered_weekdays(weekdays)).contains(weekday_code_spec(weekday))
            <==> weekdays.contains(weekday),
{
    let days = ordered_weekdays(weekdays);
    let codes = weekday_codes(days);
    lemma_weekdays_before(weekdays, 7);
    if codes.contains(weekday_code_spec(weekday)) {
        let i = choose|i: int| 0 <= i < codes.len() && codes[i] == weekday_code_spec(weekday);
        lemma_weekday_code(days[i]);
        lemma_weekday_code(weekday);
        assert(days[i] == weekday);
        assert(days.contains(weekday));
    }
    if weekdays.contains(weekday) {
        assert(days.contains(weekday));
        let i = choose|i: int| 0 <= i < days.len() && days[i] == weekday;
        assert(codes[i] == weekday_code_spec(weekday));
    }
}

proof fn lemma_weekdays_in_order(weekdays: Seq<Weekday>, n: nat)
    requires
        n <= 7,
    ensures
        forall|i: int, j: int|
            0 <= i < j < weekdays_before(weekdays, n).len() ==> weekday_number_spec(
                #[trigger] weekdays_before(weekdays, n)[i],
            ) < weekday_number_spec(#[trigger] weekdays_before(weekdays, n)[j]),
    decreases n,
{
    if n > 0 {
        let before = weekdays_before(weekdays, (n - 1) as nat);
        let all = weekdays_before(weekdays, n);
        lemma_weekdays_in_order(weekdays, (n - 1) as nat);
        lemma_weekdays_before(weekdays, (n - 1) as nat);
        assert forall|i: int, j: int| 0 <= i < j < all.len() implies weekday_number_spec(
            #[trigger] all[i],
        ) < weekday_number_spec(#[trigger] all[j]) by {
            assert(all[i] == before[i]);
            if j < before.len() {
                assert(all[j] == before[j]);
            } else {
                assert(before.contains(before[i]));
                assert(all[j] == weekday_at(n - 1));
            }
        }
    }
}

/// Weekdays are read from their codes: those that are read are exactly the ones that are named, and a
/// list that names one twice, or something else, is not read.
pub proof fn law_read_weekdays(value: Seq<char>, weekday: Weekday)
    ensures
        ({
            let codes = text::split(value, ',');
            &&& parsed_weekdays(value) matches Some(days) ==> (days.contains(weekday) <==> exists|i: int|
                0 <= i < codes.len() && coded_weekday(#[trigger] codes[i]) == Some(weekday))
            &&& parsed_weekdays(value) is Some <==> (forall|i: int|
                0 <= i < codes.len() ==> coded_weekday(#[trigger] codes[i]) is Some) && (forall|
                i: int,
                j: int,
            |
                0 <= i < j < codes.len() ==> coded_weekday(#[trigger] codes[i]) != coded_weekday(
                    #[trigger] codes[j],
                ))
        }),
{
    let codes = text::split(value, ',');
    lemma_coded_weekdays(codes);
    if coded_weekdays(codes) is Some {
        let days = coded_weekdays(codes)->0;
        lemma_weekdays_before(days, 7);
        if days.contains(weekday) {
            let i = choose|i: int| 0 <= i < days.len() && days[i] == weekday;
            assert(coded_weekday(codes[i]) == Some(weekday));
        }
        if exists|i: int| 0 <= i < codes.len() && coded_weekday(#[trigger] codes[i]) == Some(weekday) {
            let i = choose|i: int|
                0 <= i < codes.len() && coded_weekday(#[trigger] codes[i]) == Some(weekday);
            assert(days[i] == weekday);
        }
    }
}

proof fn lemma_coded_weekdays(codes: Seq<Seq<char>>)
    ensures
        coded_weekdays(codes) is Some <==> (forall|i: int|
            0 <= i < codes.len() ==> coded_weekday(#[trigger] codes[i]) is Some) && (forall|
            i: int,
            j: int,
        |
            0 <= i < j < codes.len() ==> coded_weekday(#[trigger] codes[i]) != coded_weekday(
                #[trigger] codes[j],
            )),
        coded_weekdays(codes) matches Some(days) ==> days.len() == codes.len() && forall|i: int|
            0 <= i < codes.len() ==> coded_weekday(#[trigger] codes[i]) == Some(days[i]),
    decreases codes.len(),
{
    if codes.len() > 0 {
        let before = codes.drop_last();
        let n = codes.len() - 1;
        lemma_coded_weekdays(before);
        assert forall|i: int| 0 <= i < n implies #[trigger] before[i] == codes[i] by {}
        if coded_weekdays(before) is Some && coded_weekday(codes.last()) is Some {
            let days = coded_weekdays(before)->0;
            let last = coded_weekday(codes.last())->0;
            if days.contains(last) {
                let i = choose|i: int| 0 <= i < days.len() && days[i] == last;
                assert(coded_weekday(before[i]) == Some(last));
                assert(coded_weekday(codes[i]) == coded_weekday(codes[n]));
            } else {
                assert forall|i: int, j: int| 0 <= i < j < codes.len() implies coded_weekday(
                    #[trigger] codes[i],
                ) != coded_weekday(#[trigger] codes[j]) by {
                    assert(before[i] == codes[i]);
                    if j < n {
                        assert(before[j] == codes[j]);
                    } else {
                        assert(days[i] == coded_weekday(codes[i])->0);
                        assert(days.contains(days[i]));
                    }
                }
                assert forall|i: int| 0 <= i < codes.len() implies coded_weekday(#[trigger] codes[i])
                    is Some && coded_weekday(codes[i]) == Some(coded_weekdays(codes)->0[i]) by {
                    if i < n {
                        assert(before[i] == codes[i]);
                    }
                }
            }
        } else if coded_weekdays(before) is None {
            if (forall|i: int| 0 <= i < codes.len() ==> coded_weekday(#[trigger] codes[i]) is Some) && (
            forall|i: int, j: int|
                0 <= i < j < codes.len() ==> coded_weekday(#[trigger] codes[i]) != coded_weekday(
                    #[trigger] codes[j],
                )) {
                assert forall|i: int| 0 <= i < n implies coded_weekday(#[trigger] before[i]) is Some by {
                    assert(before[i] == codes[i]);
                }
                assert forall|i: int, j: int| 0 <= i < j < n implies coded_weekday(
                    #[trigger] before[i],
                ) != coded_weekday(#[trigger] before[j]) by {
                    assert(before[i] == codes[i]);
                    assert(before[j] == codes[j]);
                }
            }
        } else {
            assert(coded_weekday(codes[n]) is None);
        }
    }
}

/// The text of a rule: how often it repeats, the interval unless it is one, the weekdays of a weekly
/// one, and its end.
#[verifier::rlimit(40)]
#[verifier::spinoff_prover]
pub proof fn law_text_of_a_rule(form: FormView, schedule: ScheduleView)
    requires
        form_rule(form, schedule) is Ok,
        form.frequency != Frequency::NoRepeat,
    ensures
        form_rule(form, schedule)->Ok_0 == "RRULE:FREQ="@ + (match form.frequency {
            Frequency::Daily => "DAILY"@,
            Frequency::Weekly => "WEEKLY"@,
            Frequency::Monthly => "MONTHLY"@,
            _ => "YEARLY"@,
        }) + (if form.interval == 1 {
            ""@
        } else {
            ";INTERVAL="@ + text::decimal(form.interval as nat)
        }) + (if form.frequency == Frequency::Weekly {
            ";BYDAY="@ + text::join(weekday_codes(ordered_weekdays(form.weekdays)), ","@)
        } else {
            ""@
        }) + (match form.end {
            EndCondition::Never => ""@,
            EndCondition::Count(count) => ";COUNT="@ + text::decimal(count as nat),
            EndCondition::Until(day) => ";UNTIL="@ + until_text(day@, schedule)->Ok_0,
        }),
{
    let until: Seq<char> = match form.end {
        EndCondition::Until(day) => until_text(day@, schedule)->Ok_0,
        _ => seq![],
    };
    let items = rule_items(form, until);
    reveal_strlit("RRULE:FREQ=");
    reveal_strlit("RRULE");
    reveal_strlit("FREQ");
    reveal_strlit("INTERVAL");
    reveal_strlit(";INTERVAL=");
    reveal_strlit("BYDAY");
    reveal_strlit(";BYDAY=");
    reveal_strlit("COUNT");
    reveal_strlit(";COUNT=");
    reveal_strlit("UNTIL");
    reveal_strlit(";UNTIL=");
    reveal_strlit("");
    reveal_strlit(",");
    assert(","@ =~= seq![',']);
    let days = text::join(weekday_codes(ordered_weekdays(form.weekdays)), seq![',']);
    let i1 = rule_item("FREQ"@, frequency_code(form.frequency));
    let s1 = seq![i1];
    let t1 = i1;
    assert(text::join(s1, seq![';']) == t1);
    let s2 = s1 + interval_items(form);
    let t2 = if form.interval == 1 {
        t1
    } else {
        t1 + ";INTERVAL="@ + text::decimal(form.interval as nat)
    };
    if form.interval == 1 {
        assert(s2 =~= s1);
    } else {
        let item = rule_item("INTERVAL"@, text::decimal(form.interval as nat));
        text::lemma_join_push(s1, seq![';'], item);
        assert(s2 =~= s1.push(item));
        assert(t1 + seq![';'] + item =~= t2);
    }
    assert(text::join(s2, seq![';']) == t2);
    let s3 = s2 + weekday_items(form);
    let t3 = if form.frequency == Frequency::Weekly {
        t2 + ";BYDAY="@ + days
    } else {
        t2
    };
    if form.frequency == Frequency::Weekly {
        let item = rule_item("BYDAY"@, days);
        text::lemma_join_push(s2, seq![';'], item);
        assert(s3 =~= s2.push(item));
        assert(t2 + seq![';'] + item =~= t3);
    } else {
        assert(s3 =~= s2);
    }
    assert(text::join(s3, seq![';']) == t3);
    let t4 = match form.end {
        EndCondition::Never => t3,
        EndCondition::Count(count) => t3 + ";COUNT="@ + text::decimal(count as nat),
        EndCondition::Until(day) => t3 + ";UNTIL="@ + until,
    };
    assert(items =~= s3 + end_items(form, until));
    match form.end {
        EndCondition::Never => {
            assert(items =~= s3);
        },
        EndCondition::Count(count) => {
            let item = rule_item("COUNT"@, text::decimal(count as nat));
            text::lemma_join_push(s3, seq![';'], item);
            assert(items =~= s3.push(item));
            assert(t3 + seq![';'] + item =~= t4);
        },
        EndCondition::Until(day) => {
            let item = rule_item("UNTIL"@, until);
            text::lemma_join_push(s3, seq![';'], item);
            assert(items =~= s3.push(item));
            assert(t3 + seq![';'] + item =~= t4);
        },
    }
    let rule = form_rule(form, schedule)->Ok_0;
    assert(text::join(items, seq![';']) == t4);
    assert(rule == "RRULE"@ + seq![':'] + t4);
    assert("RRULE"@ + seq![':'] + i1 =~= "RRULE:FREQ="@ + frequency_code(form.frequency));
    let head = "RRULE:FREQ="@ + frequency_code(form.frequency);
    let interval = if form.interval == 1 {
        ""@
    } else {
        ";INTERVAL="@ + text::decimal(form.interval as nat)
    };
    let weekly = if form.frequency == Frequency::Weekly {
        ";BYDAY="@ + days
    } else {
        ""@
    };
    let end = match form.end {
        EndCondition::Never => ""@,
        EndCondition::Count(count) => ";COUNT="@ + text::decimal(count as nat),
        EndCondition::Until(day) => ";UNTIL="@ + until,
    };
    assert(t2 =~= i1 + interval);
    assert(t3 =~= t2 + weekly);
    assert(t4 =~= t3 + end);
    assert(rule =~= head + interval + weekly + end);
}

/// A form is refused exactly where its interval is zero, its weekdays do not fit how often it
/// repeats, its count is zero, or its last day has no such time in the zone of the event.
pub proof fn law_refused_forms(form: FormView, schedule: ScheduleView)
    ensures
        form.interval == 0 ==> form_rule(form, schedule) == Err::<Seq<char>, RecurrenceFormError>(
            RecurrenceFormError::InvalidInterval,
        ),
        form.interval > 0 && form.frequency != Frequency::Weekly && form.weekdays.len() > 0
            ==> form_rule(form, schedule) == Err::<Seq<char>, RecurrenceFormError>(
            RecurrenceFormError::WeekdaysOnlyApplyToWeekly,
        ),
        form.interval > 0 && form.frequency == Frequency::Weekly && form.weekdays.len() == 0
            ==> form_rule(form, schedule) == Err::<Seq<char>, RecurrenceFormError>(
            RecurrenceFormError::WeeklyRequiresWeekday,
        ),
        form.interval > 0 && (form.frequency == Frequency::Weekly <==> form.weekdays.len() > 0) ==> {
            &&& form.end == EndCondition::Count(0) ==> form_rule(form, schedule) == Err::<
                Seq<char>,
                RecurrenceFormError,
            >(RecurrenceFormError::InvalidCount)
            &&& form.end == EndCondition::Never ==> form_rule(form, schedule) is Ok
            &&& form.end matches EndCondition::Count(count) ==> count > 0 ==> form_rule(form, schedule)
                is Ok
            &&& form.end matches EndCondition::Until(day) ==> match schedule {
                ScheduleView::Timed { timezone: Some(name), .. } => form_rule(form, schedule) is Ok || form_rule(
                    form,
                    schedule,
                ) == Err::<Seq<char>, RecurrenceFormError>(RecurrenceFormError::InvalidTimezone),
                _ => form_rule(form, schedule) is Ok,
            }
        },
{
}

/// The last day of a rule is written as the moment of the last start: for an event without a zone
/// the time of day of its start in UTC on that day; for whole days the day itself.
pub proof fn law_until_is_the_last_start(day: int, schedule: ScheduleView)
    requires
        schedule matches ScheduleView::Timed { start, .. } ==> start@.valid(),
    ensures
        schedule is AllDay ==> until_text(day, schedule) == Ok::<Seq<char>, RecurrenceFormError>(
            formats::compact_date(day),
        ),
        schedule matches ScheduleView::Timed { start, timezone: None, .. } ==> exists|
            v: date::DateTimeView,
        |
            {
                &&& until_text(day, schedule) == Ok::<Seq<char>, RecurrenceFormError>(
                    #[trigger] formats::compact_utc(v),
                )
                &&& v.offset == 0 && v.local_day() == day
                &&& (v.seconds - start@.seconds) % 86400 == 0
                &&& v.nanos == start@.nanos
            },
        schedule matches ScheduleView::Timed { start, timezone: Some(name), .. } ==> (
        !zone::zone_known(name) ==> until_text(day, schedule) is Err) && (zone::zone_known(name)
            ==> match zone::local_instant(
            name,
            day,
            Time {
                seconds: zone::shown_in(start@, name).local_second() as u32,
                nanos: zone::shown_in(start@, name).nanos as u32,
            },
        ) {
            Some(instant) => until_text(day, schedule) == Ok::<Seq<char>, RecurrenceFormError>(
                formats::compact_utc(instant),
            ),
            None => until_text(day, schedule) is Err,
        }),
{
    if let ScheduleView::Timed { start, timezone: None, .. } = schedule {
        let utc = start@.at_offset(0);
        let second = utc.local_second();
        let v = date::DateTimeView {
            seconds: date::day_start(day) + second,
            nanos: utc.nanos,
            offset: 0,
        };
        lemma_second_of_day(day, second);
        assert(v.local_day() == day);
        assert(v.local_second() == second);
        assert(formats::compact_utc(v) =~= formats::compact_date_time(
            day,
            second,
            utc.nanos,
        ).push('Z'));
    }
}

/// A rule is shown as a form only where it is the only one, and no dates are added or left out; and
/// an event without a recurrence is shown as one that does not repeat.
pub proof fn law_only_one_plain_rule_is_editable(
    recurrence: model::RecurrenceView,
    schedule: ScheduleView,
)
    ensures
        editable_form(None, schedule) matches Some(form) && form.frequency == Frequency::NoRepeat
            && form.interval == 1 && form.weekdays.len() == 0 && form.end is Never,
        recurrence.rdate.len() > 0 || recurrence.exdate.len() > 0 || recurrence.rrule.len() == 0
            || recurrence.rrule.len() > 1 ==> editable_form(Some(recurrence), schedule) is None,
        recurrence.rdate.len() == 0 && recurrence.exdate.len() == 0 && recurrence.rrule.len() == 1
            ==> editable_form(Some(recurrence), schedule) == read_rule(
            recurrence.rrule[0],
            schedule,
            false,
        ),
{
}

/// A weekly rule that names no day repeats on the weekday of the start: of its first day, or of the
/// local day of its first instant. Day 1 is a Monday.
pub proof fn law_weekly_rule_without_days_repeats_on_its_start(parts: RulePartsView, schedule: ScheduleView)
    requires
        parts.frequency == Some(Frequency::Weekly),
        parts.weekdays is None,
    ensures
        finished_form(parts, schedule) matches Some(form) && form.weekdays.len() == 1 && ({
            let day = match schedule {
                ScheduleView::AllDay { start_date, .. } => start_date@,
                ScheduleView::Timed { start, .. } => start@.local_day(),
            };
            match form.weekdays[0] {
                Weekday::Monday => day % 7 == 1,
                Weekday::Tuesday => day % 7 == 2,
                Weekday::Wednesday => day % 7 == 3,
                Weekday::Thursday => day % 7 == 4,
                Weekday::Friday => day % 7 == 5,
                Weekday::Saturday => day % 7 == 6,
                Weekday::Sunday => day % 7 == 0,
            }
        }) && form.interval == parts.interval && form.end == parts.end,
{
}

/// A part of a rule is read by its key: a key that is not known, one that was read before, and a week
/// start where it is not allowed make the rule unreadable; a part without a key or a value does too.
pub proof fn law_parts_are_read_by_their_keys(
    parts: RulePartsView,
    key: Seq<char>,
    value: Seq<char>,
    schedule: ScheduleView,
    allow_wkst: bool,
)
    requires
        !key.contains('='),
    ensures
        ({
            let r = read_item(parts, key + seq!['='] + value, schedule, allow_wkst);
            let name = text::upper(key);
            &&& value.len() == 0 ==> r is None
            &&& name != "FREQ"@ && name != "INTERVAL"@ && name != "BYDAY"@ && name != "WKST"@ && name
                != "COUNT"@ && name != "UNTIL"@ ==> r is None
            &&& name == "WKST"@ && (!allow_wkst || parts.has_wkst) ==> r is None
            &&& name == "FREQ"@ && parts.frequency is Some ==> r is None
            &&& name == "INTERVAL"@ && parts.has_interval ==> r is None
            &&& name == "BYDAY"@ && parts.weekdays is Some ==> r is None
            &&& (name == "COUNT"@ || name == "UNTIL"@) && parts.has_end ==> r is None
            &&& name == "FREQ"@ && r is Some ==> {
                let up = text::upper(value);
                match r->0.frequency {
                    Some(Frequency::Daily) => up == "DAILY"@,
                    Some(Frequency::Weekly) => up == "WEEKLY"@,
                    Some(Frequency::Monthly) => up == "MONTHLY"@,
                    Some(Frequency::Yearly) => up == "YEARLY"@,
                    _ => false,
                }
            }
            &&& name == "INTERVAL"@ && r is Some ==> r->0.interval > 0 && text::parsed_number(
                value,
                4294967295,
            ) == Some(r->0.interval as int)
            &&& name == "COUNT"@ && r is Some ==> (r->0.end matches EndView::Count(count) && count > 0
                && text::parsed_number(value, 4294967295) == Some(count as int))
            &&& name == "UNTIL"@ && r is Some ==> (r->0.end matches EndView::Until(day) && parsed_until(
                value,
                schedule,
            ) == Some(day))
            &&& name == "BYDAY"@ && r is Some ==> r->0.weekdays == parsed_weekdays(value)
        }),
{
    lemma_item_splits(key, value);
    assert(rule_item(key, value) == key + seq!['='] + value);
    let digits = if value.len() > 0 && value[0] == '+' {
        value.drop_first()
    } else {
        value
    };
    if text::is_number(digits) {
        text::lemma_number_value_grows(digits, 0);
    }
    reveal_strlit("FREQ");
    reveal_strlit("INTERVAL");
    reveal_strlit("BYDAY");
    reveal_strlit("WKST");
    reveal_strlit("COUNT");
    reveal_strlit("UNTIL");
    assert("FREQ"@.len() == 4 && "INTERVAL"@.len() == 8 && "BYDAY"@.len() == 5 && "WKST"@.len() == 4
        && "COUNT"@.len() == 5 && "UNTIL"@.len() == 5);
    assert("FREQ"@[0] == 'F' && "WKST"@[0] == 'W' && "BYDAY"@[0] == 'B' && "COUNT"@[0] == 'C'
        && "UNTIL"@[0] == 'U');
}

/// The summary says how often a rule repeats in words, then how often in all or until when.
pub proof fn law_summary_of_a_form(form: ReadForm)
    ensures
        form.frequency == Frequency::NoRepeat && form.end is Never ==> form_summary(form)
            == "Does not repeat"@,
        form.end is Never && form.interval == 1 ==> {
            &&& form.frequency == Frequency::Daily ==> form_summary(form) == "Every day"@
            &&& form.frequency == Frequency::Monthly ==> form_summary(form) == "Every month"@
            &&& form.frequency == Frequency::Yearly ==> form_summary(form) == "Every year"@
            &&& form.frequency == Frequency::Weekly ==> form_summary(form) == "Every week on "@
                + text::join(weekday_names(form.weekdays), ", "@)
        },
        form.end is Never && form.interval != 1 ==> {
            let every = "Every "@ + text::decimal(form.interval as nat);
            &&& form.frequency == Frequency::Daily ==> form_summary(form) == every + " days"@
            &&& form.frequency == Frequency::Monthly ==> form_summary(form) == every + " months"@
            &&& form.frequency == Frequency::Yearly ==> form_summary(form) == every + " years"@
            &&& form.frequency == Frequency::Weekly ==> form_summary(form) == every + " weeks on "@
                + text::join(weekday_names(form.weekdays), ", "@)
        },
        form.end matches EndView::Count(count) ==> form_summary(form) == form_summary(
            ReadForm { end: EndView::Never, ..form },
        ) + " ("@ + text::decimal(count as nat) + " times)"@,
        form.end matches EndView::Until(day) ==> form_summary(form) == form_summary(
            ReadForm { end: EndView::Never, ..form },
        ) + " until "@ + formats::iso_date(day),
        weekday_name_spec(Weekday::Monday) == "Monday"@,
        weekday_name_spec(Weekday::Tuesday) == "Tuesday"@,
        weekday_name_spec(Weekday::Wednesday) == "Wednesday"@,
        weekday_name_spec(Weekday::Thursday) == "Thursday"@,
        weekday_name_spec(Weekday::Friday) == "Friday"@,
        weekday_name_spec(Weekday::Saturday) == "Saturday"@,
        weekday_name_spec(Weekday::Sunday) == "Sunday"@,
{
    reveal_strlit("Every ");
    reveal_strlit("day");
    reveal_strlit("week");
    reveal_strlit("month");
    reveal_strlit("year");
    reveal_strlit("Every day");
    reveal_strlit("Every month");
    reveal_strlit("Every year");
    reveal_strlit("Every week on ");
    reveal_strlit(" on ");
    reveal_strlit(" days");
    reveal_strlit(" months");
    reveal_strlit(" years");
    reveal_strlit(" weeks on ");
    reveal_strlit(" ");
    reveal_strlit("s");
    let every = "Every "@ + text::decimal(form.interval as nat);
    let names = text::join(weekday_names(form.weekdays), ", "@);
    assert("Every "@ + "day"@ =~= "Every day"@);
    assert("Every "@ + "month"@ =~= "Every month"@);
    assert("Every "@ + "year"@ =~= "Every year"@);
    assert("Every "@ + "week"@ + " on "@ + names =~= "Every week on "@ + names);
    assert(every + " "@ + "day"@ + "s"@ =~= every + " days"@);
    assert(every + " "@ + "month"@ + "s"@ =~= every + " months"@);
    assert(every + " "@ + "year"@ + "s"@ =~= every + " years"@);
    assert(every + " "@ + "week"@ + "s"@ + " on "@ + names =~= every + " weeks on "@ + names);
}

/// A recurrence that cannot be edited is summed up by what it is made of: a rule, added dates and left
/// out dates, in this order.
pub proof fn law_summary_of_what_cannot_be_edited(recurrence: model::RecurrenceView)
    ensures
        ({
            let (rule, added, left_out) = (
                recurrence.rrule.len() > 0,
                recurrence.rdate.len() > 0,
                recurrence.exdate.len() > 0,
            );
            let summary = custom_summary_spec(recurrence);
            &&& !rule && !added && !left_out ==> summary == "Custom recurrence"@
            &&& rule && !added && !left_out ==> summary == "Custom recurrence (rule)"@
            &&& !rule && added && !left_out ==> summary == "Custom recurrence (additional dates)"@
            &&& !rule && !added && left_out ==> summary == "Custom recurrence (excluded dates)"@
            &&& rule && added && !left_out ==> summary == "Custom recurrence (rule, additional dates)"@
            &&& rule && !added && left_out ==> summary == "Custom recurrence (rule, excluded dates)"@
            &&& !rule && added && left_out ==> summary
                == "Custom recurrence (additional dates, excluded dates)"@
            &&& rule && added && left_out ==> summary
                == "Custom recurrence (rule, additional dates, excluded dates)"@
        }),
{
    reveal_strlit("rule");
    reveal_strlit("additional dates");
    reveal_strlit("excluded dates");
    reveal_strlit("Custom recurrence (");
    reveal_strlit(", ");
    reveal_strlit(")");
    reveal_strlit("Custom recurrence (rule)");
    reveal_strlit("Custom recurrence (additional dates)");
    reveal_strlit("Custom recurrence (excluded dates)");
    reveal_strlit("Custom recurrence (rule, additional dates)");
    reveal_strlit("Custom recurrence (rule, excluded dates)");
    reveal_strlit("Custom recurrence (additional dates, excluded dates)");
    reveal_strlit("Custom recurrence (rule, additional dates, excluded dates)");
    let (rule, added, left_out) = (
        recurrence.rrule.len() > 0,
        recurrence.rdate.len() > 0,
        recurrence.exdate.len() > 0,
    );
    let details = custom_details(recurrence);
    let (r, a, e) = ("rule"@, "additional dates"@, "excluded dates"@);
    let gap = ", "@;
    let summary = custom_summary_spec(recurrence);
    reveal_with_fuel(text::join, 4);
    if rule && added && left_out {
        assert(details =~= seq![r, a, e]);
        assert(details.drop_first() =~= seq![a, e]);
        assert(details.drop_first().drop_first() =~= seq![e]);
        assert(text::join(details, gap) == r + gap + (a + gap + e));
        assert(summary =~= "Custom recurrence (rule, additional dates, excluded dates)"@);
    } else if rule && added {
        assert(details =~= seq![r, a]);
        assert(details.drop_first() =~= seq![a]);
        assert(summary =~= "Custom recurrence (rule, additional dates)"@);
    } else if rule && left_out {
        assert(details =~= seq![r, e]);
        assert(details.drop_first() =~= seq![e]);
        assert(summary =~= "Custom recurrence (rule, excluded dates)"@);
    } else if added && left_out {
        assert(details =~= seq![a, e]);
        assert(details.drop_first() =~= seq![e]);
        assert(summary =~= "Custom recurrence (additional dates, excluded dates)"@);
    } else if rule {
        assert(details =~= seq![r]);
        assert(summary =~= "Custom recurrence (rule)"@);
    } else if added {
        assert(details =~= seq![a]);
        assert(summary =~= "Custom recurrence (additional dates)"@);
    } else if left_out {
        assert(details =~= seq![e]);
        assert(summary =~= "Custom recurrence (excluded dates)"@);
    }
}

/// What is said of a form that is refused.
pub proof fn law_messages_of_refused_forms()
    ensures
        RecurrenceFormError::InvalidInterval.message_spec() == "recurrence interval must be at least one"@,
        RecurrenceFormError::WeeklyRequiresWeekday.message_spec()
            == "weekly recurrence requires a weekday"@,
        RecurrenceFormError::WeekdaysOnlyApplyToWeekly.message_spec()
            == "weekdays only apply to weekly recurrence"@,
        RecurrenceFormError::InvalidCount.message_spec() == "recurrence count must be at least one"@,
        RecurrenceFormError::InvalidTimezone.message_spec()
            == "recurrence boundary is not representable in the event timezone"@,
{
}

} // verus!
