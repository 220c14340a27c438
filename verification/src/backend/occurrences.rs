//! Which occurrences a recurring event generates, and how exceptions follow their event.
use vstd::prelude::*;

use crate::date;
use crate::date::{Date, DateTime, DateTimeView};
use crate::formats;
use crate::model;
use crate::model::{
    DetachedEvent, DetachedView, Event, EventSchedule, EventView, RecurrenceId, RecurrenceIdView,
    RecurrenceSpec, RecurrenceView, ScheduleView,
};
use crate::recurrence_split;
use crate::rules;
use crate::text;
use crate::zone;

verus! {

// ---------------------------------------------------------------------------------------------
// The text that occurrences are generated from
// ---------------------------------------------------------------------------------------------

/// All the lines of a recurrence: its rules, its additional dates and its excluded dates.
pub open spec fn recurrence_lines(recurrence: RecurrenceView) -> Seq<Seq<char>> {
    recurrence.rrule + recurrence.rdate + recurrence.exdate
}

/// A start and the lines of a recurrence, one below the other.
pub open spec fn source_text(start: Seq<char>, recurrence: RecurrenceView) -> Seq<char> {
    text::join(seq![start] + recurrence_lines(recurrence), seq!['\n'])
}

/// The start of a timed event as a line: in UTC, or in its zone where that is known.
pub open spec fn timed_start_line(start: DateTimeView, timezone: Option<Seq<char>>) -> Option<Seq<char>> {
    match timezone {
        None => Some("DTSTART:"@ + formats::compact_utc(start)),
        Some(name) => if zone::zone_known(name) {
            Some(
                "DTSTART;TZID="@ + name + seq![':'] + formats::compact_local(
                    zone::shown_in(start, name),
                ),
            )
        } else {
            None
        },
    }
}

/// The text that the occurrences of an event are generated from.
pub open spec fn event_source(schedule: ScheduleView, recurrence: RecurrenceView) -> Option<Seq<char>> {
    match schedule {
        ScheduleView::AllDay { start_date, .. } => Some(
            source_text("DTSTART;VALUE=DATE:"@ + formats::compact_date(start_date@), recurrence),
        ),
        ScheduleView::Timed { start, timezone, .. } => match timed_start_line(start@, timezone) {
            Some(line) => Some(source_text(line, recurrence)),
            None => None,
        },
    }
}

/// Put the lines of a recurrence below its start.
pub fn make_source(start: String, recurrence: &RecurrenceSpec) -> (r: String)
    ensures
        r@ == source_text(start@, recurrence@),
{
    let mut lines: Vec<String> = Vec::new();
    lines.push(start);
    let ghost head = seq![start@];
    assert(text::views(lines@) =~= head);
    push_all(&mut lines, &recurrence.rrule);
    push_all(&mut lines, &recurrence.rdate);
    push_all(&mut lines, &recurrence.exdate);
    proof {
        reveal_strlit("\n");
        assert("\n"@ =~= seq!['\n']);
        assert(text::views(lines@) =~= head + recurrence_lines(recurrence@));
    }
    text::join_texts(&lines, "\n")
}

/// Add copies of all the texts of `more`.
fn push_all(lines: &mut Vec<String>, more: &Vec<String>)
    ensures
        text::views(final(lines)@) == text::views(old(lines)@) + text::views(more@),
{
    let ghost before = text::views(lines@);
    assert(text::views(more@).take(0) =~= seq![]);
    assert(before + text::views(more@).take(0) =~= before);
    for i in 0..more.len()
        invariant
            text::views(lines@) == before + text::views(more@).take(i as int),
    {
        let ghost now = lines@;
        lines.push(more[i].clone());
        assert(text::views(lines@) =~= text::views(now).push(more@[i as int]@));
        assert(text::views(more@).take(i + 1) =~= text::views(more@).take(i as int).push(
            more@[i as int]@,
        ));
    }
    assert(text::views(more@).take(more@.len() as int) =~= text::views(more@));
}

/// The start of a timed event as a line.
pub fn make_timed_start_line(start: &DateTime, timezone: &Option<String>) -> (r: Option<String>)
    ensures
        match r {
            Some(line) => timed_start_line(start@, model::text_view(*timezone)) == Some(line@),
            None => timed_start_line(start@, model::text_view(*timezone)) is None,
        },
{
    match timezone {
        None => Some(text::joined("DTSTART:", formats::compact_utc_text(start).as_str())),
        Some(name) => match zone::in_zone(start, name.as_str()) {
            None => None,
            Some(shown) => {
                let mut line = text::joined("DTSTART;TZID=", name.as_str());
                line.push(':');
                line.append(formats::compact_local_text(&shown).as_str());
                assert(line@ =~= timed_start_line(start@, model::text_view(*timezone))->0);
                Some(line)
            },
        },
    }
}

/// The text that the occurrences of an event are generated from.
pub fn make_event_source(schedule: &EventSchedule, recurrence: &RecurrenceSpec) -> (r: Option<String>)
    ensures
        match r {
            Some(source) => event_source(schedule@, recurrence@) == Some(source@),
            None => event_source(schedule@, recurrence@) is None,
        },
{
    match schedule {
        EventSchedule::AllDay { start_date, .. } => {
            let line = text::joined(
                "DTSTART;VALUE=DATE:",
                formats::compact_date_text(start_date).as_str(),
            );
            Some(make_source(line, recurrence))
        },
        EventSchedule::Timed { start, timezone, .. } => match make_timed_start_line(start, timezone) {
            Some(line) => Some(make_source(line, recurrence)),
            None => None,
        },
    }
}

// ---------------------------------------------------------------------------------------------
// Identities
// ---------------------------------------------------------------------------------------------

/// Whether two identities name the same occurrence: the same date, the same date and time on the
/// clocks of their common zone, or the same instant where there is none.
pub open spec fn identities_match(left: RecurrenceIdView, right: RecurrenceIdView) -> bool {
    match (left, right) {
        (RecurrenceIdView::AllDay(day), RecurrenceIdView::AllDay(other)) => day@ == other@,
        (
            RecurrenceIdView::Timed { date_time, timezone },
            RecurrenceIdView::Timed { date_time: other, timezone: other_timezone },
        ) => timezone == other_timezone && match timezone {
            Some(name) => zone::zone_known(name) && recurrence_split::same_clock(
                zone::shown_in(date_time@, name),
                zone::shown_in(other@, name),
            ),
            None => date_time@.same_instant(other@),
        },
        _ => false,
    }
}

/// Whether two identities name the same occurrence.
pub fn detached_recurrence_ids_match(left: &RecurrenceId, right: &RecurrenceId) -> (r: bool)
    ensures
        r == identities_match(left@, right@),
{
    match (left, right) {
        (RecurrenceId::AllDay(day), RecurrenceId::AllDay(other)) => day.same(other),
        (
            RecurrenceId::Timed { date_time, timezone },
            RecurrenceId::Timed { date_time: other, timezone: other_timezone },
        ) => {
            if !model::same_optional_text(timezone, other_timezone) {
                return false;
            }
            match timezone {
                Some(name) => match (
                    zone::in_zone(date_time, name.as_str()),
                    zone::in_zone(other, name.as_str()),
                ) {
                    (Some(a), Some(b)) => a.local_date().same(&b.local_date()) && a.local_time()
                        == b.local_time(),
                    _ => false,
                },
                None => date_time.same_instant(other),
            }
        },
        _ => false,
    }
}

/// Matching is symmetric.
pub proof fn law_identities_match_symmetric(left: RecurrenceIdView, right: RecurrenceIdView)
    ensures
        identities_match(left, right) == identities_match(right, left),
{
}

/// The key by which exceptions are put in order: midnight in UTC for a date, the instant in UTC
/// otherwise.
pub open spec fn sort_key(identity: RecurrenceIdView) -> Seq<char> {
    match identity {
        RecurrenceIdView::AllDay(day) => formats::iso_date(day@) + "T00:00:00+00:00"@,
        RecurrenceIdView::Timed { date_time, .. } => formats::rfc3339_of(date_time@.at_offset(0)),
    }
}

/// The key by which exceptions are put in order.
pub fn detached_recurrence_sort(identity: &RecurrenceId) -> (r: String)
    ensures
        r@ == sort_key(identity@),
{
    match identity {
        RecurrenceId::AllDay(day) => {
            let mut key = formats::iso_date_text(day);
            key.append("T00:00:00+00:00");
            key
        },
        RecurrenceId::Timed { date_time, .. } => formats::rfc3339_text(&date_time.with_offset(0)),
    }
}

/// What makes two exceptions of one event the same: kind, date or date and time as text, and zone.
pub open spec fn identity_key(detached: DetachedView) -> (Seq<char>, Seq<char>, Option<Seq<char>>) {
    match detached.identity() {
        RecurrenceIdView::AllDay(day) => ("all_day"@, formats::iso_date(day@), None),
        RecurrenceIdView::Timed { date_time, timezone } => (
            "timed"@,
            formats::rfc3339_of(date_time@),
            timezone,
        ),
    }
}

/// What makes two exceptions of one event the same.
pub fn detached_recurrence_identity(detached: &DetachedEvent) -> (r: (String, String, Option<String>))
    ensures
        (r.0@, r.1@, model::text_view(r.2)) == identity_key(detached@),
{
    match detached.identity() {
        RecurrenceId::AllDay(day) => ("all_day".to_owned(), formats::iso_date_text(day), None),
        RecurrenceId::Timed { date_time, timezone } => (
            "timed".to_owned(),
            formats::rfc3339_text(date_time),
            model::copy_text(timezone),
        ),
    }
}

/// Whether no two exceptions of a list are the same.
pub open spec fn are_distinct(detached: Seq<DetachedView>) -> bool {
    forall|i: int, j: int|
        0 <= i < j < detached.len() ==> identity_key(#[trigger] detached[i]) != identity_key(
            #[trigger] detached[j],
        )
}

/// Whether two identity keys are the same.
fn same_identity_key(a: &(String, String, Option<String>), b: &(String, String, Option<String>)) -> (r:
    bool)
    ensures
        r == ((a.0@, a.1@, model::text_view(a.2)) == (b.0@, b.1@, model::text_view(b.2))),
{
    text::same_text(a.0.as_str(), b.0.as_str()) && text::same_text(a.1.as_str(), b.1.as_str())
        && model::same_optional_text(&a.2, &b.2)
}

/// Whether no two exceptions of a list are the same.
pub fn detached_events_are_valid(exceptions: &Vec<DetachedEvent>) -> (r: bool)
    ensures
        r == are_distinct(model::detached_views(exceptions@)),
{
    let ghost all = model::detached_views(exceptions@);
    let mut keys: Vec<(String, String, Option<String>)> = Vec::new();
    for i in 0..exceptions.len()
        invariant
            all == model::detached_views(exceptions@),
            keys@.len() == i,
            forall|k: int|
                0 <= k < i ==> (
                (#[trigger] keys@[k]).0@,
                keys@[k].1@,
                model::text_view(keys@[k].2),
                ) == identity_key(all[k]),
            forall|a: int, b: int|
                0 <= a < b < i ==> identity_key(#[trigger] all[a]) != identity_key(#[trigger] all[b]),
    {
        let key = detached_recurrence_identity(&exceptions[i]);
        assert(all[i as int] == exceptions@[i as int]@);
        for j in 0..i
            invariant
                i < all.len(),
                keys@.len() == i,
                (key.0@, key.1@, model::text_view(key.2)) == identity_key(all[i as int]),
                forall|k: int|
                    0 <= k < i ==> (
                    (#[trigger] keys@[k]).0@,
                    keys@[k].1@,
                    model::text_view(keys@[k].2),
                    ) == identity_key(all[k]),
                forall|k: int|
                    0 <= k < j ==> identity_key(#[trigger] all[k]) != identity_key(all[i as int]),
                all == model::detached_views(exceptions@),
        {
            if same_identity_key(&keys[j], &key) {
                assert(identity_key(all[j as int]) == identity_key(all[i as int]));
                return false;
            }
            assert(keys@[j as int] == keys@[j as int]);
        }
        keys.push(key);
    }
    true
}

// ---------------------------------------------------------------------------------------------
// Generated occurrences
// ---------------------------------------------------------------------------------------------

/// What the recurrence text of an event gives around an occurrence: its excluded dates, and its
/// occurrences within two days of the one in question.
#[verifier::ext_equal]
pub struct Neighbours {
    pub exdates: Seq<DateTimeView>,
    pub dates: Seq<DateTimeView>,
}

/// Two days.
pub open spec fn two_days() -> date::Span {
    date::Span { seconds: 172800, nanos: 0 }
}

/// Two days back.
pub open spec fn minus_two_days() -> date::Span {
    date::Span { seconds: -172800i64, nanos: 0 }
}

/// The instants two days before and after another, where they are representable.
pub open spec fn window(target: DateTimeView) -> Option<(DateTime, DateTime)> {
    if target.valid() {
        match (
            date::later(date::date_time_of(target), minus_two_days()),
            date::later(date::date_time_of(target), two_days()),
        ) {
            (Some(lower), Some(upper)) => Some((lower, upper)),
            _ => None,
        }
    } else {
        None
    }
}

/// The occurrences of an event are looked for from two days before an instant to two days after it,
/// where both are representable; so they are but on the first and last days of the calendar.
pub proof fn law_window_is_four_days(target: DateTimeView)
    requires
        target.valid(),
        target.nanos < date::SECOND_NANOS,
    ensures
        date::MIN_DAY + 2 < date::day_of_second(target.seconds) < date::MAX_DAY - 2 ==> window(
            target,
        ) is Some,
        window(target) matches Some((lower, upper)) ==> lower@ == (DateTimeView {
            seconds: target.seconds - 172800,
            ..target
        }) && upper@ == (DateTimeView { seconds: target.seconds + 172800, ..target }),
{
    let at = date::date_time_of(target);
    date::lemma_date_time_of(target);
    date::lemma_later(at, minus_two_days());
    date::lemma_later(at, two_days());
}

/// The instant around which the occurrences of an event are looked for.
pub open spec fn window_target(identity: RecurrenceIdView) -> DateTimeView {
    match identity {
        RecurrenceIdView::AllDay(day) => recurrence_split::midnight(day@),
        RecurrenceIdView::Timed { date_time, .. } => date_time@,
    }
}

/// Whether an event generates an occurrence, given what its recurrence text gives around it;
/// nothing is given where the text is not accepted. The start of the event counts as an occurrence
/// unless it is excluded.
pub open spec fn is_generated(
    schedule: ScheduleView,
    identity: RecurrenceIdView,
    found: Option<Neighbours>,
) -> bool {
    match (schedule, identity, found, window(window_target(identity))) {
        (
            ScheduleView::AllDay { start_date, .. },
            RecurrenceIdView::AllDay(day),
            Some(near),
            Some(_),
        ) => {
            some_falls_on(near.dates, day@) || (start_date@ == day@ && !some_falls_on(
                near.exdates,
                start_date@,
            ))
        },
        (
            ScheduleView::Timed { start, timezone, .. },
            RecurrenceIdView::Timed { timezone: other, .. },
            Some(near),
            Some((lower, upper)),
        ) => timezone == other && event_source_known(timezone) && (some_is_identity(near.dates, identity)
            || (lower@.before(start@) && start@.before(upper@) && occurrence_is_identity(
            start@,
            identity,
        ) && !some_at_second(near.exdates, start@.seconds))),
        _ => false,
    }
}

/// Whether some instant falls on a local day.
pub open spec fn some_falls_on(instants: Seq<DateTimeView>, day: int) -> bool {
    exists|i: int| 0 <= i < instants.len() && (#[trigger] instants[i]).local_day() == day
}

/// Whether some instant is the one that an identity of the same zone names.
pub open spec fn some_is_identity(instants: Seq<DateTimeView>, identity: RecurrenceIdView) -> bool {
    exists|i: int|
        0 <= i < instants.len() && occurrence_is_identity(#[trigger] instants[i], identity)
}

/// Whether some instant lies in a second.
pub open spec fn some_at_second(instants: Seq<DateTimeView>, seconds: int) -> bool {
    exists|i: int| 0 <= i < instants.len() && (#[trigger] instants[i]).seconds == seconds
}

/// Whether the zone of an event is known, where it has one.
pub open spec fn event_source_known(timezone: Option<Seq<char>>) -> bool {
    timezone matches Some(name) ==> zone::zone_known(name)
}

/// Whether an occurrence is the one that an identity of the same zone names.
pub open spec fn occurrence_is_identity(occurrence: DateTimeView, identity: RecurrenceIdView) -> bool {
    match identity {
        RecurrenceIdView::Timed { date_time, timezone } => match timezone {
            Some(name) => zone::zone_known(name) && recurrence_split::same_clock(
                zone::shown_in(occurrence, name),
                zone::shown_in(date_time@, name),
            ),
            None => occurrence.same_instant(date_time@),
        },
        RecurrenceIdView::AllDay(_) => false,
    }
}

/// Whether an occurrence is the one that an identity of the same zone names.
fn is_identity_of(occurrence: &DateTime, identity: &RecurrenceId) -> (r: bool)
    ensures
        r == occurrence_is_identity(occurrence@, identity@),
{
    match identity {
        RecurrenceId::Timed { date_time, timezone } => match timezone {
            Some(name) => match (
                zone::in_zone(occurrence, name.as_str()),
                zone::in_zone(date_time, name.as_str()),
            ) {
                (Some(a), Some(b)) => a.local_date().same(&b.local_date()) && a.local_time()
                    == b.local_time(),
                _ => false,
            },
            None => occurrence.same_instant(date_time),
        },
        RecurrenceId::AllDay(_) => false,
    }
}

/// The instant around which the occurrences of an event are looked for, where it is representable.
fn target_of(identity: &RecurrenceId) -> (r: Option<DateTime>)
    ensures
        match r {
            Some(target) => target@ == window_target(identity@) && target@.valid(),
            None => !window_target(identity@).valid(),
        },
{
    match identity {
        RecurrenceId::AllDay(day) => recurrence_split::midnight_of(day),
        RecurrenceId::Timed { date_time, .. } => Some(date_time.with_offset(date_time.offset())),
    }
}

/// The instants two days before and after an occurrence, where they are representable.
fn window_of(identity: &RecurrenceId) -> (r: Option<(DateTime, DateTime)>)
    ensures
        r == window(window_target(identity@)),
{
    match target_of(identity) {
        None => None,
        Some(target) => {
            proof {
                date::lemma_date_time_of_view(target);
            }
            match (
                target.plus(date::Span { seconds: -172800, nanos: 0 }),
                target.plus(date::Span { seconds: 172800, nanos: 0 }),
            ) {
                (Some(lower), Some(upper)) => Some((lower, upper)),
                _ => None,
            }
        },
    }
}

/// What a recurrence text gives around an occurrence.
pub struct Found {
    pub exdates: Vec<DateTime>,
    pub dates: Vec<DateTime>,
}

/// The values of what a recurrence text gives around an occurrence.
pub open spec fn found_view(found: Option<Found>) -> Option<Neighbours> {
    match found {
        Some(found) => Some(
            Neighbours {
                exdates: rules::instant_views(found.exdates@),
                dates: rules::instant_views(found.dates@),
            },
        ),
        None => None,
    }
}

/// Whether some instant falls on a local day.
fn some_on_day(instants: &Vec<DateTime>, day: &Date) -> (r: bool)
    ensures
        r == some_falls_on(rules::instant_views(instants@), day@),
{
    let ghost views = rules::instant_views(instants@);
    for i in 0..instants.len()
        invariant
            views == rules::instant_views(instants@),
            forall|k: int| 0 <= k < i ==> (#[trigger] views[k]).local_day() != day@,
    {
        assert(views[i as int] == instants@[i as int]@);
        if instants[i].local_date().same(day) {
            return true;
        }
    }
    false
}

/// Whether some instant is the one that an identity of the same zone names.
fn some_matches(instants: &Vec<DateTime>, identity: &RecurrenceId) -> (r: bool)
    ensures
        r == some_is_identity(rules::instant_views(instants@), identity@),
{
    let ghost views = rules::instant_views(instants@);
    for i in 0..instants.len()
        invariant
            views == rules::instant_views(instants@),
            forall|k: int|
                0 <= k < i ==> !occurrence_is_identity(#[trigger] views[k], identity@),
    {
        assert(views[i as int] == instants@[i as int]@);
        if is_identity_of(&instants[i], identity) {
            return true;
        }
    }
    false
}

/// Whether some instant lies in a second.
fn some_in_second(instants: &Vec<DateTime>, seconds: i64) -> (r: bool)
    ensures
        r == some_at_second(rules::instant_views(instants@), seconds as int),
{
    let ghost views = rules::instant_views(instants@);
    for i in 0..instants.len()
        invariant
            views == rules::instant_views(instants@),
            forall|k: int| 0 <= k < i ==> (#[trigger] views[k]).seconds != seconds,
    {
        assert(views[i as int] == instants@[i as int]@);
        if instants[i].timestamp() == seconds {
            return true;
        }
    }
    false
}

/// Whether an event with a recurrence generates an occurrence, given what its recurrence text gives
/// around it.
pub fn is_generated_among(schedule: &EventSchedule, identity: &RecurrenceId, found: &Option<Found>) -> (r:
    bool)
    ensures
        r == is_generated(schedule@, identity@, found_view(*found)),
{
    let near = match found {
        Some(near) => near,
        None => {
            return false;
        },
    };
    let (lower, upper): (DateTime, DateTime) = match window_of(identity) {
        Some(bounds) => bounds,
        None => {
            return false;
        },
    };
    match (schedule, identity) {
        (EventSchedule::AllDay { start_date, .. }, RecurrenceId::AllDay(day)) => some_on_day(
            &near.dates,
            day,
        ) || (start_date.same(day) && !some_on_day(&near.exdates, start_date)),
        (
            EventSchedule::Timed { start, timezone, .. },
            RecurrenceId::Timed { timezone: other, .. },
        ) => {
            if !model::same_optional_text(timezone, other) {
                return false;
            }
            if let Some(name) = timezone {
                if !zone::is_known(name.as_str()) {
                    return false;
                }
            }
            some_matches(&near.dates, identity) || (lower.before(start) && start.before(&upper)
                && is_identity_of(start, identity) && !some_in_second(
                &near.exdates,
                start.timestamp(),
            ))
        },
        _ => false,
    }
}

/// What the recurrence text of an event gives around an occurrence. The clocks of the machine are
/// read twice: for the excluded dates and for the occurrences.
pub open spec fn neighbours_by(
    schedule: ScheduleView,
    recurrence: RecurrenceView,
    identity: RecurrenceIdView,
    exclusion_clocks: Seq<char>,
    clocks: Seq<char>,
) -> Option<Neighbours> {
    match (event_source(schedule, recurrence), window(window_target(identity))) {
        (Some(source), Some((lower, upper))) => match (
            rules::exdates_by(source, exclusion_clocks),
            rules::occurrences_by(source, lower@, upper@, u16::MAX, clocks),
        ) {
            (Some(exdates), Some(dates)) => Some(Neighbours { exdates, dates }),
            _ => None,
        },
        _ => None,
    }
}

/// What the recurrence text of an event that means the same by all clocks gives around an
/// occurrence.
pub open spec fn neighbours_of(
    schedule: ScheduleView,
    recurrence: RecurrenceView,
    identity: RecurrenceIdView,
) -> Option<Neighbours> {
    neighbours_by(schedule, recurrence, identity, rules::any_clocks(), rules::any_clocks())
}

/// Whether the text that the occurrences of an event are generated from says of each of its times
/// which zone it is in. The text of an all-day event does not: its start is read on the machine.
pub open spec fn is_zoned_event(schedule: ScheduleView, recurrence: RecurrenceView) -> bool {
    event_source(schedule, recurrence) matches Some(source) ==> rules::is_zoned(source)
}

/// Whether something is what the recurrence text of an event gives around an occurrence.
pub open spec fn are_neighbours(
    found: Option<Neighbours>,
    schedule: ScheduleView,
    recurrence: RecurrenceView,
    identity: RecurrenceIdView,
) -> bool {
    &&& is_zoned_event(schedule, recurrence) ==> found == neighbours_of(
        schedule,
        recurrence,
        identity,
    )
    &&& exists|exclusion_clocks: Seq<char>, clocks: Seq<char>|
        found == #[trigger] neighbours_by(
            schedule,
            recurrence,
            identity,
            exclusion_clocks,
            clocks,
        )
}

/// What the recurrence text of an event gives around an occurrence.
fn find_neighbours(schedule: &EventSchedule, recurrence: &RecurrenceSpec, identity: &RecurrenceId) -> (r:
    Option<Found>)
    ensures
        are_neighbours(found_view(r), schedule@, recurrence@, identity@),
{
    let ghost any = rules::any_clocks();
    let source = match make_event_source(schedule, recurrence) {
        Some(source) => source,
        None => {
            assert(neighbours_by(schedule@, recurrence@, identity@, any, any) is None);
            return None;
        },
    };
    let (lower, upper): (DateTime, DateTime) = match window_of(identity) {
        Some(bounds) => bounds,
        None => {
            assert(neighbours_by(schedule@, recurrence@, identity@, any, any) is None);
            return None;
        },
    };
    let exdates = rules::exdates(source.as_str());
    let dates = rules::occurrences(source.as_str(), &lower, &upper, u16::MAX);
    let ghost exclusion_clocks = choose|clocks: Seq<char>|
        rules::optional_views(exdates) == #[trigger] rules::exdates_by(source@, clocks);
    let ghost clocks = choose|clocks: Seq<char>|
        rules::optional_views(dates) == #[trigger] rules::occurrences_by(
            source@,
            lower@,
            upper@,
            u16::MAX,
            clocks,
        );
    let r = match (exdates, dates) {
        (Some(exdates), Some(dates)) => Some(Found { exdates, dates }),
        _ => None,
    };
    assert(found_view(r) == neighbours_by(
        schedule@,
        recurrence@,
        identity@,
        exclusion_clocks,
        clocks,
    ));
    r
}

/// Whether what the recurrence text of an event gives can hold an occurrence.
pub open spec fn may_generate(
    schedule: ScheduleView,
    recurrence: RecurrenceView,
    identity: RecurrenceIdView,
) -> bool {
    exists|found: Option<Neighbours>|
        #[trigger] are_neighbours(found, schedule, recurrence, identity) && is_generated(
            schedule,
            identity,
            found,
        )
}

/// Whether what the recurrence text of an event gives can lack an occurrence.
pub open spec fn may_leave_out(
    schedule: ScheduleView,
    recurrence: RecurrenceView,
    identity: RecurrenceIdView,
) -> bool {
    exists|found: Option<Neighbours>|
        #[trigger] are_neighbours(found, schedule, recurrence, identity) && !is_generated(
            schedule,
            identity,
            found,
        )
}

/// Whether it was found that an event generates an occurrence, or that it does not.
pub open spec fn is_finding(generated: bool, master: EventView, identity: RecurrenceIdView) -> bool {
    match master.recurrence {
        None => !generated,
        Some(recurrence) => if generated {
            may_generate(master.schedule, recurrence, identity)
        } else {
            may_leave_out(master.schedule, recurrence, identity)
        },
    }
}

/// Whether an event generates the occurrence that an identity names. Without a recurrence it
/// generates none.
pub fn occurrence_is_generated(master: &Event, identity: &RecurrenceId) -> (r: bool)
    ensures
        master.recurrence is None ==> !r,
        master.recurrence matches Some(recurrence) ==> (is_zoned_event(
            master@.schedule,
            recurrence@,
        ) ==> r == is_generated(
            master@.schedule,
            identity@,
            neighbours_of(master@.schedule, recurrence@, identity@),
        )),
        is_finding(r, master@, identity@),
{
    match &master.recurrence {
        None => {
            assert(master@.recurrence is None);
            false
        },
        Some(recurrence) => {
            let found = find_neighbours(&master.schedule, recurrence, identity);
            let ghost near = found_view(found);
            assert(master@.recurrence == Some(recurrence@));
            assert(are_neighbours(near, master@.schedule, recurrence@, identity@));
            let r = is_generated_among(&master.schedule, identity, &found);
            assert(r == is_generated(master@.schedule, identity@, near));
            r
        },
    }
}

/// Two identities mean the same occurrence where they name the same day; without a zone the same
/// instant; and in the same zone a moment at which its clocks show the same day and time. An identity
/// of a whole day never matches one with a time, nor one zone another.
pub proof fn law_identities_match_by_day_instant_or_clock(left: RecurrenceIdView, right: RecurrenceIdView)
    ensures
        match (left, right) {
            (RecurrenceIdView::AllDay(day), RecurrenceIdView::AllDay(other)) => identities_match(
                left,
                right,
            ) <==> day@ == other@,
            (
                RecurrenceIdView::Timed { date_time, timezone: None },
                RecurrenceIdView::Timed { date_time: other, timezone: None },
            ) => identities_match(left, right) <==> date_time@.seconds == other@.seconds
                && date_time@.nanos == other@.nanos,
            (
                RecurrenceIdView::Timed { date_time, timezone: Some(name) },
                RecurrenceIdView::Timed { date_time: other, timezone: Some(second) },
            ) => identities_match(left, right) <==> name == second && zone::zone_known(name) && ({
                let a = zone::shown_in(date_time@, name);
                let b = zone::shown_in(other@, name);
                a.seconds + a.offset == b.seconds + b.offset && a.nanos == b.nanos
            }),
            _ => !identities_match(left, right),
        },
{
}

/// On whole days an event generates the occurrence of a day exactly where its recurrence falls on it,
/// or it is the first day and is not left out. Nothing that cannot be looked up is generated.
pub proof fn law_generated_days(schedule: ScheduleView, identity: RecurrenceIdView, near: Neighbours)
    requires
        schedule is AllDay,
        window(window_target(identity)) is Some,
    ensures
        !is_generated(schedule, identity, None),
        identity is Timed ==> !is_generated(schedule, identity, Some(near)),
        identity matches RecurrenceIdView::AllDay(day) ==> (is_generated(
            schedule,
            identity,
            Some(near),
        ) <==> (exists|i: int|
            0 <= i < near.dates.len() && (#[trigger] near.dates[i]).local_day() == day@) || (
        schedule->start_date@ == day@ && forall|i: int|
            0 <= i < near.exdates.len() ==> (#[trigger] near.exdates[i]).local_day() != day@)),
{
}

/// With times an event generates the occurrence that an identity of its zone means exactly where its
/// recurrence has it, or it is the start, which is not left out.
pub proof fn law_generated_times(schedule: ScheduleView, identity: RecurrenceIdView, near: Neighbours)
    requires
        schedule is Timed,
        window(window_target(identity)) is Some,
    ensures
        !is_generated(schedule, identity, None),
        identity is AllDay ==> !is_generated(schedule, identity, Some(near)),
        identity is Timed && schedule->timezone != identity->timezone ==> !is_generated(
            schedule,
            identity,
            Some(near),
        ),
        identity is Timed && schedule->timezone is None && identity->timezone is None ==> {
            let target = identity->date_time@;
            let start = schedule->start@;
            let (lower, upper) = window(target)->0;
            is_generated(schedule, identity, Some(near)) <==> (exists|i: int|
                0 <= i < near.dates.len() && (#[trigger] near.dates[i]).same_instant(target)) || (
            start.same_instant(target) && lower@.before(start) && start.before(upper@) && forall|i: int|
                0 <= i < near.exdates.len() ==> (#[trigger] near.exdates[i]).seconds != start.seconds)
        },
{
    if identity is Timed && schedule->timezone is None && identity->timezone is None {
        let target = identity->date_time@;
        if exists|i: int| 0 <= i < near.dates.len() && (#[trigger] near.dates[i]).same_instant(target) {
            let i = choose|i: int|
                0 <= i < near.dates.len() && (#[trigger] near.dates[i]).same_instant(target);
            assert(occurrence_is_identity(near.dates[i], identity));
        }
        if some_is_identity(near.dates, identity) {
            let i = choose|i: int|
                0 <= i < near.dates.len() && occurrence_is_identity(#[trigger] near.dates[i], identity);
            assert(near.dates[i].same_instant(target));
        }
    }
}

/// The text that occurrences are generated from has the start of the event on its first line, and then
/// one line each for its rules, its added dates and its excluded dates.
pub proof fn law_lines_of_the_source(schedule: ScheduleView, recurrence: RecurrenceView)
    requires
        event_source(schedule, recurrence) is Some,
        forall|i: int| 0 <= i < recurrence.rrule.len() ==> !(#[trigger] recurrence.rrule[i]).contains(
            '\n',
        ),
        forall|i: int| 0 <= i < recurrence.rdate.len() ==> !(#[trigger] recurrence.rdate[i]).contains(
            '\n',
        ),
        forall|i: int|
            0 <= i < recurrence.exdate.len() ==> !(#[trigger] recurrence.exdate[i]).contains('\n'),
    ensures
        ({
            let start = match schedule {
                ScheduleView::AllDay { start_date, .. } => "DTSTART;VALUE=DATE:"@
                    + formats::compact_date(start_date@),
                ScheduleView::Timed { start, timezone: None, .. } => "DTSTART:"@
                    + formats::compact_utc(start@),
                ScheduleView::Timed { start, timezone: Some(name), .. } => "DTSTART;TZID="@ + name
                    + ":"@ + formats::compact_local(zone::shown_in(start@, name)),
            };
            !start.contains('\n') ==> text::split(event_source(schedule, recurrence)->0, '\n')
                == seq![start] + recurrence.rrule + recurrence.rdate + recurrence.exdate
        }),
{
    reveal_strlit(":");
    assert(":"@ =~= seq![':']);
    let start = match schedule {
        ScheduleView::AllDay { start_date, .. } => "DTSTART;VALUE=DATE:"@ + formats::compact_date(
            start_date@,
        ),
        ScheduleView::Timed { start, timezone: None, .. } => "DTSTART:"@ + formats::compact_utc(start@),
        ScheduleView::Timed { start, timezone: Some(name), .. } => "DTSTART;TZID="@ + name + ":"@
            + formats::compact_local(zone::shown_in(start@, name)),
    };
    let lines = seq![start] + recurrence_lines(recurrence);
    assert(lines =~= seq![start] + recurrence.rrule + recurrence.rdate + recurrence.exdate);
    let a = recurrence.rrule.len();
    let b = recurrence.rdate.len();
    if !start.contains('\n') {
        assert forall|i: int| #![trigger lines[i]] 0 <= i < lines.len() implies !lines[i].contains(
            '\n',
        ) by {
            if i == 0 {
            } else if i < 1 + a {
                assert(lines[i] == recurrence.rrule[i - 1]);
            } else if i < 1 + a + b {
                assert(lines[i] == recurrence.rdate[i - 1 - a]);
            } else {
                assert(lines[i] == recurrence.exdate[i - 1 - a - b]);
            }
        }
        text::lemma_split_of_join(lines, '\n');
    }
}

/// An event in a zone that is not known has no such text; any other has.
pub proof fn law_source_is_there(schedule: ScheduleView, recurrence: RecurrenceView)
    ensures
        event_source(schedule, recurrence) is None <==> (schedule matches ScheduleView::Timed {
            timezone: Some(name),
            ..
        } && !zone::zone_known(name)),
{
}

/// Exceptions with one identity are not distinct, and neither is a list that holds the same twice; an
/// exception on a whole day and one with a time are, and so are ones in different zones.
pub proof fn law_distinct_exceptions(a: DetachedView, b: DetachedView)
    ensures
        a.identity() == b.identity() ==> !are_distinct(seq![a, b]),
        a.identity() is AllDay && b.identity() is Timed ==> are_distinct(seq![a, b]),
        a.identity() is Timed && b.identity() is Timed && a.identity()->timezone
            != b.identity()->timezone ==> are_distinct(seq![a, b]),
        a.identity() is Timed && b.identity() is Timed && formats::rfc3339_of(
            a.identity()->date_time@,
        ) != formats::rfc3339_of(b.identity()->date_time@) ==> are_distinct(seq![a, b]),
        are_distinct(seq![a]),
        are_distinct(seq![]),
{
    reveal_strlit("all_day");
    reveal_strlit("timed");
    assert("all_day"@.len() == 7 && "timed"@.len() == 5);
    let both = seq![a, b];
    assert(both[0] == a && both[1] == b);
    if a.identity() == b.identity() {
        assert(identity_key(both[0]) == identity_key(both[1]));
    }
}

/// Whether an occurrence is generated is told from all the dates of the rule within its window, and the
/// dates that are left out.
pub proof fn law_dates_around_an_occurrence(
    schedule: ScheduleView,
    recurrence: RecurrenceView,
    identity: RecurrenceIdView,
    exclusion_clocks: Seq<char>,
    clocks: Seq<char>,
    source: Seq<char>,
    bounds: (DateTime, DateTime),
)
    requires
        event_source(schedule, recurrence) == Some(source),
        window(window_target(identity)) == Some(bounds),
    ensures
        neighbours_by(schedule, recurrence, identity, exclusion_clocks, clocks) matches Some(found) ==> {
            &&& rules::occurrences_by(source, bounds.0@, bounds.1@, 65535, clocks) == Some(found.dates)
            &&& rules::exdates_by(source, exclusion_clocks) == Some(found.exdates)
        },
        neighbours_by(schedule, recurrence, identity, exclusion_clocks, clocks) is None ==> !(
        rules::rule_set_valid(source, clocks) && rules::rule_set_valid(source, exclusion_clocks)),
{
}

/// An event that does not repeat generates nothing; of one that repeats it is said that an occurrence is
/// generated only where the dates around it show it, and that it is not only where they do not.
pub proof fn law_findings_follow_the_dates(generated: bool, master: EventView, identity: RecurrenceIdView)
    requires
        is_finding(generated, master, identity),
    ensures
        master.recurrence is None ==> !generated,
        master.recurrence matches Some(recurrence) ==> exists|found: Option<Neighbours>|
            #[trigger] are_neighbours(found, master.schedule, recurrence, identity) && generated
                == is_generated(master.schedule, identity, found),
{
}

} // verus!
