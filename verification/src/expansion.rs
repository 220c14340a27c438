//! The occurrences of events between two days.
use chrono::{Offset, TimeZone};
use vstd::prelude::*;

use crate::backend::caldav::mapping;
use crate::backend::occurrences;
use crate::date;
use crate::date::{Date, DateTime, DateTimeView, Span, Time};
use crate::lists;
use crate::model;
use crate::model::{DetachedEvent, DetachedView, Event, EventSchedule, EventView, RecurrenceId, RecurrenceIdView, RecurrenceSpec, RecurrenceView, ScheduleView};
use crate::recurrence_split;
use crate::rules;
use crate::zone;

verus! {

/// The most occurrences of an event that are shown.
pub const RECURRENCE_LIMIT: u16 = 4096;

// ---------------------------------------------------------------------------------------------
// Bounds
// ---------------------------------------------------------------------------------------------

/// The one instant at which given clocks show midnight of a day, in seconds, with their offset, as
/// `chrono::TimeZone::with_ymd_and_hms` and `single` find it for `rrule::Tz::LOCAL`.
pub uninterp spec fn local_midnight(day: int, clocks: Seq<char>) -> Option<(i64, i32)>;

/// `chrono::TimeZone::with_ymd_and_hms` of `rrule::Tz::LOCAL` at midnight, and `single` of what it
/// returns: the one instant at which the clocks of the machine show midnight of the day, with their
/// offset; none where there is no such instant or more than one. It depends on the day and the clocks
/// of the machine.
#[verifier::external_body]
fn chrono_local_midnight(day: &Date) -> (r: Option<(i64, i32)>)
    ensures
        exists|clocks: Seq<char>| r == #[trigger] local_midnight(day@, clocks),
        r matches Some((seconds, offset)) ==> date::is_offset(offset as int) && seconds + offset
            == date::day_start(day@),
{
    let (year, month, day) = day.ymd();
    let midnight = rrule::Tz::LOCAL.with_ymd_and_hms(year, month, day, 0, 0, 0).single()?;
    Some((midnight.timestamp(), midnight.offset().fix().local_minus_utc()))
}

/// Midnight of a day in the zone of an event with a start and an end: in UTC where it has none. None
/// where the clocks show it not once.
pub open spec fn zone_midnight(timezone: Option<Seq<char>>, day: int) -> Option<DateTimeView> {
    match timezone {
        None => if recurrence_split::midnight(day).valid() {
            Some(recurrence_split::midnight(day))
        } else {
            None
        },
        Some(name) => if zone::zone_known(name) {
            zone::local_instant(name, day, Time { seconds: 0, nanos: 0 })
        } else {
            None
        },
    }
}

/// Midnight of a day in the zone of an event: on the clocks of the machine for one on whole days.
fn bound_datetime(schedule: &EventSchedule, day: &Date) -> (r: Option<DateTime>)
    ensures
        exists|clocks: Seq<char>| lists::view_of(r) == #[trigger] bound_by(schedule@, day@, clocks),
        schedule@ is Timed ==> lists::view_of(r) == bound_by(schedule@, day@, rules::any_clocks()),
{
    match schedule {
        EventSchedule::AllDay { .. } => {
            let found = chrono_local_midnight(day);
            let ghost clocks = choose|clocks: Seq<char>|
                found == #[trigger] local_midnight(day@, clocks);
            let r = match found {
                Some((seconds, offset)) => DateTime::new(seconds, 0, offset),
                None => None,
            };
            assert(lists::view_of(r) == bound_by(schedule@, day@, clocks));
            r
        },
        EventSchedule::Timed { timezone, .. } => {
            let r = match timezone {
                None => recurrence_split::midnight_of(day),
                Some(name) => zone::instant_in_zone(
                    name.as_str(),
                    day,
                    Time { seconds: 0, nanos: 0 },
                ),
            };
            assert(lists::view_of(r) == bound_by(schedule@, day@, rules::any_clocks()));
            r
        },
    }
}

/// A length of time backwards.
pub open spec fn negated(span: Span) -> Span {
    if span.nanos == 0 {
        Span { seconds: (-span.seconds) as i64, nanos: 0 }
    } else {
        Span { seconds: (-span.seconds - 1) as i64, nanos: (1000000000 - span.nanos) as u32 }
    }
}

/// Whether a length of time and its reverse are within bounds.
pub open spec fn is_reversible(span: Span) -> bool {
    span.valid() && negated(span).valid()
}

/// The instant a length of time, and a second more, before another; none where it is not
/// representable.
pub open spec fn lead_in(bound: DateTime, length: Span) -> Option<DateTime> {
    if is_reversible(length) {
        match date::later(bound, negated(length)) {
            Some(earlier) => date::later(earlier, recurrence_split::minus_one_second()),
            None => None,
        }
    } else {
        None
    }
}

/// The instant a length of time, and a second more, before another.
pub fn make_lead_in(bound: &DateTime, length: Span) -> (r: Option<DateTime>)
    requires
        length.valid(),
    ensures
        r == lead_in(*bound, length),
{
    let back = if length.nanos == 0 {
        Span { seconds: -length.seconds, nanos: 0 }
    } else {
        Span { seconds: -length.seconds - 1, nanos: 1000000000 - length.nanos }
    };
    assert(back == negated(length));
    if back.seconds < -date::MAX_SPAN_SECONDS {
        return None;
    }
    match bound.plus(back) {
        Some(earlier) => earlier.plus(Span { seconds: -1, nanos: 0 }),
        None => None,
    }
}

/// How long an event lasts.
pub open spec fn length_of(schedule: ScheduleView) -> Span {
    match schedule {
        ScheduleView::AllDay { start_date, end_date_exclusive } => Span {
            seconds: ((end_date_exclusive@ - start_date@) * date::DAY_SECONDS) as i64,
            nanos: 0,
        },
        ScheduleView::Timed { start, end, .. } => date::span_between(start, end),
    }
}

/// How long an event lasts.
pub fn make_length(schedule: &EventSchedule) -> (r: Span)
    ensures
        r == length_of(schedule@),
        r.valid(),
{
    match schedule {
        EventSchedule::AllDay { start_date, end_date_exclusive } => {
            let days: i64 = end_date_exclusive.days() as i64 - start_date.days() as i64;
            Span { seconds: days * date::DAY_SECONDS, nanos: 0 }
        },
        EventSchedule::Timed { start, end, .. } => end.since(start),
    }
}

// ---------------------------------------------------------------------------------------------
// Occurrences
// ---------------------------------------------------------------------------------------------

/// The text that the occurrences of an event are generated from: whole days begin at midnight.
pub open spec fn recurrence_source(schedule: ScheduleView, recurrence: RecurrenceView) -> Option<
    Seq<char>,
> {
    match mapping::start_line(schedule) {
        Some(line) => Some(occurrences::source_text(line, recurrence)),
        None => None,
    }
}

/// The text that the occurrences of an event are generated from.
pub fn make_recurrence_source(schedule: &EventSchedule, recurrence: &RecurrenceSpec) -> (r: Option<String>)
    ensures
        model::text_view(r) == recurrence_source(schedule@, recurrence@),
{
    match mapping::recurrence_dtstart(schedule) {
        Some(line) => Some(occurrences::make_source(line, recurrence)),
        None => None,
    }
}

/// An event at one of its occurrences, where that is representable: without a recurrence, and as
/// long as the event.
pub open spec fn occurrence_event(event: EventView, occurrence: DateTimeView) -> Option<EventView> {
    match recurrence_split::schedule_at(event.schedule, occurrence) {
        Some(schedule) => Some(EventView { schedule, recurrence: None, ..event }),
        None => None,
    }
}

/// An event at those of its occurrences that are representable.
pub open spec fn occurrence_events(event: EventView, dates: Seq<DateTimeView>) -> Seq<EventView>
    decreases dates.len(),
{
    if dates.len() == 0 {
        seq![]
    } else {
        let before = occurrence_events(event, dates.drop_last());
        match occurrence_event(event, dates.last()) {
            Some(occurrence) => before.push(occurrence),
            None => before,
        }
    }
}

/// What an event shows: its occurrences, by what its recurrence gives, and itself where it has none
/// that can be read.
pub open spec fn expanded(event: EventView, found: Option<Seq<DateTimeView>>) -> Seq<EventView> {
    match (event.recurrence, found) {
        (Some(_), Some(dates)) => occurrence_events(event, dates),
        _ => seq![event],
    }
}

/// An event at one of its occurrences.
pub fn make_occurrence_event(event: &Event, occurrence: &DateTime) -> (r: Option<Event>)
    ensures
        lists::view_of(r) == occurrence_event(event@, occurrence@),
{
    match recurrence_split::schedule_at_occurrence(&event.schedule, occurrence) {
        Some(schedule) => Some(
            Event {
                id: event.id,
                calendar_id: event.calendar_id,
                title: event.title.clone(),
                location: event.location.clone(),
                description: event.description.clone(),
                schedule,
                recurrence: None,
                reminders: model::copy_reminders(&event.reminders),
            },
        ),
        None => None,
    }
}

/// What an event shows, by what its recurrence gives.
pub fn expand_given(event: &Event, found: &Option<Vec<DateTime>>) -> (r: Vec<Event>)
    ensures
        lists::views_of(r@) == expanded(event@, instants_view(*found)),
{
    let mut out: Vec<Event> = Vec::new();
    let dates = match (&event.recurrence, found) {
        (Some(_), Some(dates)) => dates,
        _ => {
            out.push(event.clone());
            assert(lists::views_of(out@) =~= seq![event@]);
            return out;
        },
    };
    let ghost all = lists::views_of(dates@);
    assert(lists::views_of(out@) =~= occurrence_events(event@, all.take(0)));
    for i in 0..dates.len()
        invariant
            all == lists::views_of(dates@),
            lists::views_of(out@) == occurrence_events(event@, all.take(i as int)),
    {
        let ghost before = out@;
        proof {
            lists::lemma_views_take(dates@, i as int);
        }
        if let Some(occurrence) = make_occurrence_event(event, &dates[i]) {
            out.push(occurrence);
            proof {
                lists::lemma_views_push(before, occurrence);
            }
        }
    }
    proof {
        lists::lemma_views_all(dates@);
    }
    out
}

/// The values of an optional list of instants.
pub open spec fn instants_view(r: Option<Vec<DateTime>>) -> Option<Seq<DateTimeView>> {
    match r {
        Some(instants) => Some(lists::views_of(instants@)),
        None => None,
    }
}

/// Midnight of a day in the zone of an event: on the clocks of a machine for one on whole days.
pub open spec fn bound_by(schedule: ScheduleView, day: int, clocks: Seq<char>) -> Option<DateTimeView> {
    match schedule {
        ScheduleView::AllDay { .. } => match local_midnight(day, clocks) {
            Some((seconds, offset)) => {
                let v = DateTimeView { seconds: seconds as int, nanos: 0, offset: offset as int };
                if v.valid() {
                    Some(v)
                } else {
                    None
                }
            },
            None => None,
        },
        ScheduleView::Timed { timezone, .. } => zone_midnight(timezone, day),
    }
}

/// What the recurrence of an event gives from one day to another: from its length and a second before
/// the first, up to the end of the last. The clocks of the machine are read up to three times: for
/// the two bounds and for the occurrences.
pub open spec fn dates_by(
    event: EventView,
    first: int,
    last: int,
    from_clocks: Seq<char>,
    upper_clocks: Seq<char>,
    clocks: Seq<char>,
) -> Option<Seq<DateTimeView>> {
    match event.recurrence {
        Some(recurrence) => match (
            recurrence_source(event.schedule, recurrence),
            bound_by(event.schedule, first, from_clocks),
            bound_by(event.schedule, last + 1, upper_clocks),
        ) {
            (Some(source), Some(from), Some(upper)) => if date::is_day(last + 1) {
                match lead_in(date::date_time_of(from), length_of(event.schedule)) {
                    Some(lower) => rules::occurrences_by(
                        source,
                        lower@,
                        upper,
                        RECURRENCE_LIMIT,
                        clocks,
                    ),
                    None => None,
                }
            } else {
                None
            },
            _ => None,
        },
        None => None,
    }
}

/// What the recurrence of an event that means the same by all clocks gives from one day to another.
pub open spec fn dates_between(event: EventView, first: int, last: int) -> Option<Seq<DateTimeView>> {
    dates_by(event, first, last, rules::any_clocks(), rules::any_clocks(), rules::any_clocks())
}

/// Whether what an event shows depends on its values alone: it has no recurrence, or one that says
/// of each of its times which zone it is in. One on whole days is read on the machine.
pub open spec fn is_zoned_event(event: EventView) -> bool {
    event.recurrence matches Some(recurrence) ==> event.schedule is Timed && (recurrence_source(
        event.schedule,
        recurrence,
    ) matches Some(source) ==> rules::is_zoned(source))
}

/// Whether some dates are what the recurrence of an event gives from one day to another.
pub open spec fn are_dates(dates: Option<Seq<DateTimeView>>, event: EventView, first: int, last: int) -> bool {
    &&& is_zoned_event(event) ==> dates == dates_between(event, first, last)
    &&& exists|from_clocks: Seq<char>, upper_clocks: Seq<char>, clocks: Seq<char>|
        dates == #[trigger] dates_by(event, first, last, from_clocks, upper_clocks, clocks)
}

/// What the recurrence of an event gives from one day to another.
fn find_dates(event: &Event, first: &Date, last: &Date) -> (r: Option<Vec<DateTime>>)
    ensures
        are_dates(instants_view(r), event@, first@, last@),
{
    let ghost any = rules::any_clocks();
    let recurrence = match &event.recurrence {
        Some(recurrence) => recurrence,
        None => {
            assert(dates_by(event@, first@, last@, any, any, any) is None);
            return None;
        },
    };
    let source = match make_recurrence_source(&event.schedule, recurrence) {
        Some(source) => source,
        None => {
            assert(dates_by(event@, first@, last@, any, any, any) is None);
            return None;
        },
    };
    let after_last = match last.succ_opt() {
        Some(day) => day,
        None => {
            assert(dates_by(event@, first@, last@, any, any, any) is None);
            return None;
        },
    };
    let from = bound_datetime(&event.schedule, first);
    let ghost from_clocks = if event@.schedule is Timed {
        any
    } else {
        choose|clocks: Seq<char>|
            lists::view_of(from) == #[trigger] bound_by(event@.schedule, first@, clocks)
    };
    let from = match from {
        Some(from) => from,
        None => {
            assert(dates_by(event@, first@, last@, from_clocks, any, any) is None);
            return None;
        },
    };
    let upper = bound_datetime(&event.schedule, &after_last);
    let ghost upper_clocks = if event@.schedule is Timed {
        any
    } else {
        choose|clocks: Seq<char>|
            lists::view_of(upper) == #[trigger] bound_by(event@.schedule, last@ + 1, clocks)
    };
    let upper = match upper {
        Some(upper) => upper,
        None => {
            assert(dates_by(event@, first@, last@, from_clocks, upper_clocks, any) is None);
            return None;
        },
    };
    proof {
        date::lemma_date_time_of_view(from);
    }
    let length = make_length(&event.schedule);
    let lower = match make_lead_in(&from, length) {
        Some(lower) => lower,
        None => {
            assert(dates_by(event@, first@, last@, from_clocks, upper_clocks, any) is None);
            return None;
        },
    };
    let r = rules::occurrences(source.as_str(), &lower, &upper, RECURRENCE_LIMIT);
    let ghost clocks = if is_zoned_event(event@) {
        any
    } else {
        choose|clocks: Seq<char>|
            rules::optional_views(r) == #[trigger] rules::occurrences_by(
                source@,
                lower@,
                upper@,
                RECURRENCE_LIMIT,
                clocks,
            )
    };
    proof {
        if r is Some {
            assert(rules::instant_views(r->0@) =~= lists::views_of(r->0@));
        }
        assert(instants_view(r) == rules::optional_views(r));
        assert(instants_view(r) == dates_by(
            event@,
            first@,
            last@,
            from_clocks,
            upper_clocks,
            clocks,
        ));
    }
    r
}

/// Whether a list is what an event shows from one day to another.
pub open spec fn is_expansion(list: Seq<EventView>, event: EventView, first: int, last: int) -> bool {
    exists|dates: Option<Seq<DateTimeView>>|
        #[trigger] are_dates(dates, event, first, last) && list == expanded(event, dates)
}

/// What an event shows from one day to another.
pub fn expand_event(event: &Event, first: &Date, last: &Date) -> (r: Vec<Event>)
    ensures
        is_expansion(lists::views_of(r@), event@, first@, last@),
{
    let found = find_dates(event, first, last);
    let r = expand_given(event, &found);
    assert(are_dates(instants_view(found), event@, first@, last@));
    assert(lists::views_of(r@) == expanded(event@, instants_view(found)));
    r
}

/// Whatever its recurrence gives, what an event shows keeps its identifier, its calendar and its
/// texts.
pub proof fn law_occurrences_keep_the_event(event: EventView, found: Option<Seq<DateTimeView>>)
    ensures
        forall|i: int|
            0 <= i < expanded(event, found).len() ==> is_occurrence(
                #[trigger] expanded(event, found)[i],
                event,
            ),
{
    if event.recurrence is Some && found is Some {
        lemma_occurrences_keep_the_event(event, found->0);
    }
}

/// Whether an event is an occurrence of another: the same but for its schedule and recurrence.
pub open spec fn is_occurrence(occurrence: EventView, event: EventView) -> bool {
    occurrence == (EventView {
        schedule: occurrence.schedule,
        recurrence: occurrence.recurrence,
        ..event
    })
}

proof fn lemma_occurrences_keep_the_event(event: EventView, dates: Seq<DateTimeView>)
    ensures
        forall|i: int|
            0 <= i < occurrence_events(event, dates).len() ==> is_occurrence(
                #[trigger] occurrence_events(event, dates)[i],
                event,
            ) && occurrence_events(event, dates)[i].recurrence is None,
    decreases dates.len(),
{
    if dates.len() > 0 {
        lemma_occurrences_keep_the_event(event, dates.drop_last());
        let before = occurrence_events(event, dates.drop_last());
        let out = occurrence_events(event, dates);
        assert forall|i: int| 0 <= i < out.len() implies is_occurrence(#[trigger] out[i], event)
            && out[i].recurrence is None by {
            if i < before.len() {
                assert(out[i] == before[i]);
            }
        }
    }
}

// ---------------------------------------------------------------------------------------------
// Identities
// ---------------------------------------------------------------------------------------------

/// The identity of an occurrence that an event generated; none where it generated none.
pub open spec fn identity_of(master: EventView, occurrence: EventView) -> Option<RecurrenceIdView> {
    if master.recurrence is None || occurrence.recurrence is Some {
        None
    } else {
        match (master.schedule, occurrence.schedule) {
            (ScheduleView::AllDay { .. }, ScheduleView::AllDay { start_date, .. }) => Some(
                RecurrenceIdView::AllDay(start_date),
            ),
            (ScheduleView::Timed { timezone, .. }, ScheduleView::Timed { start, .. }) => Some(
                RecurrenceIdView::Timed { date_time: start, timezone },
            ),
            _ => None,
        }
    }
}

/// The identity of an occurrence that an event generated.
pub fn recurrence_id_for_generated_occurrence(master: &Event, occurrence: &Event) -> (r: Option<
    RecurrenceId,
>)
    ensures
        lists::view_of(r) == identity_of(master@, occurrence@),
{
    if master.recurrence.is_none() || occurrence.recurrence.is_some() {
        return None;
    }
    match (&master.schedule, &occurrence.schedule) {
        (EventSchedule::AllDay { .. }, EventSchedule::AllDay { start_date, .. }) => Some(
            RecurrenceId::AllDay(*start_date),
        ),
        (EventSchedule::Timed { timezone, .. }, EventSchedule::Timed { start, .. }) => Some(
            RecurrenceId::Timed { date_time: *start, timezone: model::copy_text(timezone) },
        ),
        _ => None,
    }
}

/// The day that an identity of an event names in the zone of the event.
pub open spec fn identity_day(master: ScheduleView, identity: RecurrenceIdView) -> Option<int> {
    match (master, identity) {
        (ScheduleView::AllDay { .. }, RecurrenceIdView::AllDay(day)) => Some(day@),
        (
            ScheduleView::Timed { timezone, .. },
            RecurrenceIdView::Timed { date_time, timezone: other },
        ) => if timezone != other {
            None
        } else {
            match timezone {
                Some(name) => if zone::zone_known(name) {
                    Some(zone::shown_in(date_time@, name).local_day())
                } else {
                    None
                },
                None => Some(date_time@.at_offset(0).local_day()),
            }
        },
        _ => None,
    }
}

/// The day that an identity of an event names in the zone of the event.
pub fn recurrence_id_date(master: &EventSchedule, identity: &RecurrenceId) -> (r: Option<Date>)
    ensures
        match r {
            Some(day) => identity_day(master@, identity@) == Some(day@),
            None => identity_day(master@, identity@) is None,
        },
{
    match (master, identity) {
        (EventSchedule::AllDay { .. }, RecurrenceId::AllDay(day)) => Some(*day),
        (
            EventSchedule::Timed { timezone, .. },
            RecurrenceId::Timed { date_time, timezone: other },
        ) => {
            if !model::same_optional_text(timezone, other) {
                return None;
            }
            match timezone {
                Some(name) => match zone::in_zone(date_time, name.as_str()) {
                    Some(shown) => Some(shown.local_date()),
                    None => None,
                },
                None => Some(date_time.with_offset(0).local_date()),
            }
        },
        _ => None,
    }
}

/// Whether an identity names the occurrence of an event with a schedule.
pub open spec fn names(master: ScheduleView, occurrence: ScheduleView, identity: RecurrenceIdView) -> bool {
    match (master, occurrence, identity) {
        (
            ScheduleView::AllDay { .. },
            ScheduleView::AllDay { start_date, .. },
            RecurrenceIdView::AllDay(day),
        ) => start_date@ == day@,
        (
            ScheduleView::Timed { timezone, .. },
            ScheduleView::Timed { start, .. },
            RecurrenceIdView::Timed { date_time, timezone: other },
        ) => timezone == other && match timezone {
            Some(name) => zone::zone_known(name) && recurrence_split::same_clock(
                zone::shown_in(start@, name),
                zone::shown_in(date_time@, name),
            ),
            None => start@.same_instant(date_time@),
        },
        _ => false,
    }
}

/// Whether an identity names the occurrence of an event with a schedule.
pub fn recurrence_id_matches(master: &EventSchedule, occurrence: &EventSchedule, identity: &RecurrenceId) -> (r:
    bool)
    ensures
        r == names(master@, occurrence@, identity@),
{
    match (master, occurrence, identity) {
        (
            EventSchedule::AllDay { .. },
            EventSchedule::AllDay { start_date, .. },
            RecurrenceId::AllDay(day),
        ) => start_date.same(day),
        (
            EventSchedule::Timed { timezone, .. },
            EventSchedule::Timed { start, .. },
            RecurrenceId::Timed { date_time, timezone: other },
        ) => {
            if !model::same_optional_text(timezone, other) {
                return false;
            }
            match timezone {
                Some(name) => match (
                    zone::in_zone(start, name.as_str()),
                    zone::in_zone(date_time, name.as_str()),
                ) {
                    (Some(left), Some(right)) => left.local_date().same(&right.local_date())
                        && left.local_time() == right.local_time(),
                    _ => false,
                },
                None => start.same_instant(date_time),
            }
        },
        _ => false,
    }
}

/// An occurrence carries the identity that names it.
pub proof fn law_identity_names_its_occurrence(master: EventView, occurrence: EventView)
    requires
        identity_of(master, occurrence) is Some,
        master.schedule matches ScheduleView::Timed { timezone: Some(name), .. } ==> zone::zone_known(
            name,
        ),
    ensures
        names(master.schedule, occurrence.schedule, identity_of(master, occurrence)->0),
{
}

/// The first event of a list without a recurrence that an identity names.
pub open spec fn first_named(
    master: ScheduleView,
    list: Seq<EventView>,
    identity: RecurrenceIdView,
) -> Option<EventView>
    decreases list.len(),
{
    if list.len() == 0 {
        None
    } else if list[0].recurrence is None && names(master, list[0].schedule, identity) {
        Some(list[0])
    } else {
        first_named(master, list.drop_first(), identity)
    }
}

/// The first event of a list without a recurrence that an identity names.
fn find_named(master: &EventSchedule, list: &Vec<Event>, identity: &RecurrenceId) -> (r: Option<Event>)
    ensures
        lists::view_of(r) == first_named(master@, lists::views_of(list@), identity@),
{
    let ghost all = lists::views_of(list@);
    assert(all.skip(0) =~= all);
    for i in 0..list.len()
        invariant
            all == lists::views_of(list@),
            first_named(master@, all, identity@) == first_named(
                master@,
                all.skip(i as int),
                identity@,
            ),
    {
        proof {
            assert(all.skip(i as int)[0] == list@[i as int]@);
            assert(all.skip(i as int).drop_first() =~= all.skip(i + 1));
        }
        if list[i].recurrence.is_none() && recurrence_id_matches(master, &list[i].schedule, identity) {
            return Some(list[i].clone());
        }
    }
    None
}

/// The occurrence of an event that an identity names, by what the event shows on the day of the
/// identity.
pub open spec fn generated(master: EventView, identity: RecurrenceIdView, shown: Seq<EventView>) -> Option<
    EventView,
> {
    if master.recurrence is None || identity_day(master.schedule, identity) is None {
        None
    } else {
        first_named(master.schedule, shown, identity)
    }
}

/// Whether an event is what an identity of another names.
pub open spec fn is_generated(
    occurrence: Option<EventView>,
    master: EventView,
    identity: RecurrenceIdView,
) -> bool {
    match identity_day(master.schedule, identity) {
        None => occurrence is None,
        Some(day) => exists|shown: Seq<EventView>|
            #[trigger] is_expansion(shown, master, day, day) && occurrence == generated(
                master,
                identity,
                shown,
            ),
    }
}

/// The occurrence of an event that an identity names.
pub fn generated_occurrence_for_recurrence_id(master: &Event, identity: &RecurrenceId) -> (r: Option<
    Event,
>)
    ensures
        is_generated(lists::view_of(r), master@, identity@),
{
    let day = match recurrence_id_date(&master.schedule, identity) {
        Some(day) => day,
        None => {
            return None;
        },
    };
    let shown = expand_event(master, &day, &day);
    let ghost views = lists::views_of(shown@);
    let r = if master.recurrence.is_none() {
        None
    } else {
        find_named(&master.schedule, &shown, identity)
    };
    assert(lists::view_of(r) == generated(master@, identity@, views)) by {
        reveal_with_fuel(first_named, 1);
    }
    proof {
        lemma_is_generated(lists::view_of(r), master@, identity@, day@, views);
    }
    r
}

proof fn lemma_is_generated(
    occurrence: Option<EventView>,
    master: EventView,
    identity: RecurrenceIdView,
    day: int,
    shown: Seq<EventView>,
)
    requires
        identity_day(master.schedule, identity) == Some(day),
        is_expansion(shown, master, day, day),
        occurrence == generated(master, identity, shown),
    ensures
        is_generated(occurrence, master, identity),
{
    let named = identity_day(master.schedule, identity)->0;
    assert(is_expansion(shown, master, named, named));
    assert(exists|shown: Seq<EventView>|
        #[trigger] is_expansion(shown, master, named, named) && occurrence == generated(
            master,
            identity,
            shown,
        ));
}

// ---------------------------------------------------------------------------------------------
// Changed occurrences
// ---------------------------------------------------------------------------------------------

/// An event as a change of one of its occurrences describes it.
pub open spec fn changed_event(master: EventView, detached: DetachedView) -> Option<EventView> {
    match detached {
        DetachedView::Modified { title, location, description, schedule, reminders, .. } => Some(
            EventView {
                id: master.id,
                calendar_id: master.calendar_id,
                title,
                location,
                description,
                schedule,
                recurrence: None,
                reminders,
            },
        ),
        DetachedView::Cancelled { .. } => None,
    }
}

/// An event as a change of one of its occurrences describes it.
fn make_changed_event(master: &Event, detached: &DetachedEvent) -> (r: Option<Event>)
    ensures
        lists::view_of(r) == changed_event(master@, detached@),
{
    match detached {
        DetachedEvent::Modified { title, location, description, schedule, reminders, .. } => Some(
            Event {
                id: master.id,
                calendar_id: master.calendar_id,
                title: title.clone(),
                location: location.clone(),
                description: description.clone(),
                schedule: schedule.clone(),
                recurrence: None,
                reminders: model::copy_reminders(reminders),
            },
        ),
        DetachedEvent::Cancelled { .. } => None,
    }
}

/// The first change that names an occurrence.
pub open spec fn first_change(master: ScheduleView, occurrence: ScheduleView, detached: Seq<DetachedView>) -> Option<
    DetachedView,
>
    decreases detached.len(),
{
    if detached.len() == 0 {
        None
    } else if names(master, occurrence, detached[0].identity()) {
        Some(detached[0])
    } else {
        first_change(master, occurrence, detached.drop_first())
    }
}

/// Where the first change that names an occurrence stands.
fn find_change(master: &EventSchedule, occurrence: &EventSchedule, detached: &Vec<DetachedEvent>) -> (r:
    Option<usize>)
    ensures
        match r {
            Some(i) => i < detached@.len() && first_change(
                master@,
                occurrence@,
                lists::views_of(detached@),
            ) == Some(detached@[i as int]@),
            None => first_change(master@, occurrence@, lists::views_of(detached@)) is None,
        },
{
    let ghost all = lists::views_of(detached@);
    assert(all.skip(0) =~= all);
    for i in 0..detached.len()
        invariant
            all == lists::views_of(detached@),
            first_change(master@, occurrence@, all) == first_change(
                master@,
                occurrence@,
                all.skip(i as int),
            ),
    {
        proof {
            assert(all.skip(i as int)[0] == detached@[i as int]@);
            assert(all.skip(i as int).drop_first() =~= all.skip(i + 1));
        }
        if recurrence_id_matches(master, occurrence, detached[i].identity()) {
            return Some(i);
        }
    }
    None
}

/// An occurrence of an event with the change that was made to it; none where it was cancelled, or
/// there is no such occurrence.
pub open spec fn resolved(
    master: EventView,
    detached: Seq<DetachedView>,
    occurrence: Option<EventView>,
) -> Option<EventView> {
    match occurrence {
        None => None,
        Some(occurrence) => match first_change(master.schedule, occurrence.schedule, detached) {
            Some(change) => changed_event(master, change),
            None => Some(occurrence),
        },
    }
}

/// An occurrence of an event with the change that was made to it.
pub fn resolve_given(master: &Event, detached: &Vec<DetachedEvent>, occurrence: Option<Event>) -> (r: Option<
    Event,
>)
    ensures
        lists::view_of(r) == resolved(
            master@,
            lists::views_of(detached@),
            lists::view_of(occurrence),
        ),
{
    match occurrence {
        None => None,
        Some(occurrence) => match find_change(&master.schedule, &occurrence.schedule, detached) {
            Some(i) => make_changed_event(master, &detached[i]),
            None => Some(occurrence),
        },
    }
}

/// The occurrence of an event that an identity names, with the change that was made to it. It has no
/// recurrence, and the identifier of the event.
pub fn event_for_recurrence_id(master: &Event, detached: &Vec<DetachedEvent>, identity: &RecurrenceId) -> (r:
    Option<Event>)
    ensures
        exists|occurrence: Option<EventView>|
            is_generated(occurrence, master@, identity@) && lists::view_of(r) == #[trigger] resolved(
                master@,
                lists::views_of(detached@),
                occurrence,
            ),
{
    let occurrence = generated_occurrence_for_recurrence_id(master, identity);
    let ghost view = lists::view_of(occurrence);
    let r = resolve_given(master, detached, occurrence);
    assert(lists::view_of(r) == resolved(master@, lists::views_of(detached@), view));
    r
}

/// Whatever the recurrence gives, the resolved occurrence of an event has no recurrence, and its
/// identifier and calendar.
pub proof fn law_resolved_has_no_recurrence(
    master: EventView,
    detached: Seq<DetachedView>,
    identity: RecurrenceIdView,
    occurrence: Option<EventView>,
)
    requires
        is_generated(occurrence, master, identity),
        resolved(master, detached, occurrence) is Some,
    ensures
        resolved(master, detached, occurrence)->0.recurrence is None,
        resolved(master, detached, occurrence)->0.id == master.id,
        resolved(master, detached, occurrence)->0.calendar_id == master.calendar_id,
{
    let day = identity_day(master.schedule, identity)->0;
    let shown = choose|shown: Seq<EventView>|
        #[trigger] is_expansion(shown, master, day, day) && occurrence == generated(
            master,
            identity,
            shown,
        );
    let dates = choose|dates: Option<Seq<DateTimeView>>|
        #[trigger] are_dates(dates, master, day, day) && shown == expanded(master, dates);
    law_occurrences_keep_the_event(master, dates);
    lemma_first_named(master.schedule, shown, identity);
}

proof fn lemma_first_named(master: ScheduleView, list: Seq<EventView>, identity: RecurrenceIdView)
    ensures
        first_named(master, list, identity) matches Some(event) ==> event.recurrence is None && exists|
            i: int,
        |
            0 <= i < list.len() && #[trigger] list[i] == event,
    decreases list.len(),
{
    if list.len() > 0 {
        if list[0].recurrence is None && names(master, list[0].schedule, identity) {
            assert(list[0] == first_named(master, list, identity)->0);
        } else {
            lemma_first_named(master, list.drop_first(), identity);
            if let Some(event) = first_named(master, list.drop_first(), identity) {
                let i = choose|i: int|
                    0 <= i < list.drop_first().len() && #[trigger] list.drop_first()[i] == event;
                assert(list[i + 1] == event);
            }
        }
    }
}

// ---------------------------------------------------------------------------------------------
// Events to show
// ---------------------------------------------------------------------------------------------

/// An event to show, with the identity of the occurrence that it stands for.
#[derive(Debug)]
pub struct ProjectedEvent {
    pub event: Event,
    pub original_recurrence_id: Option<RecurrenceId>,
}

/// The values of a [`ProjectedEvent`].
pub struct ProjectedView {
    pub event: EventView,
    pub identity: Option<RecurrenceIdView>,
}

impl View for ProjectedEvent {
    type V = ProjectedView;

    open spec fn view(&self) -> ProjectedView {
        ProjectedView {
            event: self.event@,
            identity: lists::view_of(self.original_recurrence_id),
        }
    }
}

/// The occurrences of an event with their identities.
pub open spec fn identified(master: EventView, list: Seq<EventView>) -> Seq<ProjectedView> {
    Seq::new(
        list.len(),
        |i: int| ProjectedView { event: list[i], identity: identity_of(master, list[i]) },
    )
}

/// The occurrences of an event with their identities.
fn identify(master: &Event, list: Vec<Event>) -> (r: Vec<ProjectedEvent>)
    ensures
        lists::views_of(r@) == identified(master@, lists::views_of(list@)),
{
    let ghost all = lists::views_of(list@);
    let mut out: Vec<ProjectedEvent> = Vec::new();
    for i in 0..list.len()
        invariant
            all == lists::views_of(list@),
            out@.len() == i,
            forall|k: int|
                0 <= k < i ==> (#[trigger] out@[k])@ == (ProjectedView {
                    event: all[k],
                    identity: identity_of(master@, all[k]),
                }),
    {
        let original_recurrence_id = recurrence_id_for_generated_occurrence(master, &list[i]);
        out.push(ProjectedEvent { event: list[i].clone(), original_recurrence_id });
    }
    assert(lists::views_of(out@) =~= identified(master@, all));
    out
}

/// The occurrences of an event that no change names, with their identities.
pub open spec fn unchanged(master: EventView, detached: Seq<DetachedView>, list: Seq<EventView>) -> Seq<
    ProjectedView,
>
    decreases list.len(),
{
    if list.len() == 0 {
        seq![]
    } else {
        let before = unchanged(master, detached, list.drop_last());
        let last = list.last();
        if first_change(master.schedule, last.schedule, detached) is Some {
            before
        } else {
            before.push(ProjectedView { event: last, identity: identity_of(master, last) })
        }
    }
}

/// The changed occurrences of an event that it generates, with their identities. `known` says of each
/// change whether the event generates the occurrence that it names.
pub open spec fn changed(master: EventView, detached: Seq<DetachedView>, known: Seq<bool>) -> Seq<
    ProjectedView,
>
    decreases detached.len(),
{
    if detached.len() == 0 {
        seq![]
    } else {
        let before = changed(master, detached.drop_last(), known);
        match changed_event(master, detached.last()) {
            Some(event) => if known[detached.len() - 1] {
                before.push(ProjectedView { event, identity: Some(detached.last().identity()) })
            } else {
                before
            },
            None => before,
        }
    }
}

/// What an event shows with the changes of its occurrences, by what it shows without them.
pub open spec fn with_changes(
    master: EventView,
    detached: Seq<DetachedView>,
    list: Seq<EventView>,
    known: Seq<bool>,
) -> Seq<ProjectedView> {
    if detached.len() == 0 {
        identified(master, list)
    } else if master.recurrence is None {
        seq![ProjectedView { event: master, identity: None }]
    } else {
        unchanged(master, detached, list) + changed(master, detached, known)
    }
}

/// Add the occurrences of an event that no change names.
fn add_unchanged(master: &Event, detached: &Vec<DetachedEvent>, list: &Vec<Event>) -> (r: Vec<
    ProjectedEvent,
>)
    ensures
        lists::views_of(r@) == unchanged(
            master@,
            lists::views_of(detached@),
            lists::views_of(list@),
        ),
{
    let ghost all = lists::views_of(list@);
    let ghost changes = lists::views_of(detached@);
    let mut out: Vec<ProjectedEvent> = Vec::new();
    assert(lists::views_of(out@) =~= unchanged(master@, changes, all.take(0)));
    for i in 0..list.len()
        invariant
            all == lists::views_of(list@),
            changes == lists::views_of(detached@),
            lists::views_of(out@) == unchanged(master@, changes, all.take(i as int)),
    {
        let ghost before = out@;
        proof {
            lists::lemma_views_take(list@, i as int);
        }
        if find_change(&master.schedule, &list[i].schedule, detached).is_none() {
            let original_recurrence_id = recurrence_id_for_generated_occurrence(master, &list[i]);
            let shown = ProjectedEvent { event: list[i].clone(), original_recurrence_id };
            out.push(shown);
            proof {
                lists::lemma_views_push(before, shown);
            }
        }
    }
    proof {
        lists::lemma_views_all(list@);
    }
    out
}

/// Add the changed occurrences of an event that it generates.
fn add_changed(master: &Event, detached: &Vec<DetachedEvent>, known: &Vec<bool>, out: &mut Vec<
    ProjectedEvent,
>)
    requires
        known@.len() == detached@.len(),
    ensures
        lists::views_of(final(out)@) == lists::views_of(old(out)@) + changed(
            master@,
            lists::views_of(detached@),
            known@,
        ),
{
    let ghost all = lists::views_of(detached@);
    let ghost first = lists::views_of(out@);
    assert(first + changed(master@, all.take(0), known@) =~= first);
    for i in 0..detached.len()
        invariant
            all == lists::views_of(detached@),
            known@.len() == detached@.len(),
            lists::views_of(out@) == first + changed(master@, all.take(i as int), known@),
    {
        let ghost before = out@;
        proof {
            lists::lemma_views_take(detached@, i as int);
        }
        if let Some(event) = make_changed_event(master, &detached[i]) {
            if known[i] {
                let shown = ProjectedEvent {
                    event,
                    original_recurrence_id: Some(detached[i].identity().clone()),
                };
                out.push(shown);
                proof {
                    lists::lemma_views_push(before, shown);
                    let earlier = changed(master@, all.take(i as int), known@);
                    assert((first + earlier).push(shown@) =~= first + earlier.push(shown@));
                }
            }
        }
    }
    proof {
        lists::lemma_views_all(detached@);
    }
}

/// What an event shows with the changes of its occurrences, by what it shows without them. `known`
/// says of each change whether the event generates the occurrence that it names.
pub fn apply_changes(master: &Event, detached: &Vec<DetachedEvent>, list: Vec<Event>, known: &Vec<bool>) -> (r:
    Vec<ProjectedEvent>)
    requires
        known@.len() == detached@.len(),
    ensures
        lists::views_of(r@) == with_changes(
            master@,
            lists::views_of(detached@),
            lists::views_of(list@),
            known@,
        ),
{
    if detached.len() == 0 {
        return identify(master, list);
    }
    if master.recurrence.is_none() {
        let mut out: Vec<ProjectedEvent> = Vec::new();
        let shown = ProjectedEvent { event: master.clone(), original_recurrence_id: None };
        out.push(shown);
        assert(lists::views_of(out@) =~= seq![shown@]);
        return out;
    }
    let mut out = add_unchanged(master, detached, &list);
    add_changed(master, detached, known, &mut out);
    out
}

/// Whether an event generates the occurrence that an identity names.
pub open spec fn is_known(known: bool, master: EventView, identity: RecurrenceIdView) -> bool {
    exists|occurrence: Option<EventView>|
        #[trigger] is_generated(occurrence, master, identity) && known == (occurrence is Some)
}

/// Whether a list is what an event shows from one day to another, with the changes of its
/// occurrences.
pub open spec fn is_shown(
    list: Seq<ProjectedView>,
    master: EventView,
    detached: Seq<DetachedView>,
    first: int,
    last: int,
) -> bool {
    exists|events: Seq<EventView>, known: Seq<bool>|
        #[trigger] is_expansion(events, master, first, last) && known.len() == detached.len() && (
        forall|k: int|
            0 <= k < detached.len() ==> is_known(
                #[trigger] known[k],
                master,
                detached[k].identity(),
            )) && list == #[trigger] with_changes(master, detached, events, known)
}

/// Whether a list is what events show from one day to another: the lists of the events one after the
/// other.
pub open spec fn are_shown(
    list: Seq<ProjectedView>,
    masters: Seq<(EventView, Seq<DetachedView>)>,
    first: int,
    last: int,
) -> bool
    decreases masters.len(),
{
    if masters.len() == 0 {
        list.len() == 0
    } else {
        exists|n: int|
            0 <= n <= list.len() && are_shown(
                #[trigger] list.take(n),
                masters.drop_last(),
                first,
                last,
            ) && is_shown(list.skip(n), masters.last().0, masters.last().1, first, last)
    }
}

/// Whether every event is one without changes whose recurrence says of each of its times which zone
/// it is in.
pub open spec fn are_zoned(masters: Seq<(EventView, Seq<DetachedView>)>) -> bool {
    forall|i: int|
        0 <= i < masters.len() ==> is_zoned_event((#[trigger] masters[i]).0) && masters[i].1.len()
            == 0
}

/// What events without changes show is determined where their recurrences mean the same by all
/// clocks.
#[verifier::rlimit(40)]
#[verifier::spinoff_prover]
pub proof fn lemma_shown_is_determined(
    a: Seq<ProjectedView>,
    b: Seq<ProjectedView>,
    masters: Seq<(EventView, Seq<DetachedView>)>,
    first: int,
    last: int,
)
    requires
        are_zoned(masters),
        are_shown(a, masters, first, last),
        are_shown(b, masters, first, last),
    ensures
        a == b,
    decreases masters.len(),
{
    if masters.len() == 0 {
        assert(a =~= b);
    } else {
        let before = masters.drop_last();
        let (master, detached) = masters.last();
        let n = choose|n: int|
            0 <= n <= a.len() && are_shown(#[trigger] a.take(n), before, first, last) && is_shown(
                a.skip(n),
                master,
                detached,
                first,
                last,
            );
        let m = choose|m: int|
            0 <= m <= b.len() && are_shown(#[trigger] b.take(m), before, first, last) && is_shown(
                b.skip(m),
                master,
                detached,
                first,
                last,
            );
        assert forall|i: int| 0 <= i < before.len() implies is_zoned_event(
            (#[trigger] before[i]).0,
        ) && before[i].1.len() == 0 by {
            assert(before[i] == masters[i]);
        }
        lemma_shown_is_determined(a.take(n), b.take(m), before, first, last);
        assert(masters[masters.len() - 1] == (master, detached));
        lemma_one_is_determined(a.skip(n), b.skip(m), master, detached, first, last);
        assert(a =~= a.take(n) + a.skip(n));
        assert(b =~= b.take(m) + b.skip(m));
    }
}

proof fn lemma_one_is_determined(
    a: Seq<ProjectedView>,
    b: Seq<ProjectedView>,
    master: EventView,
    detached: Seq<DetachedView>,
    first: int,
    last: int,
)
    requires
        is_zoned_event(master),
        detached.len() == 0,
        is_shown(a, master, detached, first, last),
        is_shown(b, master, detached, first, last),
    ensures
        a == b,
{
    let (events, known) = choose|events: Seq<EventView>, known: Seq<bool>|
        #[trigger] is_expansion(events, master, first, last) && known.len() == detached.len()
            && a == #[trigger] with_changes(master, detached, events, known);
    let (others, marks) = choose|events: Seq<EventView>, known: Seq<bool>|
        #[trigger] is_expansion(events, master, first, last) && known.len() == detached.len()
            && b == #[trigger] with_changes(master, detached, events, known);
    assert(known =~= marks);
    assert(events == expanded(master, dates_between(master, first, last)));
    assert(others == expanded(master, dates_between(master, first, last)));
}

/// Whether an event generates the occurrences that changes name.
fn find_known(master: &Event, detached: &Vec<DetachedEvent>) -> (r: Vec<bool>)
    ensures
        r@.len() == detached@.len(),
        forall|k: int|
            0 <= k < detached@.len() ==> is_known(#[trigger] r@[k], master@, detached@[k]@.identity()),
{
    let mut out: Vec<bool> = Vec::new();
    for i in 0..detached.len()
        invariant
            out@.len() == i,
            forall|k: int|
                0 <= k < i ==> is_known(#[trigger] out@[k], master@, detached@[k]@.identity()),
    {
        let occurrence = generated_occurrence_for_recurrence_id(master, detached[i].identity());
        let known = occurrence.is_some();
        assert(is_known(known, master@, detached@[i as int]@.identity())) by {
            assert(is_generated(
                lists::view_of(occurrence),
                master@,
                detached@[i as int]@.identity(),
            ));
        }
        out.push(known);
    }
    out
}

/// What an event shows from one day to another, with the changes of its occurrences.
pub fn expand_with_changes(master: &Event, detached: &Vec<DetachedEvent>, first: &Date, last: &Date) -> (r:
    Vec<ProjectedEvent>)
    ensures
        is_shown(lists::views_of(r@), master@, lists::views_of(detached@), first@, last@),
{
    let events = expand_event(master, first, last);
    let known = find_known(master, detached);
    let ghost views = lists::views_of(events@);
    let r = apply_changes(master, detached, events, &known);
    proof {
        let changes = lists::views_of(detached@);
        assert(is_expansion(views, master@, first@, last@));
        assert forall|k: int| 0 <= k < changes.len() implies is_known(
            #[trigger] known@[k],
            master@,
            changes[k].identity(),
        ) by {
            assert(changes[k] == detached@[k]@);
        }
        assert(lists::views_of(r@) == with_changes(master@, changes, views, known@));
    }
    r
}

/// An event with the changes of its occurrences.
pub struct MasterEvent {
    pub event: Event,
    pub detached: Vec<DetachedEvent>,
}

impl View for MasterEvent {
    type V = (EventView, Seq<DetachedView>);

    open spec fn view(&self) -> (EventView, Seq<DetachedView>) {
        (self.event@, lists::views_of(self.detached@))
    }
}

proof fn lemma_are_shown_push(
    list: Seq<ProjectedView>,
    part: Seq<ProjectedView>,
    masters: Seq<(EventView, Seq<DetachedView>)>,
    master: (EventView, Seq<DetachedView>),
    first: int,
    last: int,
)
    requires
        are_shown(list, masters, first, last),
        is_shown(part, master.0, master.1, first, last),
    ensures
        are_shown(list + part, masters.push(master), first, last),
{
    let n = list.len() as int;
    assert((list + part).take(n) =~= list);
    assert((list + part).skip(n) =~= part);
    assert(masters.push(master).drop_last() =~= masters);
    assert(masters.push(master).last() == master);
    assert(are_shown((list + part).take(n), masters.push(master).drop_last(), first, last));
}

/// What events show from one day to another, with the changes of their occurrences.
pub fn expand_events_with_detached(masters: &Vec<MasterEvent>, first: &Date, last: &Date) -> (r: Vec<
    ProjectedEvent,
>)
    ensures
        are_shown(lists::views_of(r@), lists::views_of(masters@), first@, last@),
{
    let ghost all = lists::views_of(masters@);
    let mut out: Vec<ProjectedEvent> = Vec::new();
    assert(all.take(0).len() == 0);
    for i in 0..masters.len()
        invariant
            all == lists::views_of(masters@),
            are_shown(lists::views_of(out@), all.take(i as int), first@, last@),
    {
        let ghost before = lists::views_of(out@);
        proof {
            lists::lemma_views_take(masters@, i as int);
        }
        let mut more = expand_with_changes(&masters[i].event, &masters[i].detached, first, last);
        let ghost part = lists::views_of(more@);
        out.append(&mut more);
        proof {
            assert(lists::views_of(out@) =~= before + part);
            lemma_are_shown_push(before, part, all.take(i as int), masters@[i as int]@, first@, last@);
        }
    }
    proof {
        lists::lemma_views_all(masters@);
    }
    out
}

/// Events without changes of their occurrences.
pub open spec fn plain_masters(events: Seq<EventView>) -> Seq<(EventView, Seq<DetachedView>)> {
    Seq::new(events.len(), |i: int| (events[i], Seq::<DetachedView>::empty()))
}

/// What events show from one day to another.
pub fn expand_events(events: &Vec<Event>, first: &Date, last: &Date) -> (r: Vec<ProjectedEvent>)
    ensures
        are_shown(
            lists::views_of(r@),
            plain_masters(model::event_views(events@)),
            first@,
            last@,
        ),
{
    let mut masters: Vec<MasterEvent> = Vec::new();
    for i in 0..events.len()
        invariant
            masters@.len() == i,
            forall|k: int|
                0 <= k < i ==> (#[trigger] masters@[k])@.0 == events@[k]@ && masters@[k]@.1.len() == 0,
    {
        let detached: Vec<DetachedEvent> = Vec::new();
        masters.push(MasterEvent { event: events[i].clone(), detached });
    }
    proof {
        let plain = plain_masters(model::event_views(events@));
        assert forall|k: int| 0 <= k < plain.len() implies #[trigger] lists::views_of(masters@)[k]
            == plain[k] by {
            assert(masters@[k]@.1 =~= Seq::<DetachedView>::empty());
        }
        assert(lists::views_of(masters@) =~= plain);
    }
    expand_events_with_detached(&masters, first, last)
}

// ---------------------------------------------------------------------------------------------
// Laws of the interval
// ---------------------------------------------------------------------------------------------

/// The instant from which occurrences are asked for lies the length and one second before another,
/// to the nanosecond and under the same offset. There is one exactly where that instant, and the one
/// a second after it, are representable.
pub proof fn law_lead_in_is_the_length_before(bound: DateTime, length: Span)
    requires
        bound@.valid(),
        bound@.nanos < 1000000000,
        is_reversible(length),
    ensures
        lead_in(bound, length) matches Some(lower) ==> lower@.seconds * 1000000000 + lower@.nanos
            == bound@.seconds * 1000000000 + bound@.nanos - (length.seconds * 1000000000
            + length.nanos) - 1000000000 && lower@.offset == bound@.offset && 0 <= lower@.nanos
            < 1000000000 && lower@.valid(),
        lead_in(bound, length) is None ==> forall|v: DateTimeView| #[trigger]
            v.valid() && 0 <= v.nanos < 1000000000 && v.offset == bound@.offset ==> v.seconds
                * 1000000000 + v.nanos != bound@.seconds * 1000000000 + bound@.nanos - (
            length.seconds * 1000000000 + length.nanos) - 1000000000 || !(DateTimeView {
                seconds: v.seconds + 1,
                ..v
            }).valid(),
{
    let back = negated(length);
    date::lemma_later(bound, back);
    let middle = date::plain_later(bound@, back);
    if middle.valid() {
        let earlier = date::later(bound, back)->0;
        date::lemma_later(earlier, recurrence_split::minus_one_second());
    }
    assert forall|v: DateTimeView|
        lead_in(bound, length) is None && #[trigger] v.valid() && 0 <= v.nanos < 1000000000 && v.offset
            == bound@.offset implies v.seconds * 1000000000 + v.nanos != bound@.seconds * 1000000000
        + bound@.nanos - (length.seconds * 1000000000 + length.nanos) - 1000000000 || !(DateTimeView {
        seconds: v.seconds + 1,
        ..v
    }).valid() by {
        if v.seconds * 1000000000 + v.nanos == bound@.seconds * 1000000000 + bound@.nanos - (
        length.seconds * 1000000000 + length.nanos) - 1000000000 {
            assert(middle == DateTimeView { seconds: v.seconds + 1, ..v });
        }
    }
}

/// How long an event lasts, in nanoseconds, where it does not begin or end in a leap second.
pub open spec fn lasting(schedule: ScheduleView) -> int {
    match schedule {
        ScheduleView::AllDay { start_date, end_date_exclusive } => (end_date_exclusive@ - start_date@)
            * 86400000000000,
        ScheduleView::Timed { start, end, .. } => (end@.seconds - start@.seconds) * 1000000000 + (
        end@.nanos - start@.nanos),
    }
}

/// The length of an event is the time from its start to its end.
pub proof fn law_length_is_from_start_to_end(schedule: ScheduleView)
    requires
        schedule matches ScheduleView::Timed { start, end, .. } ==> start@.valid() && end@.valid()
            && start@.nanos < 1000000000 && end@.nanos < 1000000000,
        schedule matches ScheduleView::AllDay { start_date, end_date_exclusive } ==> date::is_day(
            start_date@,
        ) && date::is_day(end_date_exclusive@),
    ensures
        length_of(schedule).seconds * 1000000000 + length_of(schedule).nanos == lasting(schedule),
        0 <= length_of(schedule).nanos < 1000000000,
{
}

/// The interval in which occurrences of an event are asked for from one day to another holds every
/// occurrence that touches those days: one that starts before the end of the last day, and ends
/// after midnight of the first.
pub proof fn law_every_occurrence_that_touches_the_days_is_asked_for(
    event: EventView,
    first: int,
    last: int,
    from_clocks: Seq<char>,
    upper_clocks: Seq<char>,
    clocks: Seq<char>,
)
    requires
        dates_by(event, first, last, from_clocks, upper_clocks, clocks) is Some,
        event.schedule matches ScheduleView::Timed { start, end, .. } ==> start@.valid() && end@.valid()
            && start@.nanos < 1000000000 && end@.nanos < 1000000000,
        event.schedule matches ScheduleView::AllDay { start_date, end_date_exclusive } ==> date::is_day(
            start_date@,
        ) && date::is_day(end_date_exclusive@),
        bound_by(event.schedule, first, from_clocks) matches Some(from) ==> from.valid() && from.nanos
            < 1000000000,
    ensures
        exists|source: Seq<char>, lower: DateTimeView, upper: DateTimeView|
            {
                &&& dates_by(event, first, last, from_clocks, upper_clocks, clocks)
                    == #[trigger] rules::occurrences_by(source, lower, upper, 4096, clocks)
                &&& recurrence_source(event.schedule, event.recurrence->0) == Some(source)
                &&& Some(upper) == bound_by(event.schedule, last + 1, upper_clocks)
                &&& forall|s: DateTimeView|
                    {
                        let from = bound_by(event.schedule, first, from_clocks)->0;
                        #[trigger] s.before(upper) && 0 <= s.nanos < 1000000000 && s.seconds
                            * 1000000000 + s.nanos + lasting(event.schedule) > from.seconds
                            * 1000000000 + from.nanos ==> lower.before(s)
                    }
            },
{
    let source = recurrence_source(event.schedule, event.recurrence->0)->0;
    let from = bound_by(event.schedule, first, from_clocks)->0;
    let upper = bound_by(event.schedule, last + 1, upper_clocks)->0;
    let length = length_of(event.schedule);
    let lower = lead_in(date::date_time_of(from), length)->0;
    date::lemma_date_time_of(from);
    law_length_is_from_start_to_end(event.schedule);
    law_lead_in_is_the_length_before(date::date_time_of(from), length);
    assert(dates_by(event, first, last, from_clocks, upper_clocks, clocks) == rules::occurrences_by(
        source,
        lower@,
        upper,
        4096,
        clocks,
    ));
}

/// Midnight of a day for an event without a zone is that of UTC: so many days after the first of
/// January 1970.
pub proof fn law_midnight_without_a_zone_is_in_utc(day: int)
    ensures
        zone_midnight(None, day) matches Some(midnight) ==> midnight == (DateTimeView {
            seconds: (day - 719163) * 86400,
            nanos: 0,
            offset: 0,
        }),
        date::MIN_DAY < day < date::MAX_DAY ==> zone_midnight(None, day) is Some,
{
}

/// An event at one of its occurrences begins there and lasts as long as the event, in its zone; on
/// whole days it begins on the day of the occurrence and takes as many days.
pub proof fn law_occurrence_begins_at_its_date(event: EventView, occurrence: DateTimeView)
    requires
        occurrence.valid(),
        occurrence.nanos < 1000000000,
        event.schedule matches ScheduleView::Timed { start, end, .. } ==> start@.valid() && end@.valid()
            && start@.nanos < 1000000000 && end@.nanos < 1000000000,
        occurrence_event(event, occurrence) is Some,
    ensures
        ({
            let shown = occurrence_event(event, occurrence)->0;
            &&& shown.recurrence is None
            &&& shown.id == event.id && shown.calendar_id == event.calendar_id
            &&& shown.title == event.title && shown.location == event.location
            &&& shown.description == event.description && shown.reminders == event.reminders
            &&& match (event.schedule, shown.schedule) {
                (
                    ScheduleView::AllDay { start_date, end_date_exclusive },
                    ScheduleView::AllDay { start_date: day, end_date_exclusive: end },
                ) => day@ == occurrence.local_day() && end@ - day@ == end_date_exclusive@
                    - start_date@,
                (
                    ScheduleView::Timed { timezone, .. },
                    ScheduleView::Timed { start: at, timezone: zone, .. },
                ) => at@ == occurrence && zone == timezone && lasting(shown.schedule) == lasting(
                    event.schedule,
                ),
                _ => false,
            }
        }),
{
    date::lemma_date_time_of(occurrence);
    date::lemma_local_day_in_range(occurrence);
    match event.schedule {
        ScheduleView::AllDay { start_date, end_date_exclusive } => {
            date::lemma_date_of(occurrence.local_day());
            date::lemma_date_of(occurrence.local_day() + (end_date_exclusive@ - start_date@));
        },
        ScheduleView::Timed { start, end, .. } => {
            law_length_is_from_start_to_end(event.schedule);
            date::lemma_later(date::date_time_of(occurrence), date::span_between(start, end));
        },
    }
}

/// Every date that the recurrence of an event gives, and at which the event is representable, is
/// shown, and what is shown is at one of those dates; they stay in order.
pub proof fn law_every_date_is_shown(event: EventView, dates: Seq<DateTimeView>, k: int)
    requires
        event.recurrence is Some,
        0 <= k < dates.len(),
        occurrence_event(event, dates[k]) is Some,
    ensures
        expanded(event, Some(dates)).contains(occurrence_event(event, dates[k])->0),
        (forall|i: int| 0 <= i < dates.len() ==> occurrence_event(event, #[trigger] dates[i]) is Some)
            ==> expanded(event, Some(dates)).len() == dates.len() && expanded(event, Some(dates))[k]
            == occurrence_event(event, dates[k])->0,
    decreases dates.len(),
{
    let before = dates.drop_last();
    let out = occurrence_events(event, dates);
    let first = occurrence_events(event, before);
    if k < before.len() {
        assert(before[k] == dates[k]);
        law_every_date_is_shown(event, before, k);
        let n = choose|n: int| 0 <= n < first.len() && first[n] == occurrence_event(event, dates[k])->0;
        assert(out[n] == first[n]);
        if forall|i: int| 0 <= i < dates.len() ==> occurrence_event(event, #[trigger] dates[i]) is Some {
            assert forall|i: int| 0 <= i < before.len() implies occurrence_event(
                event,
                #[trigger] before[i],
            ) is Some by {
                assert(before[i] == dates[i]);
            }
            assert(occurrence_event(event, dates[dates.len() - 1]) is Some);
        }
    } else {
        assert(out[out.len() - 1] == occurrence_event(event, dates[k])->0);
        if forall|i: int| 0 <= i < dates.len() ==> occurrence_event(event, #[trigger] dates[i]) is Some {
            assert forall|i: int| 0 <= i < before.len() implies occurrence_event(
                event,
                #[trigger] before[i],
            ) is Some by {
                assert(before[i] == dates[i]);
            }
            if before.len() > 0 {
                law_every_date_is_shown(event, before, 0);
            }
        }
    }
}

/// An event without a recurrence, or with one that cannot be read, shows itself.
pub proof fn law_event_without_dates_shows_itself(event: EventView, found: Option<Seq<DateTimeView>>)
    requires
        event.recurrence is None || found is None,
    ensures
        expanded(event, found) == seq![event],
{
}

/// The identity of an occurrence is its first day, or its start with the zone of its event; an event
/// that does not recur generates none.
pub proof fn law_identity_is_the_start(master: EventView, occurrence: EventView)
    ensures
        master.recurrence is None ==> identity_of(master, occurrence) is None,
        occurrence.recurrence is Some ==> identity_of(master, occurrence) is None,
        master.recurrence is Some && occurrence.recurrence is None ==> match (
            master.schedule,
            occurrence.schedule,
        ) {
            (ScheduleView::AllDay { .. }, ScheduleView::AllDay { start_date, .. }) => identity_of(
                master,
                occurrence,
            ) == Some(RecurrenceIdView::AllDay(start_date)),
            (ScheduleView::Timed { timezone, .. }, ScheduleView::Timed { start, .. }) => identity_of(
                master,
                occurrence,
            ) == Some(RecurrenceIdView::Timed { date_time: start, timezone }),
            _ => identity_of(master, occurrence) is None,
        },
{
}

/// An identity names one occurrence: on whole days the one on its day, without a zone the one at its
/// instant, and in a zone the one at which the clocks of the zone show the same day and time. An
/// identity in another zone names none.
pub proof fn law_identity_names_by_day_instant_or_clock(
    master: ScheduleView,
    occurrence: ScheduleView,
    identity: RecurrenceIdView,
)
    ensures
        names(master, occurrence, identity) ==> (master is AllDay <==> occurrence is AllDay) && (
        master is AllDay <==> identity is AllDay),
        master matches ScheduleView::AllDay { .. } ==> occurrence matches ScheduleView::AllDay {
            start_date,
            ..
        } ==> identity matches RecurrenceIdView::AllDay(day) ==> (names(master, occurrence, identity)
            <==> start_date@ == day@),
        master matches ScheduleView::Timed { timezone, .. } ==> occurrence matches ScheduleView::Timed {
            start,
            ..
        } ==> identity matches RecurrenceIdView::Timed { date_time, timezone: other } ==> {
            &&& timezone != other ==> !names(master, occurrence, identity)
            &&& timezone is None && other is None ==> (names(master, occurrence, identity)
                <==> start@.seconds == date_time@.seconds && start@.nanos == date_time@.nanos)
            &&& timezone is Some && timezone == other && zone::zone_known(timezone->0) ==> (names(
                master,
                occurrence,
                identity,
            ) <==> {
                let a = zone::shown_in(start@, timezone->0);
                let b = zone::shown_in(date_time@, timezone->0);
                a.seconds + a.offset == b.seconds + b.offset && a.nanos == b.nanos
            })
        },
{
}

/// Changes of occurrences are shown in place of them. Nothing else is shown than the occurrences that
/// no change names, and the changed ones of those that the event generates, as their changes
/// describe them and under the identities that they had; a cancelled one is not shown.
pub proof fn law_changes_stand_for_their_occurrences(
    master: EventView,
    detached: Seq<DetachedView>,
    list: Seq<EventView>,
    known: Seq<bool>,
    n: int,
)
    requires
        master.recurrence is Some,
        known.len() == detached.len(),
        0 <= n < with_changes(master, detached, list, known).len(),
    ensures
        ({
            let shown = with_changes(master, detached, list, known)[n];
            ||| exists|i: int|
                0 <= i < list.len() && shown.event == #[trigger] list[i] && shown.identity
                    == identity_of(master, list[i]) && forall|k: int|
                    0 <= k < detached.len() ==> !names(
                        master.schedule,
                        list[i].schedule,
                        (#[trigger] detached[k]).identity(),
                    )
            ||| exists|k: int|
                0 <= k < detached.len() && known[k] && (#[trigger] detached[k] matches DetachedView::Modified {
                    recurrence_id,
                    title,
                    location,
                    description,
                    schedule,
                    reminders,
                } && shown.identity == Some(recurrence_id) && shown.event == (EventView {
                    id: master.id,
                    calendar_id: master.calendar_id,
                    title,
                    location,
                    description,
                    schedule,
                    recurrence: None,
                    reminders,
                }))
        }),
{
    if detached.len() == 0 {
        assert(with_changes(master, detached, list, known)[n].event == list[n]);
    } else {
        let first = unchanged(master, detached, list);
        if n < first.len() {
            lemma_unchanged(master, detached, list, n);
        } else {
            lemma_changed(master, detached, known, n - first.len());
        }
    }
}

/// None is lost: an occurrence that no change names is shown, and so is a changed one, unless it is
/// cancelled or the event does not generate it.
pub proof fn law_no_occurrence_is_lost_to_changes(
    master: EventView,
    detached: Seq<DetachedView>,
    list: Seq<EventView>,
    known: Seq<bool>,
)
    requires
        master.recurrence is Some,
        known.len() == detached.len(),
    ensures
        forall|i: int|
            0 <= i < list.len() && (forall|k: int|
                0 <= k < detached.len() ==> !names(
                    master.schedule,
                    (#[trigger] list[i]).schedule,
                    (#[trigger] detached[k]).identity(),
                )) ==> with_changes(master, detached, list, known).contains(
                ProjectedView { event: list[i], identity: identity_of(master, list[i]) },
            ),
        forall|k: int|
            0 <= k < detached.len() && known[k] ==> (#[trigger] detached[k] matches DetachedView::Modified {
                recurrence_id,
                title,
                location,
                description,
                schedule,
                reminders,
            } ==> with_changes(master, detached, list, known).contains(
                ProjectedView {
                    event: EventView {
                        id: master.id,
                        calendar_id: master.calendar_id,
                        title,
                        location,
                        description,
                        schedule,
                        recurrence: None,
                        reminders,
                    },
                    identity: Some(recurrence_id),
                },
            )),
{
    let out = with_changes(master, detached, list, known);
    let first = unchanged(master, detached, list);
    let second = changed(master, detached, known);
    assert forall|i: int|
        0 <= i < list.len() && (forall|k: int|
            0 <= k < detached.len() ==> !names(
                master.schedule,
                (#[trigger] list[i]).schedule,
                (#[trigger] detached[k]).identity(),
            )) implies out.contains(
        ProjectedView { event: list[i], identity: identity_of(master, list[i]) },
    ) by {
        let shown = ProjectedView { event: list[i], identity: identity_of(master, list[i]) };
        if detached.len() == 0 {
            assert(out[i] == shown);
        } else {
            lemma_unchanged_holds(master, detached, list, i);
            let n = choose|n: int| 0 <= n < first.len() && first[n] == shown;
            assert(out[n] == shown);
        }
    }
    assert forall|k: int|
        0 <= k < detached.len() && known[k] && #[trigger] detached[k] is Modified implies out.contains(
        ProjectedView {
            event: changed_event(master, detached[k])->0,
            identity: Some(detached[k].identity()),
        },
    ) by {
        let shown = ProjectedView {
            event: changed_event(master, detached[k])->0,
            identity: Some(detached[k].identity()),
        };
        lemma_changed_holds(master, detached, known, k);
        let n = choose|n: int| 0 <= n < second.len() && second[n] == shown;
        assert(out[first.len() + n] == shown);
    }
}

/// A change is found exactly where one names the occurrence.
proof fn lemma_first_change(master: ScheduleView, occurrence: ScheduleView, detached: Seq<DetachedView>)
    ensures
        first_change(master, occurrence, detached) is Some <==> exists|k: int|
            0 <= k < detached.len() && names(
                master,
                occurrence,
                (#[trigger] detached[k]).identity(),
            ),
        first_change(master, occurrence, detached) matches Some(change) ==> names(
            master,
            occurrence,
            change.identity(),
        ) && detached.contains(change),
    decreases detached.len(),
{
    if detached.len() > 0 {
        let rest = detached.drop_first();
        lemma_first_change(master, occurrence, rest);
        if names(master, occurrence, detached[0].identity()) {
        } else {
            if first_change(master, occurrence, rest) is Some {
                let change = first_change(master, occurrence, rest)->0;
                let k = choose|k: int| 0 <= k < rest.len() && rest[k] == change;
                assert(detached[k + 1] == change);
            }
            if exists|k: int|
                0 <= k < detached.len() && names(
                    master,
                    occurrence,
                    (#[trigger] detached[k]).identity(),
                ) {
                let k = choose|k: int|
                    0 <= k < detached.len() && names(
                        master,
                        occurrence,
                        (#[trigger] detached[k]).identity(),
                    );
                assert(rest[k - 1] == detached[k]);
            }
        }
    }
}

/// What an identity resolves to is the occurrence itself where no change names it; the changed one
/// where a change that modifies it does; and nothing where it was cancelled.
pub proof fn law_resolved_by_a_change_that_names_it(
    master: EventView,
    detached: Seq<DetachedView>,
    occurrence: EventView,
)
    ensures
        ({
            let out = resolved(master, detached, Some(occurrence));
            if exists|k: int|
                0 <= k < detached.len() && names(
                    master.schedule,
                    occurrence.schedule,
                    (#[trigger] detached[k]).identity(),
                ) {
                exists|k: int|
                    {
                        &&& 0 <= k < detached.len()
                        &&& names(
                            master.schedule,
                            occurrence.schedule,
                            (#[trigger] detached[k]).identity(),
                        )
                        &&& match detached[k] {
                            DetachedView::Cancelled { .. } => out is None,
                            DetachedView::Modified {
                                title,
                                location,
                                description,
                                schedule,
                                reminders,
                                ..
                            } => out == Some(
                                EventView {
                                    id: master.id,
                                    calendar_id: master.calendar_id,
                                    title,
                                    location,
                                    description,
                                    schedule,
                                    recurrence: None,
                                    reminders,
                                },
                            ),
                        }
                    }
            } else {
                out == Some(occurrence)
            }
        }),
        resolved(master, detached, None) is None,
{
    lemma_first_change(master.schedule, occurrence.schedule, detached);
    if first_change(master.schedule, occurrence.schedule, detached) is Some {
        let change = first_change(master.schedule, occurrence.schedule, detached)->0;
        let k = choose|k: int| 0 <= k < detached.len() && detached[k] == change;
        assert(names(master.schedule, occurrence.schedule, detached[k].identity()));
    }
}

proof fn lemma_unchanged(master: EventView, detached: Seq<DetachedView>, list: Seq<EventView>, n: int)
    requires
        0 <= n < unchanged(master, detached, list).len(),
    ensures
        exists|i: int|
            0 <= i < list.len() && unchanged(master, detached, list)[n].event == #[trigger] list[i]
                && unchanged(master, detached, list)[n].identity == identity_of(master, list[i])
                && forall|k: int|
                0 <= k < detached.len() ==> !names(
                    master.schedule,
                    list[i].schedule,
                    (#[trigger] detached[k]).identity(),
                ),
    decreases list.len(),
{
    let before = list.drop_last();
    let first = unchanged(master, detached, before);
    if n < first.len() {
        lemma_unchanged(master, detached, before, n);
        let i = choose|i: int|
            0 <= i < before.len() && first[n].event == #[trigger] before[i] && first[n].identity
                == identity_of(master, before[i]) && forall|k: int|
                0 <= k < detached.len() ==> !names(
                    master.schedule,
                    before[i].schedule,
                    (#[trigger] detached[k]).identity(),
                );
        assert(list[i] == before[i]);
    } else {
        lemma_first_change(master.schedule, list.last().schedule, detached);
        assert(list[list.len() - 1] == list.last());
    }
}

proof fn lemma_unchanged_holds(
    master: EventView,
    detached: Seq<DetachedView>,
    list: Seq<EventView>,
    i: int,
)
    requires
        0 <= i < list.len(),
        forall|k: int|
            0 <= k < detached.len() ==> !names(
                master.schedule,
                list[i].schedule,
                (#[trigger] detached[k]).identity(),
            ),
    ensures
        unchanged(master, detached, list).contains(
            ProjectedView { event: list[i], identity: identity_of(master, list[i]) },
        ),
    decreases list.len(),
{
    let before = list.drop_last();
    let first = unchanged(master, detached, before);
    let out = unchanged(master, detached, list);
    let shown = ProjectedView { event: list[i], identity: identity_of(master, list[i]) };
    if i < before.len() {
        assert(before[i] == list[i]);
        lemma_unchanged_holds(master, detached, before, i);
        let n = choose|n: int| 0 <= n < first.len() && first[n] == shown;
        assert(out[n] == shown);
    } else {
        lemma_first_change(master.schedule, list[i].schedule, detached);
        assert(out[out.len() - 1] == shown);
    }
}

proof fn lemma_changed(master: EventView, detached: Seq<DetachedView>, known: Seq<bool>, n: int)
    requires
        known.len() >= detached.len(),
        0 <= n < changed(master, detached, known).len(),
    ensures
        exists|k: int|
            0 <= k < detached.len() && known[k] && #[trigger] detached[k] is Modified && changed(
                master,
                detached,
                known,
            )[n].identity == Some(detached[k].identity()) && Some(changed(master, detached, known)[n].event)
                == changed_event(master, detached[k]),
    decreases detached.len(),
{
    let before = detached.drop_last();
    let first = changed(master, before, known);
    if n < first.len() {
        lemma_changed(master, before, known, n);
        let k = choose|k: int|
            0 <= k < before.len() && known[k] && #[trigger] before[k] is Modified && first[n].identity
                == Some(before[k].identity()) && Some(first[n].event) == changed_event(
                master,
                before[k],
            );
        assert(detached[k] == before[k]);
    } else {
        assert(detached[detached.len() - 1] == detached.last());
    }
}

proof fn lemma_changed_holds(master: EventView, detached: Seq<DetachedView>, known: Seq<bool>, k: int)
    requires
        known.len() >= detached.len(),
        0 <= k < detached.len(),
        known[k],
        detached[k] is Modified,
    ensures
        changed(master, detached, known).contains(
            ProjectedView {
                event: changed_event(master, detached[k])->0,
                identity: Some(detached[k].identity()),
            },
        ),
    decreases detached.len(),
{
    let before = detached.drop_last();
    let first = changed(master, before, known);
    let out = changed(master, detached, known);
    let shown = ProjectedView {
        event: changed_event(master, detached[k])->0,
        identity: Some(detached[k].identity()),
    };
    if k < before.len() {
        assert(before[k] == detached[k]);
        lemma_changed_holds(master, before, known, k);
        let n = choose|n: int| 0 <= n < first.len() && first[n] == shown;
        assert(out[n] == shown);
    } else {
        assert(out[out.len() - 1] == shown);
    }
}

/// Without exceptions all the occurrences of an event are shown as they are, each by its own identity.
pub proof fn law_shown_without_exceptions(
    list: Seq<ProjectedView>,
    master: EventView,
    first: int,
    last: int,
)
    requires
        is_shown(list, master, Seq::empty(), first, last),
    ensures
        exists|events: Seq<EventView>|
            #[trigger] is_expansion(events, master, first, last) && list.len() == events.len() && forall|
                i: int,
            |
                0 <= i < events.len() ==> (#[trigger] list[i]).event == events[i] && list[i].identity
                    == identity_of(master, events[i]),
{
    let (events, known) = choose|events: Seq<EventView>, known: Seq<bool>|
        #[trigger] is_expansion(events, master, first, last) && known.len() == 0 && list
            == #[trigger] with_changes(master, Seq::empty(), events, known);
    assert(is_expansion(events, master, first, last));
}

/// Every event is shown, one after the other.
pub proof fn law_every_event_is_shown(
    list: Seq<ProjectedView>,
    masters: Seq<(EventView, Seq<DetachedView>)>,
    first: int,
    last: int,
    i: int,
) -> (part: (int, int))
    requires
        are_shown(list, masters, first, last),
        0 <= i < masters.len(),
    ensures
        0 <= part.0 <= part.1 <= list.len(),
        is_shown(list.subrange(part.0, part.1), masters[i].0, masters[i].1, first, last),
    decreases masters.len(),
{
    let n = choose|n: int|
        0 <= n <= list.len() && are_shown(
            #[trigger] list.take(n),
            masters.drop_last(),
            first,
            last,
        ) && is_shown(list.skip(n), masters.last().0, masters.last().1, first, last);
    if i == masters.len() - 1 {
        assert(list.subrange(n, list.len() as int) =~= list.skip(n));
        (n, list.len() as int)
    } else {
        assert(masters.drop_last()[i] == masters[i]);
        let part = law_every_event_is_shown(list.take(n), masters.drop_last(), first, last, i);
        assert(list.take(n).subrange(part.0, part.1) =~= list.subrange(part.0, part.1));
        part
    }
}

/// Events alone have no exceptions.
pub proof fn law_events_alone(events: Seq<EventView>, i: int)
    requires
        0 <= i < events.len(),
    ensures
        plain_masters(events).len() == events.len(),
        plain_masters(events)[i].0 == events[i],
        plain_masters(events)[i].1.len() == 0,
{
}

/// An event has an occurrence at every date from which it can last as long as it does.
pub proof fn law_occurrences_are_there(event: EventView, occurrence: DateTimeView)
    requires
        occurrence.valid(),
        occurrence.nanos < 1000000000,
        event.schedule matches ScheduleView::AllDay { start_date, end_date_exclusive } ==> date::is_day(
            occurrence.local_day() + (end_date_exclusive@ - start_date@),
        ),
        event.schedule matches ScheduleView::Timed { start, end, .. } ==> date::plain_later(
            occurrence,
            date::span_between(start, end),
        ).valid(),
    ensures
        occurrence_event(event, occurrence) is Some,
        recurrence_split::schedule_at(event.schedule, occurrence) is Some,
{
    date::lemma_date_time_of(occurrence);
    if let ScheduleView::Timed { start, end, .. } = event.schedule {
        date::lemma_later(date::date_time_of(occurrence), date::span_between(start, end));
    }
}

/// The dates of a repeating event are asked for wherever its rule has a text, the days have their bounds
/// and the lead in is there.
pub proof fn law_dates_are_asked_for(
    event: EventView,
    first: int,
    last: int,
    clocks: Seq<char>,
    source: Seq<char>,
    from: DateTimeView,
    upper: DateTimeView,
    lower: DateTime,
)
    requires
        event.recurrence is Some,
        recurrence_source(event.schedule, event.recurrence->0) == Some(source),
        bound_by(event.schedule, first, clocks) == Some(from),
        bound_by(event.schedule, last + 1, clocks) == Some(upper),
        date::is_day(last + 1),
        lead_in(date::date_time_of(from), length_of(event.schedule)) == Some(lower),
    ensures
        dates_by(event, first, last, clocks, clocks, clocks) is Some <==> rules::rule_set_valid(
            source,
            clocks,
        ),
{
}

/// The bound of a day is the midnight of the clocks for events on whole days, and that of their zone for
/// events with times.
pub proof fn law_bounds_of_days(schedule: ScheduleView, day: int, clocks: Seq<char>, seconds: i64, offset: i32)
    requires
        local_midnight(day, clocks) == Some((seconds, offset)),
        (DateTimeView { seconds: seconds as int, nanos: 0, offset: offset as int }).valid(),
    ensures
        schedule is AllDay ==> bound_by(schedule, day, clocks) == Some(
            DateTimeView { seconds: seconds as int, nanos: 0, offset: offset as int },
        ),
        schedule matches ScheduleView::Timed { timezone, .. } ==> bound_by(schedule, day, clocks)
            == zone_midnight(timezone, day),
{
}

} // verus!
