//! An occurrence and all that follow it: where a recurrence ends, and how exceptions move along.
use vstd::prelude::*;

use crate::backend::occurrences;
use crate::backend::RepositoryError;
use crate::date;
use crate::date::{Date, DateTime, DateTimeView, Time};
use crate::model;
use crate::model::{DetachedEvent, DetachedView, Event, EventSchedule, EventView, RecurrenceId, RecurrenceIdView, RecurrenceSpec, RecurrenceView, ScheduleView};
use crate::recurrence_form;
use crate::recurrence_form::RecurrencePresentation;
use crate::recurrence_split;
use crate::recurrence_split::{RecurrenceSplitError, SplitView};
use crate::rules;
use crate::text;
use crate::zone;

verus! {

// ---------------------------------------------------------------------------------------------
// The position of an occurrence
// ---------------------------------------------------------------------------------------------

/// Whether an identity has the kind of an event: a date for an all-day event, an instant otherwise.
pub open spec fn same_kind(schedule: ScheduleView, identity: RecurrenceIdView) -> bool {
    (schedule is AllDay) == (identity is AllDay)
}

/// The position of an occurrence among those of an event with a single rule, where `dates` are the
/// occurrences up to it that its text gives; nothing is given where the text is not accepted.
pub open spec fn index_among(
    schedule: ScheduleView,
    recurrence: RecurrenceView,
    identity: RecurrenceIdView,
    dates: Option<Seq<DateTimeView>>,
) -> Option<int> {
    if recurrence.rrule.len() != 1 || recurrence.rrule[0].len() == 0
        || occurrences::event_source(schedule, recurrence) is None || dates is None || !same_kind(
        schedule,
        identity,
    ) {
        None
    } else if !recurrence_split::start_instant(schedule).before(
        recurrence_split::identity_instant(identity),
    ) {
        Some(0)
    } else if recurrence_split::split_bounds(schedule, identity) is None
        || !recurrence_split::identity_matches(schedule, identity) {
        None
    } else {
        recurrence_split::position(
            recurrence_split::in_order(recurrence_split::start_instant(schedule), dates->0),
            identity,
            schedule,
        )
    }
}

/// The values of an optional list of instants.
pub open spec fn dates_view(dates: Option<Vec<DateTime>>) -> Option<Seq<DateTimeView>> {
    match dates {
        Some(dates) => Some(rules::instant_views(dates@)),
        None => None,
    }
}

/// The position of an occurrence among those of an event with a single rule.
pub fn find_index_among(
    schedule: &EventSchedule,
    recurrence: &RecurrenceSpec,
    identity: &RecurrenceId,
    dates: &Option<Vec<DateTime>>,
) -> (r: Option<usize>)
    ensures
        match r {
            Some(i) => index_among(schedule@, recurrence@, identity@, dates_view(*dates)) == Some(
                i as int,
            ),
            None => index_among(schedule@, recurrence@, identity@, dates_view(*dates)) is None,
        },
{
    if recurrence.rrule.len() != 1 || recurrence.rrule[0].as_str().is_empty() {
        return None;
    }
    if occurrences::make_event_source(schedule, recurrence).is_none() {
        return None;
    }
    let dates = match dates {
        Some(dates) => dates,
        None => {
            return None;
        },
    };
    let same = match (schedule, identity) {
        (EventSchedule::AllDay { .. }, RecurrenceId::AllDay(_)) => true,
        (EventSchedule::Timed { .. }, RecurrenceId::Timed { .. }) => true,
        _ => false,
    };
    if !same {
        return None;
    }
    if !recurrence_split::starts_before(schedule, identity) {
        return Some(0);
    }
    if recurrence_split::bounds_of_split(schedule, identity).is_none()
        || !recurrence_split::identity_matches_schedule(schedule, identity) {
        return None;
    }
    let first = match recurrence_split::schedule_start(schedule) {
        Some(first) => first,
        None => {
            return None;
        },
    };
    let ordered = recurrence_split::put_in_order(first, dates);
    recurrence_split::find_position(&ordered, identity, schedule)
}

/// The occurrences up to one of them that the text of an event gives by the clocks of a machine.
pub open spec fn dates_up_to_by(
    schedule: ScheduleView,
    recurrence: RecurrenceView,
    identity: RecurrenceIdView,
    clocks: Seq<char>,
) -> Option<Seq<DateTimeView>> {
    match occurrences::event_source(schedule, recurrence) {
        None => None,
        Some(source) => match recurrence_split::split_bounds(schedule, identity) {
            Some((lower, upper)) => rules::occurrences_by(source, lower@, upper@, u16::MAX, clocks),
            None => if rules::rule_set_valid(source, clocks) {
                Some(seq![])
            } else {
                None
            },
        },
    }
}

/// The occurrences up to one of them that the text of an event gives where it means the same by all
/// clocks.
pub open spec fn dates_up_to(
    schedule: ScheduleView,
    recurrence: RecurrenceView,
    identity: RecurrenceIdView,
) -> Option<Seq<DateTimeView>> {
    dates_up_to_by(schedule, recurrence, identity, rules::any_clocks())
}

/// Whether dates are the occurrences up to one of them that the text of an event gives.
pub open spec fn are_dates_up_to(
    dates: Option<Seq<DateTimeView>>,
    schedule: ScheduleView,
    recurrence: RecurrenceView,
    identity: RecurrenceIdView,
) -> bool {
    &&& occurrences::is_zoned_event(schedule, recurrence) ==> dates == dates_up_to(
        schedule,
        recurrence,
        identity,
    )
    &&& exists|clocks: Seq<char>|
        dates == #[trigger] dates_up_to_by(schedule, recurrence, identity, clocks)
}

/// The occurrences up to one of them that the text of an event gives.
fn find_dates_up_to(schedule: &EventSchedule, recurrence: &RecurrenceSpec, identity: &RecurrenceId) -> (r:
    Option<Vec<DateTime>>)
    ensures
        are_dates_up_to(dates_view(r), schedule@, recurrence@, identity@),
{
    let source = match occurrences::make_event_source(schedule, recurrence) {
        Some(source) => source,
        None => {
            assert(dates_up_to_by(schedule@, recurrence@, identity@, rules::any_clocks()) is None);
            return None;
        },
    };
    match recurrence_split::bounds_of_split(schedule, identity) {
        Some((lower, upper)) => {
            let r = rules::occurrences(source.as_str(), &lower, &upper, u16::MAX);
            let ghost clocks = choose|clocks: Seq<char>|
                rules::optional_views(r) == #[trigger] rules::occurrences_by(
                    source@,
                    lower@,
                    upper@,
                    u16::MAX,
                    clocks,
                );
            assert(dates_view(r) == dates_up_to_by(schedule@, recurrence@, identity@, clocks));
            r
        },
        None => {
            let accepted = rules::is_valid_rule_set(source.as_str());
            let ghost clocks = choose|clocks: Seq<char>|
                accepted == #[trigger] rules::rule_set_valid(source@, clocks);
            let r = if accepted {
                let none: Vec<DateTime> = Vec::new();
                assert(rules::instant_views(none@) =~= seq![]);
                Some(none)
            } else {
                None
            };
            assert(dates_view(r) == dates_up_to_by(schedule@, recurrence@, identity@, clocks));
            r
        },
    }
}

/// A position as a number.
pub open spec fn position_view(position: Option<usize>) -> Option<int> {
    match position {
        Some(i) => Some(i as int),
        None => None,
    }
}

/// Whether a position was found for an occurrence among those of an event.
pub open spec fn is_position(position: Option<int>, master: EventView, identity: RecurrenceIdView) -> bool {
    match master.recurrence {
        None => position is None,
        Some(recurrence) => exists|dates: Option<Seq<DateTimeView>>|
            #[trigger] are_dates_up_to(dates, master.schedule, recurrence, identity) && position
                == index_among(master.schedule, recurrence, identity, dates),
    }
}

/// The position of an occurrence among those of an event; none where the event has not one rule or
/// does not generate the occurrence.
pub fn generated_occurrence_index(master: &Event, identity: &RecurrenceId) -> (r: Option<usize>)
    ensures
        master.recurrence is None ==> r is None,
        master.recurrence matches Some(recurrence) ==> (occurrences::is_zoned_event(
            master@.schedule,
            recurrence@,
        ) ==> position_view(r) == index_among(
            master@.schedule,
            recurrence@,
            identity@,
            dates_up_to(master@.schedule, recurrence@, identity@),
        )),
        is_position(position_view(r), master@, identity@),
{
    match &master.recurrence {
        None => {
            assert(master@.recurrence is None);
            None
        },
        Some(recurrence) => {
            let dates = find_dates_up_to(&master.schedule, recurrence, identity);
            let ghost views = dates_view(dates);
            assert(master@.recurrence == Some(recurrence@));
            assert(are_dates_up_to(views, master@.schedule, recurrence@, identity@));
            find_index_among(&master.schedule, recurrence, identity, &dates)
        },
    }
}

// ---------------------------------------------------------------------------------------------
// The recurrence that is left
// ---------------------------------------------------------------------------------------------

/// The first readable count of the parts of a rule.
pub open spec fn items_count(items: Seq<Seq<char>>) -> Option<int>
    decreases items.len(),
{
    if items.len() == 0 {
        None
    } else {
        match items_count(items.drop_last()) {
            Some(count) => Some(count),
            None => if recurrence_split::has_key(items.last(), "COUNT"@) {
                text::parsed_number((text::split_once(items.last(), '=')->0).1, u32::MAX as int)
            } else {
                None
            },
        }
    }
}

/// The count that a rule gives.
pub open spec fn rule_count(rule: Seq<char>) -> Option<int> {
    match text::split_once(rule, ':') {
        Some((_, value)) => items_count(text::split(value, ';')),
        None => None,
    }
}

/// The first readable count of the parts of a rule stays the first when more parts follow.
proof fn lemma_items_count_prefix(items: Seq<Seq<char>>, n: int)
    requires
        0 <= n <= items.len(),
        items_count(items.take(n)) is Some,
    ensures
        items_count(items) == items_count(items.take(n)),
    decreases items.len() - n,
{
    if n == items.len() {
        assert(items.take(n) =~= items);
    } else {
        assert(items.take(n + 1).drop_last() =~= items.take(n));
        lemma_items_count_prefix(items, n + 1);
    }
}

/// The count that a rule gives.
pub fn recurrence_rule_count(rule: &str) -> (r: Option<u32>)
    ensures
        match r {
            Some(count) => rule_count(rule@) == Some(count as int),
            None => rule_count(rule@) is None,
        },
{
    let value: Vec<char> = match text::split_chars_once(&text::chars_of(rule), ':') {
        Some((_, value)) => value,
        None => {
            return None;
        },
    };
    let items = text::split_chars(&value, ';');
    let ghost all = text::split(value@, ';');
    for i in 0..items.len()
        invariant
            text::char_views(items@) == all,
            all == text::split(value@, ';'),
            text::split_once(rule@, ':') is Some,
            (text::split_once(rule@, ':')->0).1 == value@,
            items_count(all.take(i as int)) is None,
    {
        proof {
            assert(all[i as int] == items@[i as int]@);
            assert(all.take(i + 1).drop_last() =~= all.take(i as int));
            assert(all.take(i + 1).last() == all[i as int]);
        }
        if let Some((key, number)) = text::split_chars_once(&items[i], '=') {
            if text::same_ignoring_case(&key, "COUNT") {
                if let Some(count) = text::parse_number(&number, u32::MAX as u64) {
                    proof {
                        lemma_items_count_prefix(all, i + 1);
                    }
                    return Some(count as u32);
                }
            }
        }
    }
    assert(all.take(all.len() as int) =~= all);
    None
}

/// What is left of the recurrence of an event when an occurrence and all that follow are deleted:
/// the first part of its split, or, where the last occurrence of a counted rule cannot be split
/// off, the rule with one occurrence less.
pub open spec fn truncated(
    master: EventView,
    split: Result<SplitView, RecurrenceSplitError>,
    index: Option<int>,
) -> Option<RecurrenceView> {
    match split {
        Ok(split) => Some(split.original_recurrence),
        Err(_) => match master.recurrence {
            None => None,
            Some(recurrence) => if recurrence_form::editable_form(
                master.recurrence,
                master.schedule,
            ) is None {
                None
            } else {
                match (rule_count(recurrence.rrule[0]), index) {
                    (Some(total), Some(index)) => if index == 0 || index + 1 != total {
                        None
                    } else {
                        Some(
                            model::rule_recurrence(
                                recurrence_split::rule_with_count_spec(
                                    recurrence.rrule[0],
                                    index as u32,
                                    false,
                                ),
                            ),
                        )
                    },
                    _ => None,
                }
            },
        },
    }
}

/// What is left of the recurrence of an event when an occurrence and all that follow are deleted,
/// given the outcome of its split and the position of the occurrence.
pub fn truncate_given(
    master: &Event,
    split: Result<recurrence_split::RecurrenceSplit, RecurrenceSplitError>,
    index: Option<usize>,
) -> (r: Result<RecurrenceSpec, RepositoryError>)
    ensures
        ({
            let position = match index {
                Some(i) => Some(i as int),
                None => None,
            };
            match r {
                Ok(left) => truncated(master@, recurrence_split::split_view(split), position) == Some(left@),
                Err(_) => truncated(master@, recurrence_split::split_view(split), position) is None,
            }
        }),
{
    if let Ok(split) = split {
        return Ok(split.original_recurrence);
    }
    let recurrence = match &master.recurrence {
        Some(recurrence) => recurrence,
        None => {
            return Err(RepositoryError);
        },
    };
    match recurrence_form::recurrence_presentation(&master.recurrence, &master.schedule) {
        RecurrencePresentation::Editable { .. } => {},
        RecurrencePresentation::Custom { .. } => {
            return Err(RepositoryError);
        },
    }
    let rule = recurrence.rrule[0].as_str();
    let total: u32 = match recurrence_rule_count(rule) {
        Some(total) => total,
        None => {
            return Err(RepositoryError);
        },
    };
    let index: usize = match index {
        Some(index) => index,
        None => {
            return Err(RepositoryError);
        },
    };
    if index == 0 || index >= total as usize || index + 1 != total as usize {
        return Err(RepositoryError);
    }
    Ok(
        RecurrenceSpec::of_rule(
            recurrence_split::split_rule_with_count(rule, index as u32, false),
        ),
    )
}

/// The position of an occurrence among those of an event whose recurrence means the same by all
/// clocks.
pub open spec fn position_of(master: EventView, identity: RecurrenceIdView) -> Option<int> {
    match master.recurrence {
        None => None,
        Some(recurrence) => index_among(
            master.schedule,
            recurrence,
            identity,
            dates_up_to(master.schedule, recurrence, identity),
        ),
    }
}

/// Whether the recurrence of an event says of each of its times which zone it is in, alone and with
/// the dates beside it.
pub open spec fn is_zoned_series(master: EventView) -> bool {
    &&& recurrence_split::is_zoned_split(master)
    &&& master.recurrence matches Some(recurrence) ==> occurrences::is_zoned_event(
        master.schedule,
        recurrence,
    )
}

/// Whether a recurrence is what is left of that of an event when an occurrence and all that follow
/// are deleted. The position of the occurrence counts where the event cannot be split.
pub open spec fn is_left(
    left: Option<RecurrenceView>,
    master: EventView,
    identity: RecurrenceIdView,
) -> bool {
    &&& is_zoned_series(master) ==> left == truncated(
        master,
        recurrence_split::split_result(master, identity),
        position_of(master, identity),
    )
    &&& exists|split: Result<SplitView, RecurrenceSplitError>, index: Option<int>|
        recurrence_split::is_split(split, master, identity) && (split is Ok || is_position(
            index,
            master,
            identity,
        )) && left == #[trigger] truncated(master, split, index)
}

/// The recurrence that is left, where there is one.
pub open spec fn left_view(r: Result<RecurrenceSpec, RepositoryError>) -> Option<RecurrenceView> {
    match r {
        Ok(left) => Some(left@),
        Err(_) => None,
    }
}

/// What is left of the recurrence of an event when an occurrence and all that follow are deleted.
pub fn truncate_recurrence_for_delete(master: &Event, identity: &RecurrenceId) -> (r: Result<
    RecurrenceSpec,
    RepositoryError,
>)
    ensures
        is_left(left_view(r), master@, identity@),
{
    let split = recurrence_split::split_recurrence_at(master, identity);
    let ghost outcome = recurrence_split::split_view(split);
    let index = match &split {
        Ok(_) => None,
        Err(_) => generated_occurrence_index(master, identity),
    };
    let ghost position = position_view(index);
    let r = truncate_given(master, split, index);
    assert(left_view(r) == truncated(master@, outcome, position));
    r
}

/// What is left of a counted recurrence has fewer occurrences than it had.
pub proof fn law_truncated_counts_less(
    master: EventView,
    split: Result<SplitView, RecurrenceSplitError>,
    index: int,
    total: u32,
)
    requires
        split is Err,
        index >= 0,
        master.recurrence matches Some(recurrence) && rule_count(recurrence.rrule[0]) == Some(
            total as int,
        ),
        truncated(master, split, Some(index)) is Some,
    ensures
        recurrence_form::read_rule(
            truncated(master, split, Some(index))->0.rrule[0],
            master.schedule,
            false,
        ) matches Some(form) && form.end matches recurrence_form::EndView::Count(left) && left + 1
            == total,
{
    let rule = master.recurrence->0.rrule[0];
    recurrence_split::law_rule_with_count(rule, index as u32, false, master.schedule, false);
}

// ---------------------------------------------------------------------------------------------
// Which edits are supported
// ---------------------------------------------------------------------------------------------

/// Whether a zone is known, where there is one.
pub open spec fn zone_is_usable(timezone: Option<Seq<char>>) -> bool {
    timezone matches Some(name) ==> zone::zone_known(name)
}

/// Whether an occurrence and all that follow can be given another schedule: it must run forward,
/// keep its kind and its zone, and stay on its day. Where `allow_kind_change` says so, an all-day
/// event may become a timed one in a known zone.
pub open spec fn edit_is_supported(
    master: ScheduleView,
    identity: RecurrenceIdView,
    schedule: ScheduleView,
    allow_kind_change: bool,
) -> bool {
    match (master, identity, schedule) {
        (
            ScheduleView::AllDay { .. },
            RecurrenceIdView::AllDay(_),
            ScheduleView::Timed { timezone, .. },
        ) => allow_kind_change && schedule.runs_forward() && zone_is_usable(timezone),
        (
            ScheduleView::AllDay { .. },
            RecurrenceIdView::AllDay(day),
            ScheduleView::AllDay { start_date, .. },
        ) => start_date@ == day@ && schedule.runs_forward(),
        (
            ScheduleView::Timed { timezone, .. },
            RecurrenceIdView::Timed { date_time, timezone: identity_timezone },
            ScheduleView::Timed { start, timezone: edited_timezone, .. },
        ) => timezone == edited_timezone && schedule.runs_forward() && match timezone {
            Some(name) => zone::zone_known(name) && zone::shown_in(start@, name).local_day()
                == zone::shown_in(date_time@, name).local_day(),
            None => identity_timezone is None && start@.local_day() == date_time@.local_day(),
        },
        _ => false,
    }
}

/// Whether an occurrence and all that follow can be given another schedule.
pub fn edited_schedule_is_supported(
    master: &EventSchedule,
    identity: &RecurrenceId,
    schedule: &EventSchedule,
    allow_kind_change: bool,
) -> (r: bool)
    ensures
        r == edit_is_supported(master@, identity@, schedule@, allow_kind_change),
{
    if !schedule.runs_forward() {
        return false;
    }
    match (master, identity, schedule) {
        (
            EventSchedule::AllDay { .. },
            RecurrenceId::AllDay(_),
            EventSchedule::Timed { timezone, .. },
        ) => allow_kind_change && match timezone {
            Some(name) => zone::is_known(name.as_str()),
            None => true,
        },
        (
            EventSchedule::AllDay { .. },
            RecurrenceId::AllDay(day),
            EventSchedule::AllDay { start_date, .. },
        ) => start_date.same(day),
        (
            EventSchedule::Timed { timezone, .. },
            RecurrenceId::Timed { date_time, timezone: identity_timezone },
            EventSchedule::Timed { start, timezone: edited_timezone, .. },
        ) => {
            if !model::same_optional_text(timezone, edited_timezone) {
                return false;
            }
            match timezone {
                Some(name) => match (
                    zone::in_zone(start, name.as_str()),
                    zone::in_zone(date_time, name.as_str()),
                ) {
                    (Some(a), Some(b)) => a.local_date().same(&b.local_date()),
                    _ => false,
                },
                None => identity_timezone.is_none() && start.local_date().same(
                    &date_time.local_date(),
                ),
            }
        },
        _ => false,
    }
}

/// Whether a recurrence is one that the simple editor can show.
pub fn future_recurrence_is_supported(schedule: &EventSchedule, recurrence: &RecurrenceSpec) -> (r: bool)
    ensures
        r == recurrence_form::editable_form(Some(recurrence@), schedule@) is Some,
{
    let given = Some(recurrence.clone());
    match recurrence_form::recurrence_presentation(&given, schedule) {
        RecurrencePresentation::Editable { .. } => true,
        RecurrencePresentation::Custom { .. } => false,
    }
}

// ---------------------------------------------------------------------------------------------
// Exceptions that move along
// ---------------------------------------------------------------------------------------------

/// An exception under another identity.
pub open spec fn rebased(detached: DetachedView, identity: RecurrenceIdView) -> DetachedView {
    match detached {
        DetachedView::Modified { title, location, description, schedule, reminders, .. } => DetachedView::Modified {
            recurrence_id: identity,
            title,
            location,
            description,
            schedule,
            reminders,
        },
        DetachedView::Cancelled { .. } => DetachedView::Cancelled { recurrence_id: identity },
    }
}

/// An exception under another identity.
pub fn rebase_detached_event(detached: &DetachedEvent, identity: RecurrenceId) -> (r: DetachedEvent)
    ensures
        r@ == rebased(detached@, identity@),
{
    match detached {
        DetachedEvent::Modified { title, location, description, schedule, reminders, .. } => DetachedEvent::Modified {
            recurrence_id: identity,
            title: title.clone(),
            location: location.clone(),
            description: description.clone(),
            schedule: schedule.clone(),
            reminders: model::copy_reminders(reminders),
        },
        DetachedEvent::Cancelled { .. } => DetachedEvent::Cancelled { recurrence_id: identity },
    }
}

/// An exception keeps everything but its identity.
pub proof fn law_rebase_keeps_the_rest(
    detached: DetachedView,
    identity: RecurrenceIdView,
    other: RecurrenceIdView,
)
    ensures
        rebased(detached, identity).identity() == identity,
        rebased(rebased(detached, identity), other) == rebased(detached, other),
        rebased(detached, detached.identity()) == detached,
{
}

/// The day of an exception, in the zone of its event.
pub open spec fn exception_day(master: ScheduleView, identity: RecurrenceIdView) -> Option<int> {
    match (master, identity) {
        (ScheduleView::AllDay { .. }, RecurrenceIdView::AllDay(day)) => Some(day@),
        (
            ScheduleView::Timed { timezone, .. },
            RecurrenceIdView::Timed { date_time, timezone: other },
        ) => if timezone != other {
            None
        } else {
            match timezone {
                Some(name) => if zone::zone_known(name) {
                    Some(zone::shown_in(date_time@, name).local_day())
                } else {
                    None
                },
                None => Some(date_time@.local_day()),
            }
        },
        _ => None,
    }
}

/// The day of an exception, in the zone of its event.
pub fn detached_recurrence_date(master: &EventSchedule, identity: &RecurrenceId) -> (r: Option<Date>)
    ensures
        match r {
            Some(day) => exception_day(master@, identity@) == Some(day@),
            None => exception_day(master@, identity@) is None,
        },
{
    match (master, identity) {
        (EventSchedule::AllDay { .. }, RecurrenceId::AllDay(day)) => Some(*day),
        (
            EventSchedule::Timed { timezone, .. },
            RecurrenceId::Timed { date_time, timezone: other },
        ) => {
            if !model::same_optional_text(timezone, other) {
                return None;
            }
            match timezone {
                Some(name) => match zone::in_zone(date_time, name.as_str()) {
                    Some(shown) => Some(shown.local_date()),
                    None => None,
                },
                None => Some(date_time.local_date()),
            }
        },
        _ => None,
    }
}

/// An instant as the clocks of a zone show it, in UTC where there is no zone.
pub open spec fn shown(v: DateTimeView, timezone: Option<Seq<char>>) -> DateTimeView {
    match timezone {
        Some(name) => zone::shown_in(v, name),
        None => v.at_offset(0),
    }
}

/// Midnight.
pub open spec fn start_of_day() -> Time {
    Time { seconds: 0, nanos: 0 }
}

/// The instant at which a day begins in a zone, in UTC where there is none; none where the zone is
/// unknown or its clocks show midnight of that day not once.
pub open spec fn day_begin(day: int, timezone: Option<Seq<char>>) -> Option<DateTimeView> {
    match timezone {
        Some(name) => if zone::zone_known(name) {
            zone::local_instant(name, day, start_of_day())
        } else {
            None
        },
        None => if recurrence_split::midnight(day).valid() {
            Some(recurrence_split::midnight(day))
        } else {
            None
        },
    }
}

/// The instants a second before a day begins and a second after it ends.
pub open spec fn day_bounds(day: int, timezone: Option<Seq<char>>) -> Option<(DateTime, DateTime)> {
    if !date::is_day(day + 1) {
        None
    } else {
        match (day_begin(day, timezone), day_begin(day + 1, timezone)) {
            (Some(begin), Some(end)) => match (
                date::later(date::date_time_of(begin), recurrence_split::minus_one_second()),
                date::later(date::date_time_of(end), recurrence_split::one_second()),
            ) {
                (Some(lower), Some(upper)) => Some((lower, upper)),
                _ => None,
            },
            _ => None,
        }
    }
}

/// The earliest of some instants that falls on a day, as a zone shows it.
pub open spec fn earliest_on(
    instants: Seq<DateTimeView>,
    day: int,
    timezone: Option<Seq<char>>,
) -> Option<DateTimeView>
    decreases instants.len(),
{
    if instants.len() == 0 {
        None
    } else {
        let best = earliest_on(instants.drop_last(), day, timezone);
        let last = instants.last();
        if shown(last, timezone).local_day() != day {
            best
        } else {
            match best {
                None => Some(last),
                Some(v) => if last.before(v) {
                    Some(last)
                } else {
                    best
                },
            }
        }
    }
}

/// The earliest instant of a day falls on it, is one of the instants, and none on that day comes
/// before it.
pub proof fn lemma_earliest_on(
    instants: Seq<DateTimeView>,
    day: int,
    timezone: Option<Seq<char>>,
    other: int,
)
    requires
        0 <= other < instants.len(),
        shown(instants[other], timezone).local_day() == day,
    ensures
        earliest_on(instants, day, timezone) matches Some(v) && shown(v, timezone).local_day() == day
            && instants.contains(v) && !instants[other].before(v),
    decreases instants.len(),
{
    let before = instants.drop_last();
    if other < before.len() {
        assert(before[other] == instants[other]);
        lemma_earliest_on(before, day, timezone, other);
        let v = earliest_on(before, day, timezone)->0;
        let k = choose|k: int| 0 <= k < before.len() && before[k] == v;
        assert(instants[k] == v);
    } else if earliest_on(before, day, timezone) is Some {
        lemma_earliest_member(before, day, timezone);
        let v = earliest_on(before, day, timezone)->0;
        let k = choose|k: int| 0 <= k < before.len() && before[k] == v;
        assert(instants[k] == v);
    }
    assert(instants[instants.len() - 1] == instants.last());
}

proof fn lemma_earliest_member(instants: Seq<DateTimeView>, day: int, timezone: Option<Seq<char>>)
    requires
        earliest_on(instants, day, timezone) is Some,
    ensures
        instants.contains(earliest_on(instants, day, timezone)->0),
        shown(earliest_on(instants, day, timezone)->0, timezone).local_day() == day,
    decreases instants.len(),
{
    let before = instants.drop_last();
    assert(instants[instants.len() - 1] == instants.last());
    if earliest_on(before, day, timezone) is Some {
        lemma_earliest_member(before, day, timezone);
        let v = earliest_on(before, day, timezone)->0;
        let k = choose|k: int| 0 <= k < before.len() && before[k] == v;
        assert(instants[k] == v);
    }
}

/// The occurrences of a day and its neighbourhood: those that the text gives, and the start of the
/// event where it lies there too.
pub open spec fn day_candidates(
    start: DateTimeView,
    timezone: Option<Seq<char>>,
    bounds: (DateTime, DateTime),
    dates: Seq<DateTimeView>,
) -> Seq<DateTimeView> {
    if !start.before(bounds.0@) && !bounds.1@.before(start) {
        dates.push(shown(start, timezone))
    } else {
        dates
    }
}

/// The identity of the occurrence of a timed event on a day, where `dates` are the occurrences
/// around that day that its text gives; nothing is given where the text is not accepted.
pub open spec fn timed_identity_on(
    schedule: ScheduleView,
    day: int,
    dates: Option<Seq<DateTimeView>>,
) -> Option<RecurrenceIdView> {
    match (schedule, dates) {
        (ScheduleView::Timed { start, timezone, .. }, Some(dates)) => match (
            day_bounds(day, timezone),
            occurrences::event_source_known(timezone),
        ) {
            (Some(bounds), true) => match earliest_on(
                day_candidates(start@, timezone, bounds, dates),
                day,
                timezone,
            ) {
                Some(v) => Some(
                    RecurrenceIdView::Timed { date_time: date::date_time_of(v), timezone },
                ),
                None => None,
            },
            _ => None,
        },
        _ => None,
    }
}

/// The instant at which a day begins in a zone, in UTC where there is none.
fn begin_of_day(day: &Date, timezone: &Option<String>) -> (r: Option<DateTime>)
    ensures
        match r {
            Some(begin) => day_begin(day@, model::text_view(*timezone)) == Some(begin@),
            None => day_begin(day@, model::text_view(*timezone)) is None,
        },
        date::is_day(day@),
{
    let known: i32 = day.days();
    match timezone {
        Some(name) => {
            if !zone::is_known(name.as_str()) {
                return None;
            }
            zone::instant_in_zone(name.as_str(), day, Time { seconds: 0, nanos: 0 })
        },
        None => recurrence_split::midnight_of(day),
    }
}

/// The instants a second before a day begins and a second after it ends.
fn bounds_of_day(day: &Date, timezone: &Option<String>) -> (r: Option<(DateTime, DateTime)>)
    ensures
        r == day_bounds(day@, model::text_view(*timezone)),
{
    let next = match day.succ_opt() {
        Some(next) => next,
        None => {
            return None;
        },
    };
    match (begin_of_day(day, timezone), begin_of_day(&next, timezone)) {
        (Some(begin), Some(end)) => {
            proof {
                date::lemma_date_time_of_view(begin);
                date::lemma_date_time_of_view(end);
            }
            match (
                begin.plus(date::Span { seconds: -1, nanos: 0 }),
                end.plus(date::Span { seconds: 1, nanos: 0 }),
            ) {
                (Some(lower), Some(upper)) => Some((lower, upper)),
                _ => None,
            }
        },
        _ => None,
    }
}

/// An instant as the clocks of a zone show it, in UTC where there is none; none where the zone is
/// unknown.
fn show(instant: &DateTime, timezone: &Option<String>) -> (r: Option<DateTime>)
    ensures
        match r {
            Some(seen) => seen@ == shown(instant@, model::text_view(*timezone))
                && occurrences::event_source_known(model::text_view(*timezone)),
            None => !occurrences::event_source_known(model::text_view(*timezone)),
        },
{
    match timezone {
        Some(name) => zone::in_zone(instant, name.as_str()),
        None => Some(instant.with_offset(0)),
    }
}

/// The earliest of some instants that falls on a day, as a known zone shows it.
fn find_earliest_on(instants: &Vec<DateTime>, day: &Date, timezone: &Option<String>) -> (r: Option<
    DateTime,
>)
    requires
        occurrences::event_source_known(model::text_view(*timezone)),
    ensures
        match r {
            Some(v) => earliest_on(
                rules::instant_views(instants@),
                day@,
                model::text_view(*timezone),
            ) == Some(v@),
            None => earliest_on(
                rules::instant_views(instants@),
                day@,
                model::text_view(*timezone),
            ) is None,
        },
{
    let ghost all = rules::instant_views(instants@);
    let ghost name = model::text_view(*timezone);
    let mut best: Option<DateTime> = None;
    assert(all.take(0) =~= seq![]);
    for i in 0..instants.len()
        invariant
            all == rules::instant_views(instants@),
            name == model::text_view(*timezone),
            occurrences::event_source_known(name),
            match best {
                Some(v) => earliest_on(all.take(i as int), day@, name) == Some(v@),
                None => earliest_on(all.take(i as int), day@, name) is None,
            },
    {
        proof {
            assert(all[i as int] == instants@[i as int]@);
            assert(all.take(i + 1).drop_last() =~= all.take(i as int));
            assert(all.take(i + 1).last() == all[i as int]);
        }
        if let Some(seen) = show(&instants[i], timezone) {
            if seen.local_date().same(day) {
                let better = match &best {
                    None => true,
                    Some(v) => instants[i].before(v),
                };
                if better {
                    best = Some(instants[i]);
                }
            }
        }
    }
    assert(all.take(all.len() as int) =~= all);
    best
}

/// The identity of the occurrence of a timed event on a day, given the occurrences around that day
/// that its text gives.
pub fn timed_identity_among(schedule: &EventSchedule, day: &Date, dates: &Option<Vec<DateTime>>) -> (r:
    Option<RecurrenceId>)
    ensures
        match r {
            Some(identity) => timed_identity_on(schedule@, day@, dates_view(*dates)) == Some(
                identity@,
            ),
            None => timed_identity_on(schedule@, day@, dates_view(*dates)) is None,
        },
{
    match (schedule, dates) {
        (EventSchedule::Timed { start, timezone, .. }, Some(dates)) => {
            let (lower, upper): (DateTime, DateTime) = match bounds_of_day(day, timezone) {
                Some(bounds) => bounds,
                None => {
                    return None;
                },
            };
            let first = match show(start, timezone) {
                Some(first) => first,
                None => {
                    return None;
                },
            };
            let mut candidates: Vec<DateTime> = Vec::new();
            for i in 0..dates.len()
                invariant
                    candidates@ == dates@.take(i as int),
            {
                candidates.push(dates[i]);
                assert(dates@.take(i + 1) =~= dates@.take(i as int).push(dates@[i as int]));
            }
            assert(dates@.take(dates@.len() as int) =~= dates@);
            if !start.before(&lower) && !upper.before(start) {
                candidates.push(first);
            }
            proof {
                assert(rules::instant_views(candidates@) =~= day_candidates(
                    start@,
                    model::text_view(*timezone),
                    (lower, upper),
                    rules::instant_views(dates@),
                ));
            }
            match find_earliest_on(&candidates, day, timezone) {
                Some(v) => {
                    proof {
                        date::lemma_date_time_of_view(v);
                    }
                    Some(
                        RecurrenceId::Timed {
                            date_time: v,
                            timezone: model::copy_text(timezone),
                        },
                    )
                },
                None => None,
            }
        },
        _ => None,
    }
}

/// The occurrences around a day that the text of an event gives by the clocks of a machine.
pub open spec fn dates_around_by(
    schedule: ScheduleView,
    recurrence: RecurrenceView,
    day: int,
    clocks: Seq<char>,
) -> Option<Seq<DateTimeView>> {
    match (occurrences::event_source(schedule, recurrence), schedule) {
        (Some(source), ScheduleView::Timed { timezone, .. }) => match day_bounds(day, timezone) {
            Some((lower, upper)) => rules::occurrences_by(source, lower@, upper@, u16::MAX, clocks),
            None => None,
        },
        _ => None,
    }
}

/// The occurrences around a day that the text of an event gives where it means the same by all
/// clocks.
pub open spec fn dates_around(schedule: ScheduleView, recurrence: RecurrenceView, day: int) -> Option<
    Seq<DateTimeView>,
> {
    dates_around_by(schedule, recurrence, day, rules::any_clocks())
}

/// Whether an identity is that of the occurrence of a timed recurring event on a day.
pub open spec fn is_timed_identity(identity: Option<RecurrenceIdView>, future: EventView, day: int) -> bool {
    match future.recurrence {
        None => identity is None,
        Some(recurrence) => {
            &&& occurrences::is_zoned_event(future.schedule, recurrence) ==> identity
                == timed_identity_on(
                future.schedule,
                day,
                dates_around(future.schedule, recurrence, day),
            )
            &&& exists|clocks: Seq<char>|
                identity == timed_identity_on(
                    future.schedule,
                    day,
                    #[trigger] dates_around_by(future.schedule, recurrence, day, clocks),
                )
        },
    }
}

/// An identity that was found, where there is one.
pub open spec fn identity_view(r: Result<RecurrenceId, RepositoryError>) -> Option<RecurrenceIdView> {
    match r {
        Ok(identity) => Some(identity@),
        Err(_) => None,
    }
}

/// The identity of the occurrence of a timed recurring event on a day.
pub fn future_timed_recurrence_id_for_date(future: &Event, day: &Date) -> (r: Result<
    RecurrenceId,
    RepositoryError,
>)
    ensures
        is_timed_identity(identity_view(r), future@, day@),
{
    let recurrence = match &future.recurrence {
        Some(recurrence) => recurrence,
        None => {
            return Err(RepositoryError);
        },
    };
    let mut dates: Option<Vec<DateTime>> = None;
    let ghost mut clocks = rules::any_clocks();
    if let EventSchedule::Timed { timezone, .. } = &future.schedule {
        if let Some(source) = occurrences::make_event_source(&future.schedule, recurrence) {
            if let Some((lower, upper)) = bounds_of_day(day, timezone) {
                dates = rules::occurrences(source.as_str(), &lower, &upper, u16::MAX);
                proof {
                    clocks = choose|clocks: Seq<char>|
                        rules::optional_views(dates) == #[trigger] rules::occurrences_by(
                            source@,
                            lower@,
                            upper@,
                            u16::MAX,
                            clocks,
                        );
                }
            }
        }
    }
    assert(future@.recurrence == Some(recurrence@));
    assert(dates_view(dates) == dates_around_by(future@.schedule, recurrence@, day@, clocks));
    match timed_identity_among(&future.schedule, day, &dates) {
        Some(identity) => Ok(identity),
        None => Err(RepositoryError),
    }
}

/// The identity that an exception has under the event that takes over from its own: its day, at the
/// hour of the new event where that is timed. `timed` is the identity on that day of a timed event.
pub open spec fn rebased_identity(
    future: ScheduleView,
    day: Option<int>,
    timed: Option<RecurrenceIdView>,
) -> Option<RecurrenceIdView> {
    match (future, day) {
        (ScheduleView::AllDay { .. }, Some(day)) => Some(
            RecurrenceIdView::AllDay(date::date_of(day)),
        ),
        (ScheduleView::Timed { .. }, Some(_)) => timed,
        _ => None,
    }
}

/// The identity that an exception has under a recurring event that takes over from its own, where
/// that event generates it.
pub open spec fn rebase_outcome(
    master: ScheduleView,
    future: ScheduleView,
    recurrence: RecurrenceView,
    identity: RecurrenceIdView,
) -> Option<RecurrenceIdView> {
    let day = exception_day(master, identity);
    let timed = match day {
        Some(day) => timed_identity_on(future, day, dates_around(future, recurrence, day)),
        None => None,
    };
    match rebased_identity(future, day, timed) {
        Some(candidate) => if occurrences::is_generated(
            future,
            candidate,
            occurrences::neighbours_of(future, recurrence, candidate),
        ) {
            Some(candidate)
        } else {
            None
        },
        None => None,
    }
}

/// Whether an identity is the one that an exception would have under the event that takes over from
/// its own, whether or not that event generates it.
pub open spec fn is_candidate(
    candidate: Option<RecurrenceIdView>,
    master: ScheduleView,
    future: EventView,
    identity: RecurrenceIdView,
) -> bool {
    match exception_day(master, identity) {
        None => candidate is None,
        Some(day) => match future.schedule {
            ScheduleView::AllDay { .. } => candidate == Some(
                RecurrenceIdView::AllDay(date::date_of(day)),
            ),
            ScheduleView::Timed { .. } => is_timed_identity(candidate, future, day),
        },
    }
}

/// Whether an identity is what is left of a candidate: that one, where the event generates it.
pub open spec fn is_settled(
    rebased: Option<RecurrenceIdView>,
    candidate: Option<RecurrenceIdView>,
    future: EventView,
) -> bool {
    match candidate {
        None => rebased is None,
        Some(candidate) => {
            ||| rebased == Some(candidate) && occurrences::is_finding(true, future, candidate)
            ||| rebased is None && occurrences::is_finding(false, future, candidate)
        },
    }
}

/// Whether an identity is the one that an exception has under the event that takes over from its own;
/// none where that event does not generate it.
pub open spec fn is_rebased(
    rebased: Option<RecurrenceIdView>,
    master: ScheduleView,
    future: EventView,
    identity: RecurrenceIdView,
) -> bool {
    exists|candidate: Option<RecurrenceIdView>|
        #[trigger] is_candidate(candidate, master, future, identity) && is_settled(
            rebased,
            candidate,
            future,
        )
}

/// The identity that an exception has under the event that takes over from its own; refused where
/// that event does not generate it.
pub fn rebase_following_recurrence_id(master: &Event, future: &Event, identity: &RecurrenceId) -> (r:
    Result<RecurrenceId, RepositoryError>)
    ensures
        is_rebased(identity_view(r), master@.schedule, future@, identity@),
        future.recurrence matches Some(recurrence) ==> (occurrences::is_zoned_event(
            future@.schedule,
            recurrence@,
        ) ==> identity_view(r) == rebase_outcome(
            master@.schedule,
            future@.schedule,
            recurrence@,
            identity@,
        )),
{
    let ghost mut candidate_view: Option<RecurrenceIdView> = None;
    let day = match detached_recurrence_date(&master.schedule, identity) {
        Some(day) => day,
        None => {
            assert(is_candidate(candidate_view, master@.schedule, future@, identity@));
            return Err(RepositoryError);
        },
    };
    let candidate = match &future.schedule {
        EventSchedule::AllDay { .. } => {
            proof {
                date::lemma_date_of_day(day);
            }
            RecurrenceId::AllDay(day)
        },
        EventSchedule::Timed { .. } => match future_timed_recurrence_id_for_date(future, &day) {
            Ok(timed) => timed,
            Err(error) => {
                assert(is_candidate(candidate_view, master@.schedule, future@, identity@));
                return Err(error);
            },
        },
    };
    proof {
        candidate_view = Some(candidate@);
        assert(is_candidate(candidate_view, master@.schedule, future@, identity@));
    }
    if occurrences::occurrence_is_generated(future, &candidate) {
        Ok(candidate)
    } else {
        Err(RepositoryError)
    }
}

/// The position of an occurrence in its series is how many come before it: the start of the event and
/// those that its recurrence gives, each once and in order. An occurrence at or before the start is
/// the first.
pub proof fn law_position_counts_what_comes_before(
    schedule: ScheduleView,
    recurrence: RecurrenceView,
    identity: RecurrenceIdView,
    dates: Seq<DateTimeView>,
)
    requires
        recurrence.rrule.len() == 1,
        recurrence.rrule[0].len() > 0,
        occurrences::event_source(schedule, recurrence) is Some,
        (schedule is AllDay) == (identity is AllDay),
    ensures
        ({
            let first = recurrence_split::start_instant(schedule);
            let found = index_among(schedule, recurrence, identity, Some(dates));
            &&& !first.before(recurrence_split::identity_instant(identity)) ==> found == Some(0int)
            &&& first.before(recurrence_split::identity_instant(identity)) && found is Some
                ==> exists|all: Seq<DateTimeView>|
                {
                    &&& #[trigger] recurrence_split::is_in_order(all)
                    &&& 0 <= found->0 < all.len()
                    &&& recurrence_split::occurrence_is(all[found->0], identity, schedule)
                    &&& forall|k: int|
                        0 <= k < found->0 ==> !recurrence_split::occurrence_is(
                            #[trigger] all[k],
                            identity,
                            schedule,
                        )
                    &&& forall|w: DateTimeView| #[trigger]
                        recurrence_split::holds_instant(all, w) <==> first.same_instant(w)
                            || recurrence_split::holds_instant(dates, w)
                }
        }),
        index_among(schedule, recurrence, identity, None) is None,
{
    let first = recurrence_split::start_instant(schedule);
    let all = recurrence_split::in_order(first, dates);
    recurrence_split::law_occurrences_in_order(first, dates, first);
    assert forall|w: DateTimeView| #[trigger] recurrence_split::holds_instant(all, w)
        <==> first.same_instant(w) || recurrence_split::holds_instant(dates, w) by {
        recurrence_split::law_occurrences_in_order(first, dates, w);
    }
    recurrence_split::lemma_position(all, identity, schedule);
    assert(recurrence_split::is_in_order(all));
}

/// What is left of a series is the part before the split. Without one, it is left shorter only where
/// the chosen occurrence is the last of a counted rule and not the first.
pub proof fn law_what_is_left_of_a_series(
    master: EventView,
    split: Result<SplitView, RecurrenceSplitError>,
    index: Option<int>,
)
    ensures
        split matches Ok(parts) ==> truncated(master, split, index) == Some(parts.original_recurrence),
        split is Err && master.recurrence is None ==> truncated(master, split, index) is None,
        split is Err && index is None ==> truncated(master, split, index) is None,
        split is Err && index == Some(0int) ==> truncated(master, split, index) is None,
        split is Err && truncated(master, split, index) is Some ==> rule_count(
            (master.recurrence->0).rrule[0],
        ) == Some(index->0 + 1) && truncated(master, split, index)->0.rrule.len() == 1 && truncated(
            master,
            split,
            index,
        )->0.rdate.len() == 0 && truncated(master, split, index)->0.exdate.len() == 0,
{
}

/// An occurrence and all that follow can be given a new schedule that runs forward and begins on the
/// day of the occurrence, in the zone of the event. Only with a rule of its own may an event on whole
/// days get times, in a zone that is known; one with times never gets whole days.
pub proof fn law_supported_edits(
    master: ScheduleView,
    identity: RecurrenceIdView,
    schedule: ScheduleView,
    allow_kind_change: bool,
)
    ensures
        edit_is_supported(master, identity, schedule, allow_kind_change) ==> schedule.runs_forward()
            && (master is AllDay <==> identity is AllDay),
        master is Timed && schedule is AllDay ==> !edit_is_supported(
            master,
            identity,
            schedule,
            allow_kind_change,
        ),
        master is AllDay && schedule is Timed && !allow_kind_change ==> !edit_is_supported(
            master,
            identity,
            schedule,
            allow_kind_change,
        ),
        master is AllDay && identity is AllDay && schedule is Timed && allow_kind_change
            && schedule.runs_forward() ==> (edit_is_supported(
            master,
            identity,
            schedule,
            allow_kind_change,
        ) <==> (schedule->timezone is None || zone::zone_known(schedule->timezone->0))),
        identity matches RecurrenceIdView::AllDay(day) ==> master is AllDay && schedule is AllDay ==> (
        edit_is_supported(master, identity, schedule, allow_kind_change) <==> schedule.runs_forward()
            && schedule->start_date@ == day@),
        master is Timed && schedule is Timed && identity is Timed && schedule.runs_forward() ==> {
            &&& master->timezone != schedule->timezone ==> !edit_is_supported(
                master,
                identity,
                schedule,
                allow_kind_change,
            )
            &&& master->timezone is None && schedule->timezone is None && identity->timezone is None
                ==> (edit_is_supported(master, identity, schedule, allow_kind_change)
                <==> schedule->start@.local_day() == identity->date_time@.local_day())
            &&& master->timezone is Some && schedule->timezone == master->timezone && zone::zone_known(
                master->timezone->0,
            ) ==> (edit_is_supported(master, identity, schedule, allow_kind_change)
                <==> zone::shown_in(schedule->start@, master->timezone->0).local_day()
                == zone::shown_in(identity->date_time@, master->timezone->0).local_day())
        },
{
}

/// The occurrence of a day that is chosen is one of those on that day, by the clocks of its zone, and
/// none of them is earlier; there is one wherever some falls on the day.
pub proof fn law_earliest_of_a_day(instants: Seq<DateTimeView>, day: int, timezone: Option<Seq<char>>)
    ensures
        earliest_on(instants, day, timezone) matches Some(v) ==> instants.contains(v) && shown(
            v,
            timezone,
        ).local_day() == day && forall|i: int|
            0 <= i < instants.len() && shown(#[trigger] instants[i], timezone).local_day() == day
                ==> !instants[i].before(v),
        earliest_on(instants, day, timezone) is None ==> forall|i: int|
            0 <= i < instants.len() ==> shown(#[trigger] instants[i], timezone).local_day() != day,
    decreases instants.len(),
{
    if instants.len() > 0 {
        let before = instants.drop_last();
        law_earliest_of_a_day(before, day, timezone);
        let last = instants.len() - 1;
        if earliest_on(before, day, timezone) is Some {
            let v = earliest_on(before, day, timezone)->0;
            let k = choose|k: int| 0 <= k < before.len() && before[k] == v;
            assert(instants[k] == v);
        }
        assert(instants[last] == instants.last());
        assert forall|i: int| 0 <= i < last implies #[trigger] instants[i] == before[i] by {}
        if let Some(v) = earliest_on(instants, day, timezone) {
            assert forall|i: int|
                0 <= i < instants.len() && shown(#[trigger] instants[i], timezone).local_day()
                    == day implies !instants[i].before(v) by {
                if i < last {
                    assert(instants[i] == before[i]);
                }
            }
        } else {
            assert forall|i: int| 0 <= i < instants.len() implies shown(
                #[trigger] instants[i],
                timezone,
            ).local_day() != day by {
                if i < last {
                    assert(instants[i] == before[i]);
                }
            }
        }
    }
}

/// The interval in which the occurrences of a day are asked for holds the whole day, for an event
/// without a zone the day in UTC.
pub proof fn law_bounds_of_a_day_hold_the_day(day: int, v: DateTimeView)
    requires
        day_bounds(day, None) is Some,
        v.at_offset(0).local_day() == day,
        0 <= v.nanos < 1000000000,
    ensures
        (day_bounds(day, None)->0).0@.before(v),
        v.before((day_bounds(day, None)->0).1@),
{
    let begin = recurrence_split::midnight(day);
    let end = recurrence_split::midnight(day + 1);
    date::lemma_date_time_of(begin);
    date::lemma_date_time_of(end);
    date::lemma_later(date::date_time_of(begin), recurrence_split::minus_one_second());
    date::lemma_later(date::date_time_of(end), recurrence_split::one_second());
}

/// An exception keeps its day when its series is moved: on whole days it names that day, and with
/// times an occurrence of the new series on that day, in the zone of the series. The day is that of
/// the clocks of the zone of the old series.
pub proof fn law_exception_keeps_its_day(
    master: ScheduleView,
    future: ScheduleView,
    identity: RecurrenceIdView,
    dates: Option<Seq<DateTimeView>>,
)
    ensures
        identity matches RecurrenceIdView::AllDay(day) ==> exception_day(master, identity) == if master
            is AllDay {
            Some(day@)
        } else {
            None
        },
        identity matches RecurrenceIdView::Timed { date_time, timezone } ==> exception_day(
            master,
            identity,
        ) == match master {
            ScheduleView::AllDay { .. } => None,
            ScheduleView::Timed { timezone: zone, .. } => if zone != timezone {
                None
            } else if zone is None {
                Some(date_time@.local_day())
            } else if zone::zone_known(zone->0) {
                Some(zone::shown_in(date_time@, zone->0).local_day())
            } else {
                None
            },
        },
        forall|day: int|
            {
                &&& future is AllDay && date::is_day(day) ==> (#[trigger] rebased_identity(
                    future,
                    Some(day),
                    timed_identity_on(future, day, dates),
                ) matches Some(RecurrenceIdView::AllDay(kept)) && kept@ == day)
                &&& (future is Timed && (forall|i: int|
                    0 <= i < dates->0.len() ==> (#[trigger] dates->0[i]).valid()) && shown(
                    future->start@,
                    future->timezone,
                ).valid()) ==> (rebased_identity(
                    future,
                    Some(day),
                    timed_identity_on(future, day, dates),
                ) matches Some(moved) ==> moved matches RecurrenceIdView::Timed { date_time, timezone }
                    && timezone == future->timezone && shown(date_time@, timezone).local_day() == day)
            },
        rebased_identity(future, None, timed_identity_on(future, 0, dates)) is None,
{
    assert forall|day: int|
        {
            &&& future is AllDay && date::is_day(day) ==> (#[trigger] rebased_identity(
                future,
                Some(day),
                timed_identity_on(future, day, dates),
            ) matches Some(RecurrenceIdView::AllDay(kept)) && kept@ == day)
            &&& (future is Timed && (forall|i: int|
                0 <= i < dates->0.len() ==> (#[trigger] dates->0[i]).valid()) && shown(
                future->start@,
                future->timezone,
            ).valid()) ==> (rebased_identity(
                future,
                Some(day),
                timed_identity_on(future, day, dates),
            ) matches Some(moved) ==> moved matches RecurrenceIdView::Timed { date_time, timezone }
                && timezone == future->timezone && shown(date_time@, timezone).local_day() == day)
        } by {
        if future is AllDay && date::is_day(day) {
            date::lemma_date_of(day);
        }
        if future is Timed && (forall|i: int|
            0 <= i < dates->0.len() ==> (#[trigger] dates->0[i]).valid()) && shown(
            future->start@,
            future->timezone,
        ).valid() && rebased_identity(future, Some(day), timed_identity_on(future, day, dates)) is Some {
            let zone = future->timezone;
            let bounds = day_bounds(day, zone)->0;
            let found = day_candidates(future->start@, zone, bounds, dates->0);
            law_earliest_of_a_day(found, day, zone);
            let v = earliest_on(found, day, zone)->0;
            let k = choose|k: int| 0 <= k < found.len() && found[k] == v;
            if k < dates->0.len() {
                assert(found[k] == dates->0[k]);
            }
            date::lemma_date_time_of(v);
        }
    }
}

/// The dates up to an occurrence are all that the rule of the series gives between the bounds of the
/// split, whatever their number; there are none where the identity does not fit.
pub proof fn law_dates_up_to_an_occurrence(
    schedule: ScheduleView,
    recurrence: RecurrenceView,
    identity: RecurrenceIdView,
    clocks: Seq<char>,
    source: Seq<char>,
)
    ensures
        occurrences::event_source(schedule, recurrence) is None ==> dates_up_to_by(
            schedule,
            recurrence,
            identity,
            clocks,
        ) is None,
        occurrences::event_source(schedule, recurrence) == Some(source) ==> {
            &&& !rules::rule_set_valid(source, clocks) ==> dates_up_to_by(
                schedule,
                recurrence,
                identity,
                clocks,
            ) is None
            &&& rules::rule_set_valid(source, clocks) && recurrence_split::split_bounds(schedule, identity)
                is None ==> dates_up_to_by(schedule, recurrence, identity, clocks) == Some(
                Seq::<DateTimeView>::empty(),
            )
            &&& recurrence_split::split_bounds(schedule, identity) matches Some(bounds) ==> dates_up_to_by(
                schedule,
                recurrence,
                identity,
                clocks,
            ) == rules::occurrences_by(source, bounds.0@, bounds.1@, 65535, clocks)
        },
{
}

/// The position of an occurrence is told of a series that repeats, from the dates up to it.
pub proof fn law_position_in_a_series(master: EventView, identity: RecurrenceIdView)
    ensures
        master.recurrence is None ==> position_of(master, identity) is None,
        master.recurrence matches Some(recurrence) ==> position_of(master, identity) == index_among(
            master.schedule,
            recurrence,
            identity,
            dates_up_to_by(master.schedule, recurrence, identity, rules::any_clocks()),
        ),
{
}

/// The occurrence on a day is looked for among all that the rule gives within the bounds of the day, in
/// the zone of the series.
pub proof fn law_dates_around_a_day(
    schedule: ScheduleView,
    recurrence: RecurrenceView,
    day: int,
    clocks: Seq<char>,
    source: Seq<char>,
)
    requires
        occurrences::event_source(schedule, recurrence) == Some(source),
    ensures
        schedule is AllDay ==> dates_around_by(schedule, recurrence, day, clocks) is None,
        schedule matches ScheduleView::Timed { timezone, .. } ==> match day_bounds(day, timezone) {
            Some(bounds) => dates_around_by(schedule, recurrence, day, clocks) == rules::occurrences_by(
                source,
                bounds.0@,
                bounds.1@,
                65535,
                clocks,
            ),
            None => dates_around_by(schedule, recurrence, day, clocks) is None,
        },
{
}

/// An exception is moved to an occurrence that the new series has, on whole days to the one on its own
/// day; one that finds none is not moved.
pub proof fn law_exceptions_move_to_occurrences(
    master: ScheduleView,
    future: ScheduleView,
    recurrence: RecurrenceView,
    identity: RecurrenceIdView,
)
    ensures
        rebase_outcome(master, future, recurrence, identity) matches Some(moved)
            ==> occurrences::is_generated(
            future,
            moved,
            occurrences::neighbours_of(future, recurrence, moved),
        ),
        exception_day(master, identity) is None ==> rebase_outcome(master, future, recurrence, identity)
            is None,
        future is AllDay ==> (exception_day(master, identity) matches Some(day) ==> {
            let kept = RecurrenceIdView::AllDay(date::date_of(day));
            rebase_outcome(master, future, recurrence, identity) == if occurrences::is_generated(
                future,
                kept,
                occurrences::neighbours_of(future, recurrence, kept),
            ) {
                Some(kept)
            } else {
                None
            }
        }),
{
}

/// A moved exception is one of the occurrences that the new series may have; an exception is only left
/// where it is if it has no day, or the occurrence of its day may be missing.
pub proof fn law_moved_exceptions(
    rebased: Option<RecurrenceIdView>,
    master: ScheduleView,
    future: EventView,
    identity: RecurrenceIdView,
)
    requires
        is_rebased(rebased, master, future, identity),
    ensures
        rebased matches Some(moved) ==> occurrences::is_finding(true, future, moved) && exception_day(
            master,
            identity,
        ) is Some,
        rebased matches Some(moved) ==> future.schedule is AllDay ==> moved == RecurrenceIdView::AllDay(
            date::date_of(exception_day(master, identity)->0),
        ),
        rebased is None && future.schedule is AllDay ==> (exception_day(master, identity) matches Some(day)
            ==> occurrences::is_finding(false, future, RecurrenceIdView::AllDay(date::date_of(day)))),
{
}

/// The bounds of a day are there where it and the instants around it are representable.
pub proof fn law_bounds_of_a_day_are_there(day: int)
    requires
        date::is_day(day + 1),
        (DateTimeView { seconds: (day - 719163) * 86400 - 1, nanos: 0, offset: 0 }).valid(),
        (DateTimeView { seconds: (day - 719163) * 86400, nanos: 0, offset: 0 }).valid(),
        (DateTimeView { seconds: (day - 719163) * 86400 + 86400, nanos: 0, offset: 0 }).valid(),
        (DateTimeView { seconds: (day - 719163) * 86400 + 86401, nanos: 0, offset: 0 }).valid(),
    ensures
        day_bounds(day, None) is Some,
{
    let begin = recurrence_split::midnight(day);
    let end = recurrence_split::midnight(day + 1);
    date::lemma_date_time_of(begin);
    date::lemma_date_time_of(end);
    date::lemma_later(date::date_time_of(begin), recurrence_split::minus_one_second());
    date::lemma_later(date::date_time_of(end), recurrence_split::one_second());
}

/// Where the series has an occurrence on the day, an occurrence on the day is found.
pub proof fn law_occurrence_of_a_day_is_found(
    start: DateTime,
    end: DateTime,
    timezone: Option<Seq<char>>,
    day: int,
    dates: Seq<DateTimeView>,
    i: int,
)
    requires
        day_bounds(day, timezone) is Some,
        occurrences::event_source_known(timezone),
        0 <= i < dates.len(),
        shown(dates[i], timezone).local_day() == day,
    ensures
        timed_identity_on(ScheduleView::Timed { start, end, timezone }, day, Some(dates)) is Some,
{
    let bounds = day_bounds(day, timezone)->0;
    let all = day_candidates(start@, timezone, bounds, dates);
    assert(all[i] == dates[i]);
    lemma_found_on_a_day(all, day, timezone, i);
}

/// One of the instants on the day is found.
proof fn lemma_found_on_a_day(instants: Seq<DateTimeView>, day: int, timezone: Option<Seq<char>>, i: int)
    requires
        0 <= i < instants.len(),
        shown(instants[i], timezone).local_day() == day,
    ensures
        earliest_on(instants, day, timezone) is Some,
    decreases instants.len(),
{
    if i < instants.len() - 1 {
        assert(instants.drop_last()[i] == instants[i]);
        lemma_found_on_a_day(instants.drop_last(), day, timezone, i);
    }
}

/// Where the last occurrence of a counted rule is deleted with what follows it, the rule with one less is
/// left.
pub proof fn law_last_occurrence_leaves_the_rest(
    master: EventView,
    recurrence: RecurrenceView,
    error: RecurrenceSplitError,
    index: int,
)
    requires
        master.recurrence == Some(recurrence),
        recurrence_form::editable_form(master.recurrence, master.schedule) is Some,
        index > 0,
        rule_count(recurrence.rrule[0]) == Some(index + 1),
    ensures
        truncated(master, Err::<SplitView, RecurrenceSplitError>(error), Some(index)) is Some,
{
}

} // verus!
