//! An agenda as rows of events.
use vstd::prelude::*;

use crate::agenda_presentation;
use crate::agenda_presentation::{AgendaEventState, AgendaTimeLayout};
use crate::agenda_render_plan;
use crate::agenda_render_plan::AgendaRange;
use crate::date;
use crate::date::{Date, DateTime, DateTimeView, Span};
use crate::lists;
use crate::model;
use crate::model::{Event, EventSchedule, EventView, ScheduleView, Uuid};
use crate::month_view;
use crate::month_view::{AgendaGroup, ChipView, EventChip, GroupView, ViewerLocalEnd};
use crate::text;
use crate::time_format::TimeFormatPreference;
use crate::ui::colors;
use crate::ui::names;

verus! {

// ---------------------------------------------------------------------------------------------
// The schedule of an occurrence
// ---------------------------------------------------------------------------------------------

/// The span that leads back over another.
pub open spec fn backward(span: Span) -> Span {
    if span.nanos == 0 {
        Span { seconds: (-span.seconds) as i64, nanos: 0 }
    } else {
        Span { seconds: (-span.seconds - 1) as i64, nanos: (1000000000 - span.nanos) as u32 }
    }
}

/// The span that leads back over another.
fn make_backward(span: Span) -> (r: Span)
    requires
        span.valid(),
        span.seconds < date::MAX_SPAN_SECONDS,
    ensures
        r == backward(span),
        r.valid(),
{
    if span.nanos == 0 {
        Span { seconds: -span.seconds, nanos: 0 }
    } else {
        Span { seconds: -span.seconds - 1, nanos: 1000000000 - span.nanos }
    }
}

/// When an occurrence takes place: as long as its event, up to the end that is shown. Where there is
/// no such start it begins at its end.
pub open spec fn occurrence_of(schedule: ScheduleView, shown_end: ViewerLocalEnd) -> ScheduleView {
    match (schedule, shown_end) {
        (ScheduleView::Timed { start, end, timezone }, ViewerLocalEnd::Timed(last)) => {
            ScheduleView::Timed {
                start: match date::later(last, backward(date::span_between(start, end))) {
                    Some(first) => first,
                    None => last,
                },
                end: last,
                timezone,
            }
        },
        (
            ScheduleView::AllDay { start_date, end_date_exclusive },
            ViewerLocalEnd::AllDay(last),
        ) => {
            let first = last@ - (end_date_exclusive@ - start_date@);
            ScheduleView::AllDay {
                start_date: if date::is_day(first) {
                    date::date_of(first)
                } else {
                    last
                },
                end_date_exclusive: last,
            }
        },
        _ => schedule,
    }
}

/// When an occurrence of an event takes place.
pub fn occurrence_schedule(event: &Event, chip: &EventChip) -> (r: EventSchedule)
    ensures
        r@ == occurrence_of(event@.schedule, chip@.viewer_local_end),
{
    match (&event.schedule, &chip.viewer_local_end) {
        (EventSchedule::Timed { start, end, timezone }, ViewerLocalEnd::Timed(last)) => {
            let length = end.since(start);
            let first = match last.plus(make_backward(length)) {
                Some(first) => first,
                None => *last,
            };
            EventSchedule::Timed { start: first, end: *last, timezone: model::copy_text(timezone) }
        },
        (
            EventSchedule::AllDay { start_date, end_date_exclusive },
            ViewerLocalEnd::AllDay(last),
        ) => {
            let length: i64 = end_date_exclusive.days() as i64 - start_date.days() as i64;
            let first = match last.plus_days(-length) {
                Some(first) => {
                    proof {
                        date::lemma_date_of_day(first);
                    }
                    first
                },
                None => *last,
            };
            EventSchedule::AllDay { start_date: first, end_date_exclusive: *last }
        },
        _ => event.schedule.clone(),
    }
}

/// An occurrence on whole days is as long as its event.
pub proof fn law_occurrence_is_as_long(start: Date, end: Date, last: Date)
    requires
        date::is_day(last@ - (end@ - start@)),
    ensures
        occurrence_of(
            ScheduleView::AllDay { start_date: start, end_date_exclusive: end },
            ViewerLocalEnd::AllDay(last),
        ) matches ScheduleView::AllDay { start_date, end_date_exclusive } && end_date_exclusive@
            - start_date@ == end@ - start@,
{
    date::lemma_date_of(last@ - (end@ - start@));
}

// ---------------------------------------------------------------------------------------------
// Rows
// ---------------------------------------------------------------------------------------------

/// A row of an agenda.
#[derive(Debug)]
pub struct EventRow {
    pub event_id: Uuid,
    pub schedule: EventSchedule,
    pub time: String,
    pub title: String,
    /// The digits of its colour.
    pub color: String,
    pub state: AgendaEventState,
}

/// The values of an [`EventRow`].
pub struct RowView {
    pub event_id: Uuid,
    pub schedule: ScheduleView,
    pub time: Seq<char>,
    pub title: Seq<char>,
    pub color: Seq<char>,
    pub state: AgendaEventState,
}

impl View for EventRow {
    type V = RowView;

    open spec fn view(&self) -> RowView {
        RowView {
            event_id: self.event_id,
            schedule: self.schedule@,
            time: self.time@,
            title: self.title@,
            color: self.color@,
            state: self.state,
        }
    }
}

/// How an agenda is laid out and by which clocks it shows times.
#[derive(Debug)]
pub struct AgendaLook {
    pub compact: bool,
    pub preference: TimeFormatPreference,
    pub system_format: String,
}

/// The time of a row.
pub open spec fn row_time(chip: ChipView, look: AgendaLook) -> Seq<char> {
    let layout = if look.compact {
        AgendaTimeLayout::Compact
    } else {
        AgendaTimeLayout::Desktop
    };
    let time = agenda_presentation::chip_time(
        chip,
        layout,
        look.preference,
        look.system_format@,
    );
    match time {
        Some(text) => if chip.is_all_day {
            "All day"@
        } else {
            text
        },
        None => "All day"@,
    }
}

/// The row of an event.
pub open spec fn row_of(chip: ChipView, event: EventView, look: AgendaLook, now: DateTimeView) -> RowView {
    let schedule = occurrence_of(event.schedule, chip.viewer_local_end);
    RowView {
        event_id: chip.event_id,
        schedule,
        time: row_time(chip, look),
        title: event.title,
        color: chip.color.filter(|c: char| text::is_hex_digit(c)),
        state: agenda_presentation::state_at(schedule, now),
    }
}

/// The row of an event.
pub fn create_event_row(chip: &EventChip, event: &Event, look: &AgendaLook, now: &DateTime) -> (r:
    EventRow)
    requires
        chip.start_time matches Some(start) ==> start.valid(),
    ensures
        r@ == row_of(chip@, event@, *look, now@),
{
    let schedule = occurrence_schedule(event, chip);
    let state = agenda_presentation::event_state(&schedule, now);
    let layout = if look.compact {
        AgendaTimeLayout::Compact
    } else {
        AgendaTimeLayout::Desktop
    };
    let time = if chip.is_all_day {
        String::from_str("All day")
    } else {
        match agenda_presentation::time_text(
            chip,
            layout,
            look.preference,
            look.system_format.as_str(),
        ) {
            Some(text) => text,
            None => String::from_str("All day"),
        }
    };
    EventRow {
        event_id: chip.event_id,
        schedule,
        time,
        title: event.title.clone(),
        color: colors::hex_digits(chip.color.as_str()),
        state,
    }
}

/// What a row says of itself to those who do not see it.
pub open spec fn spoken(time: Seq<char>, title: Seq<char>, state: AgendaEventState) -> Seq<char> {
    let plain = time + ": "@ + title;
    if state == AgendaEventState::Current {
        plain + ", currently running"@
    } else {
        plain
    }
}

/// The mark of a row whose event is going on.
pub open spec fn now_mark(state: AgendaEventState) -> Seq<char> {
    if state == AgendaEventState::Current {
        "NOW"@
    } else {
        ""@
    }
}

impl EventRow {
    /// The clock shows an instant: the row shows how its event lies to it.
    pub fn refresh(&mut self, now: &DateTime)
        ensures
            final(self)@ == (RowView {
                state: agenda_presentation::state_at(old(self)@.schedule, now@),
                ..old(self)@
            }),
    {
        self.state = agenda_presentation::event_state(&self.schedule, now);
    }

    /// What the row says of itself to those who do not see it.
    pub fn accessible_label(&self) -> (r: String)
        ensures
            r@ == spoken(self@.time, self@.title, self@.state),
    {
        let mut out = text::joined(self.time.as_str(), ": ");
        out.append(self.title.as_str());
        match self.state {
            AgendaEventState::Current => {
                out.append(", currently running");
            },
            _ => {},
        }
        assert(out@ =~= spoken(self@.time, self@.title, self@.state));
        out
    }

    /// The mark of the row.
    pub fn now_label(&self) -> (r: &'static str)
        ensures
            r@ == now_mark(self@.state),
    {
        match self.state {
            AgendaEventState::Current => "NOW",
            _ => "",
        }
    }
}

// ---------------------------------------------------------------------------------------------
// Cards
// ---------------------------------------------------------------------------------------------

/// A part of the card of a day.
#[derive(Debug)]
pub enum CardItem {
    Separator,
    Row(EventRow),
}

/// The values of a [`CardItem`].
pub enum ItemView {
    Separator,
    Row(RowView),
}

impl View for CardItem {
    type V = ItemView;

    open spec fn view(&self) -> ItemView {
        match *self {
            CardItem::Separator => ItemView::Separator,
            CardItem::Row(row) => ItemView::Row(row@),
        }
    }
}

/// The last event of a list with an identifier.
pub open spec fn event_with(events: Seq<EventView>, id: Uuid) -> Option<EventView>
    decreases events.len(),
{
    if events.len() == 0 {
        None
    } else if events.last().id == id {
        Some(events.last())
    } else {
        event_with(events.drop_last(), id)
    }
}

/// The card of a day: a row for each event that is known, with a line before each but the first.
pub open spec fn card_of(
    chips: Seq<ChipView>,
    events: Seq<EventView>,
    look: AgendaLook,
    now: DateTimeView,
) -> Seq<ItemView>
    decreases chips.len(),
{
    if chips.len() == 0 {
        seq![]
    } else {
        let before = card_of(chips.drop_last(), events, look, now);
        let apart = if chips.len() > 1 {
            before.push(ItemView::Separator)
        } else {
            before
        };
        match event_with(events, chips.last().event_id) {
            Some(event) => apart.push(ItemView::Row(row_of(chips.last(), event, look, now))),
            None => apart,
        }
    }
}

/// The last event of a list with an identifier.
fn find_event<'a>(events: &'a Vec<Event>, id: Uuid) -> (r: Option<&'a Event>)
    ensures
        match r {
            Some(event) => event_with(model::event_views(events@), id) == Some(event@),
            None => event_with(model::event_views(events@), id) is None,
        },
{
    let ghost all = model::event_views(events@);
    let mut i: usize = events.len();
    assert(all.take(i as int) =~= all);
    while i > 0
        invariant
            i <= events@.len(),
            all == model::event_views(events@),
            event_with(all, id) == event_with(all.take(i as int), id),
        decreases i,
    {
        assert(all.take(i as int).last() == events@[i - 1]@);
        assert(all.take(i as int).drop_last() =~= all.take(i - 1));
        if events[i - 1].id == id {
            return Some(&events[i - 1]);
        }
        i -= 1;
    }
    None
}

/// Whether the starts of events are times of day.
pub open spec fn have_times(chips: Seq<EventChip>) -> bool {
    forall|i: int|
        0 <= i < chips.len() ==> ((#[trigger] chips[i]).start_time matches Some(start)
            ==> start.valid())
}

/// The card of a day.
pub fn create_event_card(
    chips: &Vec<EventChip>,
    events: &Vec<Event>,
    look: &AgendaLook,
    now: &DateTime,
) -> (r: Vec<CardItem>)
    requires
        have_times(chips@),
    ensures
        lists::views_of(r@) == card_of(
            lists::views_of(chips@),
            model::event_views(events@),
            *look,
            now@,
        ),
{
    let ghost all = lists::views_of(chips@);
    let ghost known = model::event_views(events@);
    let mut out: Vec<CardItem> = Vec::new();
    assert(lists::views_of(out@) =~= card_of(all.take(0), known, *look, now@));
    for i in 0..chips.len()
        invariant
            have_times(chips@),
            all == lists::views_of(chips@),
            known == model::event_views(events@),
            lists::views_of(out@) == card_of(all.take(i as int), known, *look, now@),
    {
        let chip = &chips[i];
        proof {
            assert(chips@[i as int].start_time matches Some(start) ==> start.valid());
            assert(all.take(i + 1).drop_last() =~= all.take(i as int));
            assert(all.take(i + 1).last() == chip@);
        }
        if i > 0 {
            let ghost before = out@;
            out.push(CardItem::Separator);
            proof {
                lists::lemma_views_push(before, CardItem::Separator);
            }
        }
        if let Some(event) = find_event(events, chip.event_id) {
            let ghost before = out@;
            let item = CardItem::Row(create_event_row(chip, event, look, now));
            out.push(item);
            proof {
                lists::lemma_views_push(before, item);
            }
        }
    }
    assert(all.take(all.len() as int) =~= all);
    out
}

// ---------------------------------------------------------------------------------------------
// Groups
// ---------------------------------------------------------------------------------------------

/// The first day of a group.
pub fn group_start(group: &AgendaGroup) -> (r: Date)
    ensures
        r@ == month_view::group_start(group@),
{
    match group {
        AgendaGroup::EventDay(day) => day.date,
        AgendaGroup::EmptyRange { start_date, .. } => *start_date,
    }
}

/// Whether a day lies in a group.
pub fn group_contains(group: &AgendaGroup, date: &Date) -> (r: bool)
    ensures
        r == (month_view::group_start(group@) <= date@ < month_view::group_end(group@)),
{
    match group {
        AgendaGroup::EventDay(day) => day.date.same(date),
        AgendaGroup::EmptyRange { start_date, end_date_exclusive } => !date.before(start_date)
            && date.before(end_date_exclusive),
    }
}

/// The place of the first group in which a day lies.
pub fn place_of(groups: &Vec<AgendaGroup>, date: &Date) -> (r: Option<usize>)
    ensures
        match r {
            Some(i) => i < groups@.len() && in_group(groups@[i as int]@, date@) && forall|k: int|
                0 <= k < i ==> !in_group((#[trigger] groups@[k])@, date@),
            None => forall|k: int|
                0 <= k < groups@.len() ==> !in_group((#[trigger] groups@[k])@, date@),
        },
{
    for i in 0..groups.len()
        invariant
            forall|k: int| 0 <= k < i ==> !in_group((#[trigger] groups@[k])@, date@),
    {
        if group_contains(&groups[i], date) {
            return Some(i);
        }
    }
    None
}

/// Whether a day lies in a group.
pub open spec fn in_group(group: GroupView, day: int) -> bool {
    month_view::group_start(group) <= day < month_view::group_end(group)
}

/// Whether a group is today alone, without events.
pub fn is_empty_today(group: &AgendaGroup, today: &Date) -> (r: bool)
    ensures
        r == (group@ is EmptyRange && month_view::group_start(group@) == today@
            && month_view::group_end(group@) == today@ + 1),
{
    match group {
        AgendaGroup::EventDay(_) => false,
        AgendaGroup::EmptyRange { start_date, end_date_exclusive } => start_date.same(today)
            && end_date_exclusive.days() as i64 == today.days() as i64 + 1,
    }
}

/// A day with the letters of its month.
pub open spec fn day_and_month(day: int) -> Seq<char> {
    let (_, month, day_of_month) = date::civil_of(day);
    text::decimal(day_of_month as nat) + " "@ + names::month_letters(month)
}

/// A day with the letters of its month.
pub fn short_date(date: &Date) -> (r: String)
    ensures
        r@ == day_and_month(date@),
{
    let (_, month, day): (i32, u32, u32) = date.ymd();
    let mut out = text::joined(text::decimal_text(day as u64).as_str(), " ");
    out.append(names::month_short(month));
    assert(out@ =~= day_and_month(date@));
    out
}

/// What stands for days without events.
pub open spec fn nothing_text(start: int, end_exclusive: int, today: int, compact: bool) -> Seq<char> {
    let end = end_exclusive - 1;
    if start == end {
        if start == today - 1 {
            "nothing yesterday"@
        } else if start == today {
            "nothing today"@
        } else if start == today + 1 {
            "nothing tomorrow"@
        } else {
            "nothing "@ + day_and_month(start)
        }
    } else if compact {
        "nothing for "@ + text::signed_decimal(end - start + 1) + " days"@
    } else {
        "nothing "@ + day_and_month(start) + " – "@ + day_and_month(end)
    }
}

/// What stands for days without events.
pub fn empty_range_label(start: &Date, end_exclusive: &Date, today: &Date, compact: bool) -> (r: String)
    requires
        date::is_day(end_exclusive@ - 1),
    ensures
        r@ == nothing_text(start@, end_exclusive@, today@, compact),
{
    let end = match end_exclusive.plus_days(-1) {
        Some(end) => end,
        None => *end_exclusive,
    };
    let first: i64 = start.days() as i64;
    if start.same(&end) {
        let ahead: i64 = first - today.days() as i64;
        return if ahead == -1 {
            String::from_str("nothing yesterday")
        } else if ahead == 0 {
            String::from_str("nothing today")
        } else if ahead == 1 {
            String::from_str("nothing tomorrow")
        } else {
            text::joined("nothing ", short_date(start).as_str())
        };
    }
    if compact {
        let days: i64 = end.days() as i64 - first + 1;
        let mut out = text::joined("nothing for ", text::signed_decimal_text(days).as_str());
        out.append(" days");
        assert(out@ =~= nothing_text(start@, end_exclusive@, today@, compact));
        out
    } else {
        let mut out = text::joined("nothing ", short_date(start).as_str());
        out.append(" – ");
        out.append(short_date(&end).as_str());
        assert(out@ =~= nothing_text(start@, end_exclusive@, today@, compact));
        out
    }
}

/// What stands at the side of a day: its weekday, its number and its month.
#[derive(Debug)]
pub struct DateRail {
    pub weekday: String,
    pub number: String,
    pub month: String,
    pub today: bool,
}

/// A text with its letters made capital.
fn capital(value: &str) -> (r: String)
    ensures
        r@ == text::upper(value@),
{
    let chars = text::chars_of(value);
    text::string_of(&text::upper_chars(&chars))
}

/// What stands at the side of a day.
pub fn create_date_rail(date: &Date, today: &Date) -> (r: DateRail)
    ensures
        r.weekday@ == text::upper(names::weekday_letters(date::weekday_of(date@))),
        r.number@ == text::decimal(date::civil_of(date@).2 as nat),
        r.month@ == text::upper(names::month_letters(date::civil_of(date@).1)),
        r.today == (date@ == today@),
{
    let (_, month, day): (i32, u32, u32) = date.ymd();
    DateRail {
        weekday: capital(names::weekday_short(date)),
        number: text::decimal_text(day as u64),
        month: capital(names::month_short(month)),
        today: date.same(today),
    }
}

// ---------------------------------------------------------------------------------------------
// The pane
// ---------------------------------------------------------------------------------------------

/// The days by which an agenda grows.
pub const CHUNK_DAYS: i64 = 28;

/// What an agenda is about to show.
#[derive(Clone, Copy, Debug, PartialEq, Eq, Structural)]
pub struct AgendaPane {
    pub active_date: Date,
    pub range: AgendaRange,
    pub clock_date: Date,
    /// Whether the pane is being filled, so that it is not filled again.
    pub guarded: bool,
    /// Whether filling it was asked for while it was being filled.
    pub deferred: bool,
    /// Whether filling it has been asked for.
    pub pending: bool,
    /// Whether it is to grow at its end.
    pub pending_bottom: bool,
    /// The date to scroll to.
    pub target: Option<Date>,
}

impl AgendaPane {
    /// The pane once filling it was asked for: not before it is filled.
    pub open spec fn queued(self) -> AgendaPane {
        if self.guarded {
            AgendaPane { deferred: true, ..self }
        } else {
            AgendaPane { pending: true, ..self }
        }
    }

    /// Ask for the pane to be filled. The result tells whether that is to be scheduled.
    pub fn queue_work(&mut self) -> (r: bool)
        ensures
            *final(self) == old(self).queued(),
            r == (!old(self).guarded && !old(self).pending),
    {
        if self.guarded {
            self.deferred = true;
            return false;
        }
        let scheduled = !self.pending;
        self.pending = true;
        scheduled
    }

    /// Show a date, or today where it has passed.
    pub fn set_active_date(&mut self, date: Date, today: Date) -> (r: bool)
        ensures
            ({
                let target = if date@ < today@ {
                    today
                } else {
                    date
                };
                let before = *old(self);
                &&& final(self).active_date == target
                &&& final(self).target == Some(target)
                &&& final(self).range.start_date@ == before.range.start_date@
                &&& final(self).range.end_date_exclusive@ == agenda_render_plan::end_with(
                    before.range.start_date@,
                    before.range.end_date_exclusive@,
                    target@,
                )
                &&& *final(self) == (AgendaPane {
                    active_date: target,
                    range: final(self).range,
                    target: Some(target),
                    ..before
                }).queued()
                &&& r == (!before.guarded && !before.pending)
            }),
    {
        let target = if date.before(&today) {
            today
        } else {
            date
        };
        self.active_date = target;
        self.range.ensure_target(&target);
        self.target = Some(target);
        self.queue_work()
    }

    /// The end of the pane came near.
    pub fn reached_bottom(&mut self) -> (r: bool)
        ensures
            *final(self) == (if old(self).guarded {
                *old(self)
            } else {
                (AgendaPane { pending_bottom: true, ..*old(self) }).queued()
            }),
            r == (!old(self).guarded && !old(self).pending),
    {
        if self.guarded {
            return false;
        }
        self.pending_bottom = true;
        self.queue_work()
    }

    /// Begin to fill the pane: it grows where its end came near. The result is the date to scroll to.
    pub fn begin_work(&mut self) -> (r: Option<Date>)
        ensures
            r == old(self).target,
            final(self).range.start_date@ == old(self).range.start_date@,
            final(self).range.end_date_exclusive@ == (if old(self).pending_bottom && date::is_day(
                old(self).range.end_date_exclusive@ + CHUNK_DAYS,
            ) {
                old(self).range.end_date_exclusive@ + CHUNK_DAYS
            } else {
                old(self).range.end_date_exclusive@
            }),
            *final(self) == (AgendaPane {
                range: final(self).range,
                guarded: true,
                pending: false,
                pending_bottom: false,
                target: None,
                ..*old(self)
            }),
    {
        self.pending = false;
        let bottom = self.pending_bottom;
        self.pending_bottom = false;
        let target = self.target;
        self.target = None;
        self.guarded = true;
        if bottom {
            self.range.extend_bottom(CHUNK_DAYS);
        }
        target
    }

    /// The pane once it was filled: filling it again is asked for where it was meanwhile.
    pub open spec fn finished(self) -> AgendaPane {
        let done = AgendaPane { guarded: false, deferred: false, ..self };
        if self.deferred {
            done.queued()
        } else {
            done
        }
    }

    /// The pane was filled: fill it again where that was asked for meanwhile.
    pub fn finish_work(&mut self) -> (r: bool)
        ensures
            *final(self) == old(self).finished(),
            r == (old(self).deferred && !old(self).pending),
    {
        self.guarded = false;
        let again = self.deferred;
        self.deferred = false;
        if again {
            self.queue_work()
        } else {
            false
        }
    }

    /// The clock shows a date: on another than before, the days that have passed are left out.
    pub fn refresh_clock(&mut self, today: Date) -> (r: bool)
        ensures
            ({
                let before = *old(self);
                let range = AgendaRange {
                    start_date: if before.range.start_date@ < today@ {
                        today
                    } else {
                        before.range.start_date
                    },
                    ..before.range
                };
                &&& today@ == before.clock_date@ ==> *final(self) == before && !r
                &&& today@ != before.clock_date@ ==> *final(self) == (AgendaPane {
                    clock_date: today,
                    range,
                    ..before
                }).queued() && r == (!before.guarded && !before.pending)
            }),
    {
        if self.clock_date.same(&today) {
            return false;
        }
        self.clock_date = today;
        if self.range.start_date.before(&today) {
            self.range.start_date = today;
        }
        self.queue_work()
    }
}

/// What is asked for is never lost: it stays asked for, while the pane is being filled until that is
/// over.
pub proof fn law_asked_work_is_not_lost(pane: AgendaPane)
    ensures
        !pane.guarded ==> pane.queued().pending,
        pane.guarded ==> pane.queued().finished().pending,
{
}

/// The occurrence that a row stands for ends when it is shown to end, and is as long as its event.
pub proof fn law_timed_occurrence_is_as_long(start: DateTime, end: DateTime, last: DateTime, timezone: Option<Seq<char>>)
    requires
        start@.valid(),
        end@.valid(),
        last@.valid(),
        start@.nanos < 1000000000,
        end@.nanos < 1000000000,
        last@.nanos < 1000000000,
        start@.before(end@),
    ensures
        ({
            let shown = occurrence_of(
                ScheduleView::Timed { start, end, timezone },
                ViewerLocalEnd::Timed(last),
            );
            let length = (end@.seconds - start@.seconds) * 1000000000 + (end@.nanos - start@.nanos);
            &&& shown matches ScheduleView::Timed { start: first, end: until, timezone: zone }
            &&& until == last && zone == timezone
            &&& first != last ==> (last@.seconds - first@.seconds) * 1000000000 + (last@.nanos
                - first@.nanos) == length
            &&& first == last || first@.offset == last@.offset
        }),
{
    let span = date::span_between(start, end);
    let length = date::plain_distance(start@, end@);
    let back = backward(span);
    date::law_span_leads_back(start, end);
    date::lemma_later(last, back);
    assert(length > 0);
    assert(length == length / 1000000000 * 1000000000 + length % 1000000000);
}

/// The time of a row is the time of its event, or that it lasts all day.
pub proof fn law_time_of_a_row(chip: ChipView, look: AgendaLook)
    ensures
        chip.is_all_day ==> row_time(chip, look) == "All day"@,
        chip.start_time is None ==> row_time(chip, look) == "All day"@,
        !chip.is_all_day && look.compact ==> (agenda_presentation::chip_time(
            chip,
            AgendaTimeLayout::Compact,
            look.preference,
            look.system_format@,
        ) matches Some(time) ==> row_time(chip, look) == time),
        !chip.is_all_day && !look.compact ==> (agenda_presentation::chip_time(
            chip,
            AgendaTimeLayout::Desktop,
            look.preference,
            look.system_format@,
        ) matches Some(time) ==> row_time(chip, look) == time),
{
}

/// A row tells what its event is, in the colour of its chip, and how its occurrence stands to now.
pub proof fn law_row_of_an_event(chip: ChipView, event: EventView, look: AgendaLook, now: DateTimeView)
    ensures
        row_of(chip, event, look, now).event_id == chip.event_id,
        row_of(chip, event, look, now).title == event.title,
        row_of(chip, event, look, now).time == row_time(chip, look),
        row_of(chip, event, look, now).schedule == occurrence_of(event.schedule, chip.viewer_local_end),
        row_of(chip, event, look, now).state == agenda_presentation::state_at(
            row_of(chip, event, look, now).schedule,
            now,
        ),
        forall|c: char|
            #[trigger] row_of(chip, event, look, now).color.contains(c) ==> chip.color.contains(c)
                && text::is_hex_digit(c),
{
    let kept = |c: char| text::is_hex_digit(c);
    assert forall|c: char| #[trigger] row_of(chip, event, look, now).color.contains(c) implies chip.color.contains(
        c,
    ) && text::is_hex_digit(c) by {
        chip.color.lemma_filter_contains_rev(kept, c);
        let out = chip.color.filter(kept);
        let i = choose|i: int| 0 <= i < out.len() && out[i] == c;
        chip.color.lemma_filter_pred(kept, i);
    }
}

/// A row is spoken as its time and its title, and that it is on where it is; it is marked where it is
/// on, and only there.
pub proof fn law_spoken_rows(time: Seq<char>, title: Seq<char>, state: AgendaEventState)
    ensures
        state == AgendaEventState::Current ==> spoken(time, title, state) == time + ": "@ + title
            + ", currently running"@ && now_mark(state) == "NOW"@,
        state != AgendaEventState::Current ==> spoken(time, title, state) == time + ": "@ + title
            && now_mark(state) == ""@,
{
}

/// The event of an identifier is the last listed with it; there is none only where none is listed.
pub proof fn law_event_of_an_identifier(events: Seq<EventView>, id: Uuid)
    ensures
        event_with(events, id) matches Some(event) ==> event.id == id && events.contains(event),
        event_with(events, id) is None <==> forall|i: int|
            0 <= i < events.len() ==> (#[trigger] events[i]).id != id,
    decreases events.len(),
{
    if events.len() > 0 {
        let shorter = events.drop_last();
        law_event_of_an_identifier(shorter, id);
        assert(events[events.len() - 1] == events.last());
        if events.last().id != id {
            if let Some(event) = event_with(shorter, id) {
                let k = choose|k: int| 0 <= k < shorter.len() && shorter[k] == event;
                assert(events[k] == event);
            } else {
                assert forall|i: int| 0 <= i < events.len() implies (#[trigger] events[i]).id != id by {
                    if i < shorter.len() {
                        assert(shorter[i].id != id);
                    }
                }
            }
        }
    }
}

/// A card of a day shows a row for each of its events, in their order, and a line between two of them.
pub proof fn law_card_of_a_day(
    chips: Seq<ChipView>,
    events: Seq<EventView>,
    look: AgendaLook,
    now: DateTimeView,
    i: int,
)
    requires
        forall|k: int|
            0 <= k < chips.len() ==> event_with(events, (#[trigger] chips[k]).event_id) is Some,
        0 <= i < chips.len(),
    ensures
        card_of(chips, events, look, now).len() == 2 * chips.len() - 1,
        card_of(chips, events, look, now)[2 * i] == ItemView::Row(
            row_of(chips[i], event_with(events, chips[i].event_id)->0, look, now),
        ),
        i > 0 ==> card_of(chips, events, look, now)[2 * i - 1] == ItemView::Separator,
    decreases chips.len(),
{
    let shorter = chips.drop_last();
    assert(event_with(events, chips[chips.len() - 1].event_id) is Some);
    assert forall|k: int| 0 <= k < shorter.len() implies event_with(
        events,
        (#[trigger] shorter[k]).event_id,
    ) is Some by {
        assert(event_with(events, chips[k].event_id) is Some);
    }
    if chips.len() > 1 {
        if i < shorter.len() {
            assert(shorter[i] == chips[i]);
            law_card_of_a_day(shorter, events, look, now, i);
        } else {
            law_card_of_a_day(shorter, events, look, now, 0);
        }
    } else {
        assert(card_of(shorter, events, look, now).len() == 0);
    }
}

/// A range without events is named by how its one day lies to today, by its first and last day, or by
/// the number of its days where there is little room.
pub proof fn law_names_of_empty_ranges(start: int, end: int, today: int, compact: bool)
    requires
        start < end,
    ensures
        end == start + 1 && start == today ==> nothing_text(start, end, today, compact)
            == "nothing today"@,
        end == start + 1 && start == today + 1 ==> nothing_text(start, end, today, compact)
            == "nothing tomorrow"@,
        end == start + 1 && start == today - 1 ==> nothing_text(start, end, today, compact)
            == "nothing yesterday"@,
        end == start + 1 && (start < today - 1 || start > today + 1) ==> nothing_text(
            start,
            end,
            today,
            compact,
        ) == "nothing "@ + day_and_month(start),
        end > start + 1 && compact ==> nothing_text(start, end, today, compact) == "nothing for "@
            + text::decimal((end - start) as nat) + " days"@,
        end > start + 1 && !compact ==> nothing_text(start, end, today, compact) == "nothing "@
            + day_and_month(start) + " – "@ + day_and_month(end - 1),
{
}

/// A day is written as its number in the month and the short name of the month.
pub proof fn law_written_day_and_month(year: int, month: int, day: int)
    requires
        date::is_civil(year, month, day),
    ensures
        day_and_month(date::day_number(year, month, day)) == text::decimal(day as nat).push(' ')
            + names::month_letters(month),
{
    date::lemma_civil_of(year, month, day);
    reveal_strlit(" ");
    assert(day_and_month(date::day_number(year, month, day)) =~= text::decimal(day as nat).push(' ')
        + names::month_letters(month));
}

/// Filling the agenda is asked for at once, or when it has been filled where that is going on; then it
/// can be filled again. The agenda grows by four weeks.
pub proof fn law_filling_the_agenda(pane: AgendaPane)
    ensures
        pane.guarded ==> pane.queued().deferred && pane.queued().pending == pane.pending,
        !pane.guarded ==> pane.queued().pending && pane.queued().deferred == pane.deferred,
        !pane.finished().guarded,
        !pane.finished().deferred,
        pane.finished().pending <==> pane.pending || pane.deferred,
        pane.queued().range == pane.range && pane.finished().range == pane.range,
        CHUNK_DAYS == 28,
{
}

/// A day lies in a group where it is one of its days.
pub proof fn law_days_of_a_group(start: Date, end: Date, day: int)
    ensures
        in_group(GroupView::EmptyRange { start_date: start, end_date_exclusive: end }, day) <==> start@
            <= day < end@,
{
}

} // verus!
