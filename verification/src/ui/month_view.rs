//! A month as rows of weeks.
use vstd::prelude::*;

use crate::date;
use crate::date::{Date, DateTime};
use crate::lists;
use crate::model;
use crate::month_view;
use crate::month_view::{ChipView, DayProjection, DayView, EventChip};
use crate::text;
use crate::time_format;
use crate::ui::names;
use crate::view_state;
use crate::weeks_buffer;
use crate::weeks_buffer::WeeksBuffer;

verus! {

/// The number of days of all rows.
pub const BUFFER_DAYS: usize = 105;

/// The number of events that a cell shows.
pub const SHOWN_CHIPS: usize = 3;

// ---------------------------------------------------------------------------------------------
// The days of the rows
// ---------------------------------------------------------------------------------------------

/// Whether all days of the rows are representable, where the first row that is seen begins on
/// `first`.
pub open spec fn has_rows(first: int) -> bool {
    date::is_day(weeks_buffer::row_day(first, 0)) && date::is_day(
        weeks_buffer::row_day(first, 0) + BUFFER_DAYS - 1,
    )
}

/// The days of all rows.
pub fn buffer_dates(buffer: &WeeksBuffer) -> (r: Vec<Date>)
    requires
        has_rows(buffer.first()),
    ensures
        r@.len() == BUFFER_DAYS,
        forall|i: int|
            0 <= i < BUFFER_DAYS ==> (#[trigger] r@[i])@ == weeks_buffer::row_day(buffer.first(), 0)
                + i,
{
    let start = buffer.row_start(0);
    let mut out: Vec<Date> = Vec::new();
    for i in 0..105i64
        invariant
            start@ == weeks_buffer::row_day(buffer.first(), 0),
            has_rows(buffer.first()),
            out@.len() == i,
            forall|k: int| 0 <= k < i ==> (#[trigger] out@[k])@ == start@ + k,
    {
        if let Some(day) = start.plus_days(i) {
            out.push(day);
        }
    }
    out
}

/// The month of a day.
pub open spec fn month_of(day: int) -> (int, int) {
    (date::civil_of(day).0, date::civil_of(day).1)
}

/// The months of days, each once, in the order in which they come.
pub open spec fn months_of(days: Seq<Date>) -> Seq<(int, int)>
    decreases days.len(),
{
    if days.len() == 0 {
        seq![]
    } else {
        let before = months_of(days.drop_last());
        let month = month_of(days.last()@);
        if before.contains(month) {
            before
        } else {
            before.push(month)
        }
    }
}

/// Whether a list of years and months is another.
pub open spec fn are_months(list: Seq<(i32, u32)>, months: Seq<(int, int)>) -> bool {
    list.len() == months.len() && forall|i: int|
        0 <= i < list.len() ==> ((#[trigger] list[i]).0 as int, list[i].1 as int) == months[i]
}

/// The months of days, each once.
pub fn buffer_months(days: &Vec<Date>) -> (r: Vec<(i32, u32)>)
    ensures
        are_months(r@, months_of(days@)),
{
    let mut out: Vec<(i32, u32)> = Vec::new();
    for i in 0..days.len()
        invariant
            are_months(out@, months_of(days@.take(i as int))),
    {
        let (year, month, _): (i32, u32, u32) = days[i].ymd();
        let ghost before = months_of(days@.take(i as int));
        let ghost here = (year as int, month as int);
        assert(days@.take(i + 1).drop_last() =~= days@.take(i as int));
        assert(days@.take(i + 1).last() == days@[i as int]);
        let mut known = false;
        for k in 0..out.len()
            invariant
                are_months(out@, before),
                here == (year as int, month as int),
                known == exists|n: int| 0 <= n < k && #[trigger] before[n] == here,
        {
            if out[k].0 == year && out[k].1 == month {
                assert(before[k as int] == here);
                known = true;
            }
        }
        assert(known == before.contains(here));
        if !known {
            out.push((year, month));
        }
    }
    assert(days@.take(days@.len() as int) =~= days@);
    out
}

/// The first projection of a list that is on a day.
pub open spec fn first_on(projections: Seq<DayView>, day: int) -> Option<DayView>
    decreases projections.len(),
{
    if projections.len() == 0 {
        None
    } else if projections[0].date@ == day {
        Some(projections[0])
    } else {
        first_on(projections.drop_first(), day)
    }
}

/// For each of some days the first projection of a list that is on it, where there is one.
pub open spec fn on_days(days: Seq<Date>, projections: Seq<DayView>) -> Seq<DayView>
    decreases days.len(),
{
    if days.len() == 0 {
        seq![]
    } else {
        let before = on_days(days.drop_last(), projections);
        match first_on(projections, days.last()@) {
            Some(found) => before.push(found),
            None => before,
        }
    }
}

/// The first projection of a list that is on a day.
fn find_on<'a>(projections: &'a Vec<DayProjection>, day: &Date) -> (r: Option<&'a DayProjection>)
    ensures
        match r {
            Some(found) => first_on(lists::views_of(projections@), day@) == Some(found@),
            None => first_on(lists::views_of(projections@), day@) is None,
        },
{
    let ghost all = lists::views_of(projections@);
    let mut i: usize = 0;
    assert(all.skip(0) =~= all);
    while i < projections.len()
        invariant
            i <= projections@.len(),
            all == lists::views_of(projections@),
            first_on(all, day@) == first_on(all.skip(i as int), day@),
        decreases projections@.len() - i,
    {
        assert(all.skip(i as int)[0] == projections@[i as int]@);
        assert(all.skip(i as int).drop_first() =~= all.skip(i + 1));
        if projections[i].date.same(day) {
            return Some(&projections[i]);
        }
        i += 1;
    }
    None
}

/// The projections of the days of the rows, where those of the months of these days are given one
/// month after the other. A day that lies on the grids of two months is taken from the first.
pub fn project_buffer_dates(days: &Vec<Date>, months: &Vec<DayProjection>) -> (r: Vec<DayProjection>)
    ensures
        lists::views_of(r@) == on_days(days@, lists::views_of(months@)),
{
    let ghost all = lists::views_of(months@);
    let mut out: Vec<DayProjection> = Vec::new();
    assert(lists::views_of(out@) =~= on_days(days@.take(0), all));
    for i in 0..days.len()
        invariant
            all == lists::views_of(months@),
            lists::views_of(out@) == on_days(days@.take(i as int), all),
    {
        assert(days@.take(i + 1).drop_last() =~= days@.take(i as int));
        assert(days@.take(i + 1).last() == days@[i as int]);
        if let Some(found) = find_on(months, &days[i]) {
            let ghost before = out@;
            let copy = found.clone();
            out.push(copy);
            proof {
                lists::lemma_views_push(before, copy);
            }
        }
    }
    assert(days@.take(days@.len() as int) =~= days@);
    out
}

/// Whether some projection of a list is on a day.
pub open spec fn has_projection(projections: Seq<DayView>, day: int) -> bool {
    exists|k: int| 0 <= k < projections.len() && (#[trigger] projections[k]).date@ == day
}

/// Every day whose month was projected gets its projection, on the day itself.
pub proof fn law_every_day_is_projected(days: Seq<Date>, projections: Seq<DayView>)
    requires
        forall|i: int| 0 <= i < days.len() ==> has_projection(projections, (#[trigger] days[i])@),
    ensures
        on_days(days, projections).len() == days.len(),
        forall|i: int|
            0 <= i < days.len() ==> (#[trigger] on_days(days, projections)[i]).date@ == days[i]@,
    decreases days.len(),
{
    if days.len() > 0 {
        let rest = days.drop_last();
        assert forall|i: int| 0 <= i < rest.len() implies has_projection(
            projections,
            (#[trigger] rest[i])@,
        ) by {
            assert(rest[i] == days[i]);
        }
        law_every_day_is_projected(rest, projections);
        let last = days.len() - 1;
        assert(has_projection(projections, days[last]@));
        let k = choose|k: int|
            0 <= k < projections.len() && (#[trigger] projections[k]).date@ == days[last]@;
        lemma_first_on(projections, days[last]@, k);
    }
}

proof fn lemma_first_on(projections: Seq<DayView>, day: int, k: int)
    requires
        0 <= k < projections.len(),
        projections[k].date@ == day,
    ensures
        first_on(projections, day) matches Some(found) && found.date@ == day,
    decreases projections.len(),
{
    if projections[0].date@ != day {
        lemma_first_on(projections.drop_first(), day, k - 1);
    }
}

// ---------------------------------------------------------------------------------------------
// Cells
// ---------------------------------------------------------------------------------------------

/// How the cell of a day looks.
#[derive(Debug)]
pub struct DayCell {
    /// The day of the month, or the name of the month on its first day.
    pub label: String,
    pub first_day: bool,
    pub other_month: bool,
    pub today: bool,
    pub separator_top: bool,
    pub separator_side: bool,
}

/// What the cell of a day is labelled with.
pub open spec fn cell_label(day: int) -> Seq<char> {
    let (_, month, day_of_month) = date::civil_of(day);
    if day_of_month == 1 {
        names::month_word(month)
    } else {
        text::decimal(day_of_month as nat)
    }
}

/// Whether a cell looks as that of a day.
pub open spec fn is_cell(cell: DayCell, day: int, today: int, year: int, month: int) -> bool {
    let civil = date::civil_of(day);
    &&& cell.label@ == cell_label(day)
    &&& cell.first_day == (civil.2 == 1)
    &&& cell.other_month == (civil.0 != year || civil.1 != month)
    &&& cell.today == (day == today)
    &&& cell.separator_top == (civil.2 <= 7)
    &&& cell.separator_side == (civil.2 == 1)
}

/// How the cell of a day looks, while a month is in the middle of the view.
pub fn day_cell(day: &Date, today: &Date, year: i32, month: u32) -> (r: DayCell)
    ensures
        is_cell(r, day@, today@, year as int, month as int),
{
    let (own_year, own_month, day_of_month): (i32, u32, u32) = day.ymd();
    let label = if day_of_month == 1 {
        String::from_str(names::month_name(own_month))
    } else {
        text::decimal_text(day_of_month as u64)
    };
    DayCell {
        label,
        first_day: day_of_month == 1,
        other_month: own_year != year || own_month != month,
        today: day.same(today),
        separator_top: day_of_month <= 7,
        separator_side: day_of_month == 1,
    }
}

/// What tells that a cell does not show all events of its day.
pub fn overflow_label(count: usize) -> (r: Option<String>)
    ensures
        model::text_view(r) == (if count > SHOWN_CHIPS {
            Some(seq!['+'] + text::decimal((count - SHOWN_CHIPS) as nat))
        } else {
            None
        }),
{
    if count > SHOWN_CHIPS {
        let mut out = String::from_str("+");
        out.append(text::decimal_text((count - SHOWN_CHIPS) as u64).as_str());
        proof {
            reveal_strlit("+");
            assert(out@ =~= seq!['+'] + text::decimal((count - SHOWN_CHIPS) as nat));
        }
        Some(out)
    } else {
        None
    }
}

/// How an event looks in a cell.
#[derive(Debug)]
pub struct ChipLook {
    pub title: String,
    pub past: bool,
    /// When it begins; nothing for one on whole days.
    pub time: Option<String>,
}

/// How an event looks in a cell.
pub fn chip_look(chip: &EventChip, now: &DateTime) -> (r: ChipLook)
    requires
        chip.start_time matches Some(start) ==> start.valid(),
    ensures
        r.title@ == chip@.title,
        r.past == EventChip::ended_before(chip.viewer_local_end, now@),
        model::text_view(r.time) == (match chip.start_time {
            Some(start) => if chip.is_all_day {
                None
            } else {
                Some(
                    time_format::twenty_four_hour_text(start.hour_spec(), start.minute_spec()),
                )
            },
            None => None,
        }),
{
    let time = match &chip.start_time {
        Some(start) => if chip.is_all_day {
            None
        } else {
            Some(
                time_format::format_time(
                    start,
                    time_format::TimeFormatPreference::TwentyFourHour,
                    "",
                ),
            )
        },
        None => None,
    };
    ChipLook { title: chip.title.clone(), past: chip.is_past_at(now), time }
}

/// The first events of a day, whole days first, as many as a cell shows.
pub open spec fn cell_chips(day: DayView) -> Seq<ChipView> {
    let all = day.all_day + day.timed;
    if all.len() > SHOWN_CHIPS {
        all.take(SHOWN_CHIPS as int)
    } else {
        all
    }
}

/// The events that a cell shows.
pub fn shown_chips(day: &DayProjection) -> (r: Vec<EventChip>)
    ensures
        lists::views_of(r@) == cell_chips(day@),
{
    let ghost all = day@.all_day + day@.timed;
    let mut out: Vec<EventChip> = Vec::new();
    let mut i: usize = 0;
    assert(lists::views_of(out@) =~= all.take(0));
    while i < day.all_day.len() && out.len() < SHOWN_CHIPS
        invariant
            all == day@.all_day + day@.timed,
            i <= day.all_day@.len(),
            out@.len() == i,
            out@.len() <= SHOWN_CHIPS,
            lists::views_of(out@) == all.take(i as int),
        decreases day.all_day@.len() - i,
    {
        let ghost before = out@;
        let chip = day.all_day[i].clone();
        assert(all[i as int] == chip@);
        out.push(chip);
        proof {
            lists::lemma_views_push(before, chip);
            assert(all.take(i + 1) =~= all.take(i as int).push(all[i as int]));
        }
        i += 1;
    }
    let mut k: usize = 0;
    while k < day.timed.len() && out.len() < SHOWN_CHIPS
        invariant
            all == day@.all_day + day@.timed,
            k <= day.timed@.len(),
            out@.len() <= SHOWN_CHIPS,
            out@.len() == SHOWN_CHIPS || out@.len() == day.all_day@.len() + k,
            out@.len() <= day.all_day@.len() + k,
            lists::views_of(out@) == all.take(out@.len() as int),
        decreases day.timed@.len() - k,
    {
        let ghost before = out@;
        let ghost n = out@.len() as int;
        let chip = day.timed[k].clone();
        assert(all[n] == chip@);
        out.push(chip);
        proof {
            lists::lemma_views_push(before, chip);
            assert(all.take(n + 1) =~= all.take(n).push(all[n]));
        }
        k += 1;
    }
    assert(lists::views_of(out@) =~= cell_chips(day@));
    out
}

// ---------------------------------------------------------------------------------------------
// Moving
// ---------------------------------------------------------------------------------------------

/// The Monday of the week of a date.
pub fn monday_of_week(day: &Date) -> (r: Date)
    requires
        date::is_day(month_view::monday_of(day@)),
    ensures
        r@ == month_view::monday_of(day@),
{
    match day.plus_days(-(day.days_from_monday() as i64)) {
        Some(monday) => monday,
        None => *day,
    }
}

/// The day of a month with the same number, or the last of the month where it has no such day.
pub open spec fn day_in_month(day: int, year: int, month: int) -> int {
    date::day_number(
        year,
        month,
        view_state::smaller(date::civil_of(day).2, date::month_length(year, month)),
    )
}

/// The day of a month with the same number as another, or the last of the month.
pub fn reconcile_month(day: &Date, year: i32, month: u32) -> (r: Date)
    requires
        date::MIN_YEAR <= year <= date::MAX_YEAR,
        1 <= month <= 12,
    ensures
        r@ == day_in_month(day@, year as int, month as int),
{
    let (_, _, number): (i32, u32, u32) = day.ymd();
    let length: u32 = view_state::days_in_month(year, month);
    let kept: u32 = if number < length {
        number
    } else {
        length
    };
    match Date::from_ymd_opt(year, month, kept) {
        Some(found) => found,
        None => {
            assert(false);
            *day
        },
    }
}

/// The rows of weeks that are shown, the date that is kept while moving, and the month of the title.
#[derive(Debug)]
pub struct MonthPane {
    pub buffer: WeeksBuffer,
    pub active_date: Date,
    pub title: (i32, u32),
}

/// An edge of the rows of a buffer.
#[derive(Clone, Copy, Debug, PartialEq, Eq, Structural)]
pub enum BufferEdge {
    Top,
    Bottom,
}

/// The weeks by which a buffer slides towards an edge.
pub open spec fn weeks_towards(edge: BufferEdge) -> int {
    match edge {
        BufferEdge::Top => -1,
        BufferEdge::Bottom => 1,
    }
}

/// A week keeps its place on the screen when the buffer slides: it stands in the row that is as many
/// rows further down as the rows moved.
pub proof fn law_recycling_keeps_what_is_seen(first: int, row: int, edge: BufferEdge)
    ensures
        weeks_buffer::row_day(first + weeks_towards(edge) * 7, row - weeks_towards(edge))
            == weeks_buffer::row_day(first, row),
{
}

/// The first day of the month of a day.
pub open spec fn month_start(day: int) -> int {
    date::day_number(date::civil_of(day).0, date::civil_of(day).1, 1)
}

/// The first day of the month of a day.
fn first_of_month(day: &Date) -> (r: Date)
    ensures
        r@ == month_start(day@),
{
    let (year, month, _): (i32, u32, u32) = day.ymd();
    match Date::from_ymd_opt(year, month, 1) {
        Some(first) => first,
        None => {
            assert(false);
            *day
        },
    }
}

impl MonthPane {
    /// Whether the pane shows the week of a day in the first row that is seen, keeps a date, and has
    /// the month of that row for its title.
    pub open spec fn shows(self, day: int, kept: Date) -> bool {
        &&& self.buffer.first() == month_view::monday_of(day)
        &&& self.active_date == kept
        &&& (self.title.0 as int, self.title.1 as int) == month_of(month_view::monday_of(day) + 3)
    }

    fn show_week(&mut self, day: &Date, kept: Date)
        requires
            has_rows(month_view::monday_of(day@)),
        ensures
            final(self).shows(day@, kept),
    {
        self.buffer = WeeksBuffer::new(monday_of_week(day));
        self.active_date = kept;
        self.title = self.row_month(weeks_buffer::VISIBLE_START);
    }

    /// Show the week of a date in the first row that is seen.
    pub fn set_active_date(&mut self, date: Date)
        requires
            has_rows(month_view::monday_of(date@)),
        ensures
            final(self).shows(date@, date),
    {
        self.show_week(&date, date);
    }

    /// Show the month before, from the week of its first day on.
    pub fn navigate_previous(&mut self)
        requires
            date::is_day(view_state::months_after(old(self).active_date@, -1)),
            has_rows(
                month_view::monday_of(
                    month_start(view_state::months_after(old(self).active_date@, -1)),
                ),
            ),
        ensures
            final(self).active_date@ == view_state::months_after(old(self).active_date@, -1),
            final(self).shows(month_start(final(self).active_date@), final(self).active_date),
    {
        let date = view_state::shift_month(&self.active_date, false);
        self.show_week(&first_of_month(&date), date);
    }

    /// Show the month after, from the week of its first day on.
    pub fn navigate_next(&mut self)
        requires
            date::is_day(view_state::months_after(old(self).active_date@, 1)),
            has_rows(
                month_view::monday_of(
                    month_start(view_state::months_after(old(self).active_date@, 1)),
                ),
            ),
        ensures
            final(self).active_date@ == view_state::months_after(old(self).active_date@, 1),
            final(self).shows(month_start(final(self).active_date@), final(self).active_date),
    {
        let date = view_state::shift_month(&self.active_date, true);
        self.show_week(&first_of_month(&date), date);
    }

    /// Show the week of today in the first row that is seen.
    pub fn go_today(&mut self, today: Date)
        requires
            has_rows(month_view::monday_of(today@)),
        ensures
            final(self).shows(today@, today),
    {
        self.set_active_date(today);
    }

    /// The month of a row: that of its Thursday.
    pub fn row_month(&self, row: usize) -> (r: (i32, u32))
        requires
            row < weeks_buffer::TOTAL_ROWS,
            has_rows(self.buffer.first()),
        ensures
            (r.0 as int, r.1 as int) == month_of(
                weeks_buffer::row_day(self.buffer.first(), row as int) + 3,
            ),
            date::MIN_YEAR <= r.0 <= date::MAX_YEAR,
            1 <= r.1 <= 12,
    {
        let thursday = self.buffer.row_dates(row)[3];
        let (year, month, _): (i32, u32, u32) = thursday.ymd();
        (year, month)
    }

    /// A row became the first that is wholly seen. Where its month is another than that of the
    /// title, the title and the date that is kept follow it.
    pub fn scrolled_to(&mut self, row: usize) -> (r: bool)
        requires
            row < weeks_buffer::TOTAL_ROWS,
            has_rows(old(self).buffer.first()),
        ensures
            ({
                let month = month_of(weeks_buffer::row_day(old(self).buffer.first(), row as int) + 3);
                &&& r == (month != (old(self).title.0 as int, old(self).title.1 as int))
                &&& final(self).buffer == old(self).buffer
                &&& r ==> (final(self).title.0 as int, final(self).title.1 as int) == month
                    && final(self).active_date@ == day_in_month(
                    old(self).active_date@,
                    month.0,
                    month.1,
                )
                &&& !r ==> *final(self) == *old(self)
            }),
    {
        let (year, month): (i32, u32) = self.row_month(row);
        if year == self.title.0 && month == self.title.1 {
            return false;
        }
        self.title = (year, month);
        self.active_date = reconcile_month(&self.active_date, year, month);
        true
    }

    /// An edge of the buffer came near: the buffer slides by a week towards it. The result is the
    /// number of rows by which what is seen moved down in the buffer.
    pub fn recycle(&mut self, edge: BufferEdge) -> (r: i32)
        requires
            has_rows(old(self).buffer.first() + weeks_towards(edge) * 7),
        ensures
            final(self).buffer.first() == old(self).buffer.first() + weeks_towards(edge) * 7,
            final(self).active_date == old(self).active_date,
            final(self).title == old(self).title,
            r == -weeks_towards(edge),
    {
        let weeks: i32 = match edge {
            BufferEdge::Top => -1,
            BufferEdge::Bottom => 1,
        };
        self.buffer.shift_weeks(weeks);
        -weeks
    }
}

/// The months of some days are those that a day of them lies in, each once.
pub proof fn law_months_of_days(days: Seq<Date>, month: (int, int))
    ensures
        months_of(days).contains(month) <==> exists|i: int|
            0 <= i < days.len() && (
            date::civil_of(#[trigger] days[i]@).0,
            date::civil_of(days[i]@).1,
        ) == month,
        months_of(days).no_duplicates(),
    decreases days.len(),
{
    if days.len() > 0 {
        let shorter = days.drop_last();
        law_months_of_days(shorter, month);
        let before = months_of(shorter);
        let last = month_of(days.last()@);
        if exists|i: int|
            0 <= i < days.len() && (
            date::civil_of(#[trigger] days[i]@).0,
            date::civil_of(days[i]@).1,
        ) == month {
            let i = choose|i: int|
                0 <= i < days.len() && (
                date::civil_of(#[trigger] days[i]@).0,
                date::civil_of(days[i]@).1,
            ) == month;
            if i < shorter.len() {
                assert(shorter[i]@ == days[i]@);
                assert(before.contains(month));
            }
        }
        if exists|i: int|
            0 <= i < shorter.len() && (
            date::civil_of(#[trigger] shorter[i]@).0,
            date::civil_of(shorter[i]@).1,
        ) == month {
            let i = choose|i: int|
                0 <= i < shorter.len() && (
                date::civil_of(#[trigger] shorter[i]@).0,
                date::civil_of(shorter[i]@).1,
            ) == month;
            assert(days[i]@ == shorter[i]@);
        }
        assert(days[days.len() - 1]@ == days.last()@);
        if before.contains(last) {
            assert(months_of(days) == before);
        } else {
            assert(months_of(days) =~= before.push(last));
            assert(before.push(last)[before.len() as int] == last);
            if before.contains(month) {
                let k = choose|k: int| 0 <= k < before.len() && before[k] == month;
                assert(before.push(last)[k] == month);
            }
            assert forall|a: int, b: int| 0 <= a < before.len() + 1 && 0 <= b < before.len() + 1 && a
                != b implies before.push(last)[a] != before.push(last)[b] by {
                if a == before.len() {
                    assert(before[b] == before.push(last)[b]);
                    assert(before.contains(before[b]));
                } else if b == before.len() {
                    assert(before[a] == before.push(last)[a]);
                    assert(before.contains(before[a]));
                }
            }
        }
    }
}

/// What a cell of a month shows: the day of the month, or the month on its first day; the line above
/// the first week of a month and beside its first day; and whether it is today or in another month.
pub proof fn law_cell_of_a_day(cell: DayCell, today: int, year: int, month: int, day: (int, int, int))
    requires
        date::is_civil(day.0, day.1, day.2),
        is_cell(cell, date::day_number(day.0, day.1, day.2), today, year, month),
    ensures
        day.2 == 1 ==> cell.label@ == names::month_word(day.1) && cell.first_day && cell.separator_side,
        day.2 != 1 ==> cell.label@ == text::decimal(day.2 as nat) && !cell.first_day
            && !cell.separator_side,
        cell.separator_top <==> day.2 < 8,
        cell.other_month <==> !(day.0 == year && day.1 == month),
        cell.today <==> date::day_number(day.0, day.1, day.2) == today,
{
    date::lemma_civil_of(day.0, day.1, day.2);
}

/// A cell shows three events at most, those on whole days first.
pub proof fn law_events_of_a_cell(day: DayView, i: int)
    ensures
        cell_chips(day).len() <= 3,
        cell_chips(day).len() == day.all_day.len() + day.timed.len() || cell_chips(day).len() == 3,
        0 <= i < cell_chips(day).len() ==> cell_chips(day)[i] == (if i < day.all_day.len() {
            day.all_day[i]
        } else {
            day.timed[i - day.all_day.len()]
        }),
{
}

/// The day of another month has the same number, or is the last one where the month is shorter. The
/// start of a month is its first day.
pub proof fn law_day_of_another_month(day: int, year: int, month: int)
    requires
        1 <= month <= 12,
    ensures
        ({
            let (y, m, d) = date::civil_of(day);
            let length = date::month_length(year, month);
            &&& d <= length ==> date::civil_of(day_in_month(day, year, month)) == (year, month, d)
            &&& d > length ==> date::civil_of(day_in_month(day, year, month)) == (year, month, length)
            &&& date::civil_of(month_start(day)) == (y, m, 1int)
        }),
{
    date::lemma_civil_exists(day);
    let (y, m, d) = date::civil_of(day);
    let length = date::month_length(year, month);
    date::lemma_civil_of(year, month, view_state::smaller(d, length));
    date::lemma_civil_of(y, m, 1);
}

/// What is shown of a day is the first that is there for it.
pub proof fn law_first_of_a_day(projections: Seq<DayView>, day: int, i: int)
    requires
        0 <= i < projections.len(),
        projections[i].date@ == day,
        forall|k: int| 0 <= k < i ==> (#[trigger] projections[k]).date@ != day,
    ensures
        first_on(projections, day) == Some(projections[i]),
    decreases projections.len(),
{
    if i > 0 {
        let rest = projections.drop_first();
        assert(projections[0].date@ != day);
        assert forall|k: int| 0 <= k < i - 1 implies (#[trigger] rest[k]).date@ != day by {
            assert(rest[k] == projections[k + 1]);
        }
        assert(rest[i - 1] == projections[i]);
        law_first_of_a_day(rest, day, i - 1);
    }
}

/// Fifteen weeks are shown from five weeks before the first one seen; the pane begins with a week, is
/// called by the month of its Thursday, and moves by a week towards an edge.
pub proof fn law_weeks_of_the_pane(pane: MonthPane, day: int, kept: Date)
    requires
        pane.shows(day, kept),
    ensures
        date::weekday_of(pane.buffer.first()) == 0,
        pane.buffer.first() <= day < pane.buffer.first() + 7,
        pane.title.0 == date::civil_of(pane.buffer.first() + 3).0,
        pane.title.1 == date::civil_of(pane.buffer.first() + 3).1,
        pane.active_date == kept,
        BUFFER_DAYS == 105,
        has_rows(day) <==> date::is_day(day - 35) && date::is_day(day + 69),
        weeks_towards(BufferEdge::Top) == -1,
        weeks_towards(BufferEdge::Bottom) == 1,
{
    month_view::law_week_begins_on_monday(day);
}

} // verus!
