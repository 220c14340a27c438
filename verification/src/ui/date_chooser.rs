//! Choosing a date on the grid of a month.
use vstd::prelude::*;

use crate::calendar_grid;
use crate::calendar_grid::MonthCell;
use crate::date;
use crate::date::Date;
use crate::month_view;
use crate::text;
use crate::ui::names;

verus! {

/// The month that is shown, the date that is chosen and the date of today.
#[derive(Clone, Copy, Debug)]
pub struct DateChooser {
    pub display_year: i32,
    pub display_month: u32,
    pub selected: Date,
    pub today: Date,
}

/// A button for a day.
#[derive(Debug)]
pub struct DayButton {
    pub cell: MonthCell,
    pub label: String,
    pub other_month: bool,
    pub today: bool,
    pub selected: bool,
}

/// Whether a button is the `i`-th of the grid of a month.
pub open spec fn is_button(button: DayButton, chooser: DateChooser, i: int) -> bool {
    let cell = button.cell;
    &&& calendar_grid::is_grid_cell(cell, chooser.display_year, chooser.display_month, i)
    &&& button.label@ == text::decimal(cell.day as nat)
    &&& button.other_month == !cell.in_displayed_month
    &&& button.today == (cell.day_number() == chooser.today@)
    &&& button.selected == (cell.day_number() == chooser.selected@)
}

/// What stands over the grid of a month.
pub open spec fn month_heading(year: int, month: int) -> Seq<char> {
    names::month_word(month) + " "@ + text::signed_decimal(year)
}

impl DateChooser {
    /// Show and choose a date.
    pub fn set_date(&mut self, date: Date)
        ensures
            final(self).selected == date,
            final(self).today == old(self).today,
            (final(self).display_year as int, final(self).display_month as int) == (
                date::civil_of(date@).0,
                date::civil_of(date@).1,
            ),
    {
        let (year, month, _): (i32, u32, u32) = date.ymd();
        self.display_year = year;
        self.display_month = month;
        self.selected = date;
    }

    /// Show the month before.
    pub fn previous_month(&mut self)
        requires
            1 <= old(self).display_month <= 12,
            old(self).display_month == 1 ==> old(self).display_year > i32::MIN,
        ensures
            final(self).selected == old(self).selected,
            final(self).today == old(self).today,
            1 <= final(self).display_month <= 12,
            final(self).display_year * 12 + final(self).display_month == old(self).display_year * 12
                + old(self).display_month - 1,
    {
        if self.display_month == 1 {
            self.display_year = self.display_year - 1;
            self.display_month = 12;
        } else {
            self.display_month = self.display_month - 1;
        }
    }

    /// Show the month after.
    pub fn next_month(&mut self)
        requires
            1 <= old(self).display_month <= 12,
            old(self).display_month == 12 ==> old(self).display_year < i32::MAX,
        ensures
            final(self).selected == old(self).selected,
            final(self).today == old(self).today,
            1 <= final(self).display_month <= 12,
            final(self).display_year * 12 + final(self).display_month == old(self).display_year * 12
                + old(self).display_month + 1,
    {
        if self.display_month == 12 {
            self.display_year = self.display_year + 1;
            self.display_month = 1;
        } else {
            self.display_month = self.display_month + 1;
        }
    }

    /// What stands over the grid.
    pub fn heading(&self) -> (r: String)
        requires
            1 <= self.display_month <= 12,
        ensures
            r@ == month_heading(self.display_year as int, self.display_month as int),
    {
        let mut out = text::joined(names::month_name(self.display_month), " ");
        out.append(text::signed_decimal_text(self.display_year as i64).as_str());
        assert(out@ =~= month_heading(self.display_year as int, self.display_month as int));
        out
    }

    /// The buttons of the grid.
    pub fn populate_grid(&self) -> (r: Vec<DayButton>)
        requires
            month_view::has_grid(self.display_year, self.display_month),
        ensures
            r@.len() == 42,
            forall|i: int| 0 <= i < 42 ==> is_button(#[trigger] r@[i], *self, i),
    {
        let grid = calendar_grid::month_grid(self.display_year, self.display_month);
        let (ty, tm, td): (i32, u32, u32) = self.today.ymd();
        let (sy, sm, sd): (i32, u32, u32) = self.selected.ymd();
        let mut out: Vec<DayButton> = Vec::new();
        for i in 0..42usize
            invariant
                date::is_civil(ty as int, tm as int, td as int),
                date::day_number(ty as int, tm as int, td as int) == self.today@,
                date::is_civil(sy as int, sm as int, sd as int),
                date::day_number(sy as int, sm as int, sd as int) == self.selected@,
                forall|k: int|
                    0 <= k < 42 ==> #[trigger] calendar_grid::is_grid_cell(
                        grid@[k],
                        self.display_year,
                        self.display_month,
                        k,
                    ),
                out@.len() == i,
                forall|k: int| 0 <= k < i ==> is_button(#[trigger] out@[k], *self, k),
        {
            let cell = grid[i];
            proof {
                assert(calendar_grid::is_grid_cell(
                    grid@[i as int],
                    self.display_year,
                    self.display_month,
                    i as int,
                ));
                date::lemma_civil_of(cell.year as int, cell.month as int, cell.day as int);
                date::lemma_civil_of(ty as int, tm as int, td as int);
                date::lemma_civil_of(sy as int, sm as int, sd as int);
            }
            out.push(
                DayButton {
                    cell,
                    label: text::decimal_text(cell.day as u64),
                    other_month: !cell.in_displayed_month,
                    today: cell.year == ty && cell.month == tm && cell.day == td,
                    selected: cell.year == sy && cell.month == sm && cell.day == sd,
                },
            );
        }
        out
    }

    /// A button of the grid was pressed: its date is chosen and its month is shown.
    pub fn choose_cell(&mut self, cell: &MonthCell)
        requires
            cell.is_civil(),
            date::MIN_YEAR <= cell.year <= date::MAX_YEAR,
        ensures
            final(self).selected@ == cell.day_number(),
            final(self).display_year == cell.year,
            final(self).display_month == cell.month,
            final(self).today == old(self).today,
    {
        if let Some(date) = Date::from_ymd_opt(cell.year, cell.month, cell.day) {
            self.selected = date;
        }
        self.display_year = cell.year;
        self.display_month = cell.month;
    }
}

/// What a button shows of its day: the number of the day, whether it belongs to another month, whether
/// it is today, and whether it is the chosen one.
pub proof fn law_button_of_a_day(button: DayButton, chooser: DateChooser, i: int)
    requires
        is_button(button, chooser, i),
    ensures
        button.label@ == text::decimal(date::civil_of(button.cell.day_number()).2 as nat),
        button.today <==> button.cell.day_number() == chooser.today@,
        button.selected <==> button.cell.day_number() == chooser.selected@,
        button.other_month <==> !(date::civil_of(button.cell.day_number()).0 == chooser.display_year
            && date::civil_of(button.cell.day_number()).1 == chooser.display_month),
{
    let cell = button.cell;
    date::lemma_civil_of(cell.year as int, cell.month as int, cell.day as int);
}

/// The heading of a month: its name and its year.
pub proof fn law_heading_of_a_month(year: int, month: int)
    ensures
        month_heading(year, month) == names::month_word(month).push(' ') + text::signed_decimal(year),
{
    reveal_strlit(" ");
    assert(month_heading(year, month) =~= names::month_word(month).push(' ') + text::signed_decimal(year));
}

} // verus!
