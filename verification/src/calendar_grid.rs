//! The six-week, Monday-first grid of a month.
use vstd::prelude::*;

use crate::date;

verus! {

/// Number of cells of the grid: six weeks.
pub const GRID_CELLS: usize = 42;

/// One day of the grid.
#[derive(Clone, Copy, Debug, PartialEq, Eq, Structural)]
pub struct MonthCell {
    pub year: i32,
    pub month: u32,
    pub day: u32,
    pub in_displayed_month: bool,
}

impl MonthCell {
    /// Whether the cell names a date of the calendar.
    pub open spec fn is_civil(self) -> bool {
        date::is_civil(self.year as int, self.month as int, self.day as int)
    }

    /// The day number of the cell.
    pub open spec fn day_number(self) -> int {
        date::day_number(self.year as int, self.month as int, self.day as int)
    }
}

/// Day number of the Monday on or before the first of the month.
pub open spec fn grid_start(year: int, month: int) -> int {
    let first = date::day_number(year, month, 1);
    first - date::weekday_of(first)
}

/// Cell `i` of the grid of `year`-`month`: the day `i` days after the first Monday.
pub open spec fn is_grid_cell(cell: MonthCell, year: i32, month: u32, i: int) -> bool {
    &&& cell.is_civil()
    &&& cell.day_number() == grid_start(year as int, month as int) + i
    &&& cell.in_displayed_month == (cell.year == year && cell.month == month)
}

/// Days of a month, 28 to 31.
fn days_in_month(year: i32, month: u32) -> (r: u32)
    requires
        1 <= month <= 12,
    ensures
        r == date::month_length(year as int, month as int),
        28 <= r <= 31,
{
    if month == 2 {
        let leap = (year % 4 == 0 && year % 100 != 0) || year % 400 == 0;
        assert(leap == date::is_leap_year(year as int));
        if leap {
            29
        } else {
            28
        }
    } else if month == 4 || month == 6 || month == 9 || month == 11 {
        30
    } else {
        31
    }
}

/// The congruence behind the weekday of the first of a month: January and February count as the
/// thirteenth and fourteenth month of the year before.
proof fn lemma_first_weekday(year: int, month: int, ay: int, am: int, q4: int, q100: int, q400: int)
    requires
        1 <= month <= 12,
        ay == (if month <= 2 {
            year - 1
        } else {
            year
        }),
        am == (if month <= 2 {
            month + 12
        } else {
            month
        }),
        q4 == ay / 4,
        q100 == ay / 100,
        q400 == ay / 400,
    ensures
        date::weekday_of(date::day_number(year, month, 1)) == (ay + q4 - q100 + q400
            + (13 * am + 8) / 5 + 1 + 6) % 7,
{
    let n = date::day_number(year, month, 1);
    lemma_days_before_month(year, month);
    date::lemma_year_length(year);
    let c = (13 * am + 8) / 5;
    let k = n - 1 - 365 * ay - (q4 - q100 + q400);
    if month <= 2 {
        assert(date::days_before_year(year) == 365 * ay + q4 - q100 + q400);
    } else {
        assert(date::days_before_year(year + 1) == 365 * year + q4 - q100 + q400);
    }
    assert((k - c - 7) % 7 == 0) by {
        lemma_month_code(month, am, k);
    }
    lemma_weeks(n - 1, ay, q4 - q100 + q400, k, c);
}

/// The days of the months differ from the month codes by whole weeks.
proof fn lemma_month_code(month: int, am: int, k: int)
    requires
        1 <= month <= 12,
        am == (if month <= 2 {
            month + 12
        } else {
            month
        }),
        k == (if month == 1 {
            0int
        } else if month == 2 {
            31
        } else if month == 3 {
            -306
        } else if month == 4 {
            -275
        } else if month == 5 {
            -245
        } else if month == 6 {
            -214
        } else if month == 7 {
            -184
        } else if month == 8 {
            -153
        } else if month == 9 {
            -122
        } else if month == 10 {
            -92
        } else if month == 11 {
            -61
        } else {
            -31
        }),
    ensures
        (k - (13 * am + 8) / 5 - 7) % 7 == 0,
{
}

/// Counts that differ by whole weeks agree on the weekday.
proof fn lemma_weeks(n: int, ay: int, s: int, k: int, c: int)
    requires
        n == 365 * ay + s + k,
        (k - c - 7) % 7 == 0,
    ensures
        n % 7 == (ay + s + c + 1 + 6) % 7,
{
    let j = (k - c - 7) / 7;
    assert(n == (ay + s + c + 7) + 7 * (52 * ay + j));
}

/// The days before each month, by the length of February.
proof fn lemma_days_before_month(year: int, month: int)
    requires
        1 <= month <= 12,
    ensures
        month == 1 ==> date::days_before_month(year, month) == 0,
        month == 2 ==> date::days_before_month(year, month) == 31,
        month > 2 ==> date::days_before_month(year, month)
            == date::days_before_month(year, 13) - (if month == 3 {
            306int
        } else if month == 4 {
            275
        } else if month == 5 {
            245
        } else if month == 6 {
            214
        } else if month == 7 {
            184
        } else if month == 8 {
            153
        } else if month == 9 {
            122
        } else if month == 10 {
            92
        } else if month == 11 {
            61
        } else {
            31
        }),
{
    reveal_with_fuel(date::days_before_month, 13);
}

/// The six-week grid that shows `year`-`month`, Monday first.
pub fn month_grid(year: i32, month: u32) -> (grid: [MonthCell; 42])
    requires
        1 <= month <= 12,
        year >= (if month <= 2 {
            1int
        } else {
            0int
        }),
        month == 12 ==> year < i32::MAX,
    ensures
        forall|i: int|
            0 <= i < GRID_CELLS ==> #[trigger] is_grid_cell(grid@[i], year, month, i),
{
    let (ay, am): (i64, i64) = if month <= 2 {
        (year as i64 - 1, month as i64 + 12)
    } else {
        (year as i64, month as i64)
    };
    let first_weekday: i32 = ((ay + ay / 4 - ay / 100 + ay / 400 + (13 * am + 8) / 5 + 1 + 6) % 7) as i32;
    proof {
        lemma_first_weekday(
            year as int,
            month as int,
            ay as int,
            am as int,
            ay as int / 4,
            ay as int / 100,
            ay as int / 400,
        );
    }
    let (previous_year, previous_month): (i32, u32) = if month == 1 {
        (year - 1, 12)
    } else {
        (year, (month - 1) as u32)
    };
    let (next_year, next_month): (i32, u32) = if month == 12 {
        (year + 1, 1)
    } else {
        (year, month + 1)
    };
    let previous_length: u32 = days_in_month(previous_year, previous_month);
    let length: u32 = days_in_month(year, month);
    let next_length: u32 = days_in_month(next_year, next_month);
    let mut grid: [MonthCell; 42] = [MonthCell {
        year,
        month,
        day: 1,
        in_displayed_month: true,
    };42];
    proof {
        date::lemma_year_length(year as int - 1);
        date::lemma_year_length(year as int);
        assert(date::days_before_month(year as int, 1) == 0);
        assert(date::days_before_month(year as int + 1, 1) == 0);
        assert(date::days_before_month(year as int, 13) == date::days_before_month(
            year as int,
            12,
        ) + 31);
        assert(date::days_before_month(year as int - 1, 13)
            == date::days_before_month(year as int - 1, 12) + 31);
    }
    for i in 0..42usize
        invariant
            1 <= month <= 12,
            0 <= first_weekday < 7,
            first_weekday == date::weekday_of(
                date::day_number(year as int, month as int, 1),
            ),
            previous_length == date::month_length(previous_year as int, previous_month as int),
            length == date::month_length(year as int, month as int),
            next_length == date::month_length(next_year as int, next_month as int),
            28 <= previous_length <= 31,
            28 <= length <= 31,
            28 <= next_length <= 31,
            1 <= previous_month <= 12,
            1 <= next_month <= 12,
            previous_month != month,
            next_month != month,
            date::day_number(previous_year as int, previous_month as int, 1)
                + previous_length == date::day_number(year as int, month as int, 1),
            date::day_number(year as int, month as int, 1) + length
                == date::day_number(next_year as int, next_month as int, 1),
            forall|k: int|
                0 <= k < i ==> #[trigger] is_grid_cell(grid@[k], year, month, k),
    {
        let offset: i32 = 1 - first_weekday + i as i32;
        let cell = if offset < 1 {
            MonthCell {
                year: previous_year,
                month: previous_month,
                day: (offset + previous_length as i32) as u32,
                in_displayed_month: false,
            }
        } else if offset > length as i32 {
            MonthCell {
                year: next_year,
                month: next_month,
                day: (offset - length as i32) as u32,
                in_displayed_month: false,
            }
        } else {
            MonthCell { year, month, day: offset as u32, in_displayed_month: true }
        };
        assert(is_grid_cell(cell, year, month, i as int));
        grid[i] = cell;
    }
    grid
}

/// The grid is forty-two consecutive days, begins on a Monday and holds every day of the month.
pub proof fn law_grid_covers_the_month(year: i32, month: u32, grid: Seq<MonthCell>, day: int)
    requires
        1 <= month <= 12,
        grid.len() == GRID_CELLS,
        forall|i: int| 0 <= i < GRID_CELLS ==> #[trigger] is_grid_cell(grid[i], year, month, i),
        1 <= day <= date::month_length(year as int, month as int),
    ensures
        date::weekday_of(grid[0].day_number()) == 0,
        forall|i: int|
            0 <= i < GRID_CELLS - 1 ==> (#[trigger] grid[i + 1]).day_number()
                == grid[i].day_number() + 1,
        exists|i: int|
            0 <= i < GRID_CELLS && #[trigger] grid[i].in_displayed_month && grid[i].year == year
                && grid[i].month == month && grid[i].day == day,
{
    let first = date::day_number(year as int, month as int, 1);
    assert(is_grid_cell(grid[0], year, month, 0));
    assert forall|i: int| 0 <= i < GRID_CELLS - 1 implies (#[trigger] grid[i + 1]).day_number()
        == grid[i].day_number() + 1 by {
        assert(is_grid_cell(grid[i], year, month, i));
        assert(is_grid_cell(grid[i + 1], year, month, i + 1));
    }
    let i = date::weekday_of(first) + day - 1;
    assert(is_grid_cell(grid[i], year, month, i));
    date::lemma_day_number_order(
        grid[i].year as int,
        grid[i].month as int,
        grid[i].day as int,
        year as int,
        month as int,
        day,
    );
    assert(grid[i].in_displayed_month);
}

} // verus!
