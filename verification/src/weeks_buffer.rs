//! A run of weeks that slides through time.
use vstd::prelude::*;

use crate::date;
use crate::date::Date;

verus! {

/// Rows of the buffer: five above those that are visible, five visible, five below.
pub const TOTAL_ROWS: usize = 15;

/// The first visible row.
pub const VISIBLE_START: usize = 5;

/// The row after the last visible row.
pub const VISIBLE_END: usize = 10;

/// Fifteen consecutive weeks.
#[derive(Clone, Copy, Debug, PartialEq, Eq, Structural)]
pub struct WeeksBuffer {
    first_visible_monday: Date,
}

/// The first day of a row, where the first visible row begins on `first`.
pub open spec fn row_day(first: int, row: int) -> int {
    first + (row - VISIBLE_START) * 7
}

impl WeeksBuffer {
    /// The first day of the first visible row.
    pub closed spec fn first(self) -> int {
        self.first_visible_monday@
    }

    /// The buffer whose first visible row begins on a day, which should be a Monday.
    pub fn new(first_visible_monday: Date) -> (r: WeeksBuffer)
        ensures
            r.first() == first_visible_monday@,
    {
        WeeksBuffer { first_visible_monday }
    }

    /// The first day of the first visible row.
    pub fn first_visible_monday(&self) -> (r: Date)
        ensures
            r@ == self.first(),
    {
        self.first_visible_monday
    }

    /// The first day of a row.
    pub fn row_start(&self, row: usize) -> (r: Date)
        requires
            row < TOTAL_ROWS,
            date::is_day(row_day(self.first(), row as int)),
        ensures
            r@ == row_day(self.first(), row as int),
    {
        let offset: i64 = (row as i64 - VISIBLE_START as i64) * 7;
        match self.first_visible_monday.plus_days(offset) {
            Some(day) => day,
            None => {
                assert(false);
                self.first_visible_monday
            },
        }
    }

    /// The seven days of a row.
    pub fn row_dates(&self, row: usize) -> (r: Vec<Date>)
        requires
            row < TOTAL_ROWS,
            date::is_day(row_day(self.first(), row as int)),
            date::is_day(row_day(self.first(), row as int) + 6),
        ensures
            r@.len() == 7,
            forall|i: int| 0 <= i < 7 ==> (#[trigger] r@[i])@ == row_day(self.first(), row as int) + i,
    {
        let start = self.row_start(row);
        let mut out: Vec<Date> = Vec::new();
        for i in 0..7i64
            invariant
                start@ == row_day(self.first(), row as int),
                date::is_day(start@),
                date::is_day(start@ + 6),
                out@.len() == i,
                forall|k: int| 0 <= k < i ==> (#[trigger] out@[k])@ == start@ + k,
        {
            match start.plus_days(i) {
                Some(day) => {
                    out.push(day);
                },
                None => {
                    assert(false);
                },
            }
        }
        out
    }

    /// Slide the buffer by a number of weeks.
    pub fn shift_weeks(&mut self, weeks: i32)
        requires
            date::is_day(old(self).first() + weeks * 7),
        ensures
            final(self).first() == old(self).first() + weeks * 7,
    {
        if let Some(day) = self.first_visible_monday.plus_days(weeks as i64 * 7) {
            self.first_visible_monday = day;
        }
    }
}

/// The days of the buffer: from the first day of its first row to the day before its end.
pub open spec fn is_covered(first: int, day: int) -> bool {
    row_day(first, 0) <= day < row_day(first, TOTAL_ROWS as int)
}

/// The row of the buffer in which a day stands.
pub open spec fn row_of(first: int, day: int) -> int {
    (day - first) / 7 + VISIBLE_START
}

/// Sliding the buffer moves every row by as many rows: a row begins where the row that many below it
/// began, a week after the row above it, and on a Monday where the buffer begins on one.
pub proof fn law_sliding_moves_rows(first: int, row: int, weeks: int)
    ensures
        row_day(first + weeks * 7, row) == row_day(first, row + weeks),
        row_day(first, row + 1) == row_day(first, row) + 7,
        date::weekday_of(first) == 0 ==> date::weekday_of(row_day(first, row)) == 0,
{
    assert(row_day(first + weeks * 7, row) == row_day(first, row + weeks)) by (nonlinear_arith)
        requires
            row_day(first + weeks * 7, row) == first + weeks * 7 + (row - 5) * 7,
            row_day(first, row + weeks) == first + (row + weeks - 5) * 7,
    ;
    assert((first - 1 + (row - 5) * 7) % 7 == (first - 1) % 7) by (nonlinear_arith);
}

/// The days before and after a slide of at most as many weeks as the buffer has rows leave no gap:
/// together they are the run of days from the earlier start to the later end. Each day of the buffer
/// stands in exactly one row.
pub proof fn law_sliding_leaves_no_gap(first: int, weeks: int, day: int, row: int)
    requires
        -TOTAL_ROWS <= weeks <= TOTAL_ROWS,
    ensures
        (is_covered(first, day) || is_covered(first + weeks * 7, day)) == if weeks >= 0 {
            row_day(first, 0) <= day < row_day(first + weeks * 7, TOTAL_ROWS as int)
        } else {
            row_day(first + weeks * 7, 0) <= day < row_day(first, TOTAL_ROWS as int)
        },
        is_covered(first, day) ==> 0 <= row_of(first, day) < TOTAL_ROWS,
        (row_day(first, row) <= day < row_day(first, row) + 7) == (row == row_of(first, day)),
{
}

/// Fifteen weeks are kept: five before the first one that is seen, five that are seen, and five after
/// them. Row five begins on the first day that is seen.
pub proof fn law_fifteen_weeks(first: int, day: int)
    ensures
        row_day(first, 5) == first,
        row_day(first, 0) == first - 35,
        row_day(first, 10) == first + 35,
        is_covered(first, day) <==> first - 35 <= day < first + 70,
        row_of(first, first) == 5,
        row_of(first, first + 6) == 5,
        row_of(first, first + 7) == 6,
        row_of(first, first - 1) == 4,
        TOTAL_ROWS == 15,
        VISIBLE_START == 5,
        VISIBLE_END == 10,
{
}

} // verus!
