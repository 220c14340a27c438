//! Which view is shown, and on which day.
use vstd::prelude::*;

use crate::date;
use crate::date::Date;
use crate::month_view;

verus! {

/// A view of the calendar.
#[derive(Clone, Copy, Debug, PartialEq, Eq, Structural)]
pub enum ViewKind {
    Month,
    Week,
    Agenda,
}

/// Which view is shown, and on which day.
#[derive(Debug)]
pub struct ViewState {
    view: ViewKind,
    active_date: Date,
}

/// The year and month a number of months after another.
pub open spec fn month_after(year: int, month: int, months: int) -> (int, int) {
    let index = year * 12 + (month - 1) + months;
    (index / 12, index % 12 + 1)
}

/// The smaller of two numbers.
pub open spec fn smaller(a: int, b: int) -> int {
    if a < b {
        a
    } else {
        b
    }
}

/// The day a number of months after another: the same day of the month, or the last where the month
/// has no such day.
pub open spec fn months_after(day: int, months: int) -> int {
    let (y, m, d) = date::civil_of(day);
    let (year, month) = month_after(y, m, months);
    date::day_number(year, month, smaller(d, date::month_length(year, month)))
}

/// The day that a view moves to by one step.
pub open spec fn moved(view: ViewKind, day: int, direction: int) -> int {
    match view {
        ViewKind::Month => months_after(day, direction),
        ViewKind::Week | ViewKind::Agenda => day + 7 * direction,
    }
}

/// The length of a month.
pub(crate) fn days_in_month(year: i32, month: u32) -> (r: u32)
    requires
        1 <= month <= 12,
    ensures
        r == date::month_length(year as int, month as int),
{
    if month == 2 {
        let leap = (year % 4 == 0 && year % 100 != 0) || year % 400 == 0;
        assert(leap == date::is_leap_year(year as int));
        if leap {
            29
        } else {
            28
        }
    } else if month == 4 || month == 6 || month == 9 || month == 11 {
        30
    } else {
        31
    }
}

/// The day a month after or before another.
pub fn shift_month(day: &Date, forward: bool) -> (r: Date)
    requires
        date::is_day(
            months_after(
                day@,
                if forward {
                    1
                } else {
                    -1
                },
            ),
        ),
    ensures
        r@ == months_after(
            day@,
            if forward {
                1
            } else {
                -1
            },
        ),
{
    let (y, m, d): (i32, u32, u32) = day.ymd();
    let (year, month): (i32, u32) = if forward {
        if m == 12 {
            (y + 1, 1)
        } else {
            (y, m + 1)
        }
    } else {
        if m == 1 {
            (y - 1, 12)
        } else {
            (y, (m - 1) as u32)
        }
    };
    let length = days_in_month(year, month);
    let kept: u32 = if d < length {
        d
    } else {
        length
    };
    proof {
        date::lemma_year_in_range(year as int, month as int, kept as int);
    }
    match Date::from_ymd_opt(year, month, kept) {
        Some(moved) => moved,
        None => {
            assert(false);
            *day
        },
    }
}

impl ViewState {
    /// The view that is shown.
    pub closed spec fn view_spec(self) -> ViewKind {
        self.view
    }

    /// The day on which it is shown.
    pub closed spec fn day(self) -> int {
        self.active_date@
    }

    /// A view on a day.
    pub fn new(view: ViewKind, active_date: Date) -> (r: ViewState)
        ensures
            r.view_spec() == view,
            r.day() == active_date@,
    {
        ViewState { view, active_date }
    }

    /// The view that is shown.
    pub fn view(&self) -> (r: ViewKind)
        ensures
            r == self.view_spec(),
    {
        self.view
    }

    /// Show another view, on the same day.
    pub fn set_view(&mut self, view: ViewKind)
        ensures
            final(self).view_spec() == view,
            final(self).day() == old(self).day(),
    {
        self.view = view;
    }

    /// The day on which the view is shown.
    pub fn active_date(&self) -> (r: Date)
        ensures
            r@ == self.day(),
    {
        self.active_date
    }

    /// Move by one step, where the day is representable.
    fn navigate(&mut self, forward: bool)
        requires
            date::is_day(
                moved(
                    old(self).view_spec(),
                    old(self).day(),
                    if forward {
                        1
                    } else {
                        -1
                    },
                ),
            ),
        ensures
            final(self).view_spec() == old(self).view_spec(),
            final(self).day() == moved(
                old(self).view_spec(),
                old(self).day(),
                if forward {
                    1
                } else {
                    -1
                },
            ),
    {
        match self.view {
            ViewKind::Month => {
                self.active_date = shift_month(&self.active_date, forward);
            },
            ViewKind::Week | ViewKind::Agenda => {
                let step: i64 = if forward {
                    7
                } else {
                    -7
                };
                if let Some(day) = self.active_date.plus_days(step) {
                    self.active_date = day;
                }
            },
        }
    }

    /// Go back one step: a month, or a week.
    pub fn previous(&mut self)
        requires
            date::is_day(moved(old(self).view_spec(), old(self).day(), -1)),
        ensures
            final(self).view_spec() == old(self).view_spec(),
            final(self).day() == moved(old(self).view_spec(), old(self).day(), -1),
    {
        self.navigate(false);
    }

    /// Go on one step: a month, or a week.
    pub fn next(&mut self)
        requires
            date::is_day(moved(old(self).view_spec(), old(self).day(), 1)),
        ensures
            final(self).view_spec() == old(self).view_spec(),
            final(self).day() == moved(old(self).view_spec(), old(self).day(), 1),
    {
        self.navigate(true);
    }

    /// Show the view on another day.
    pub fn set_today(&mut self, today: Date)
        ensures
            final(self).view_spec() == old(self).view_spec(),
            final(self).day() == today@,
    {
        self.active_date = today;
    }

    /// The days of the week of the day, Monday first.
    pub fn current_week_dates(&self) -> (r: Vec<Date>)
        requires
            month_view::has_week(self.day()),
        ensures
            r@.len() == 7,
            forall|i: int|
                0 <= i < 7 ==> (#[trigger] r@[i])@ == month_view::monday_of(self.day()) + i,
    {
        let days = month_view::week_days(&self.active_date);
        let mut out: Vec<Date> = Vec::new();
        for i in 0..days.len()
            invariant
                days@.len() == 7,
                month_view::are_days_from(days@, month_view::monday_of(self.day())),
                out@.len() == i,
                forall|k: int|
                    0 <= k < i ==> (#[trigger] out@[k])@ == month_view::monday_of(self.day()) + k,
        {
            assert(days@[i as int].0@ == month_view::monday_of(self.day()) + i);
            out.push(days[i].0);
        }
        out
    }
}

/// A step of a week or an agenda is undone by the opposite step, and so is one of a month to a month
/// that has the day.
pub proof fn law_steps_undo_each_other(view: ViewKind, day: int, direction: int)
    requires
        direction == 1 || direction == -1,
        view is Month ==> ({
            let (y, m, d) = date::civil_of(day);
            let (year, month) = month_after(y, m, direction);
            d <= date::month_length(year, month)
        }),
    ensures
        moved(view, moved(view, day, direction), -direction) == day,
{
    if view is Month {
        date::lemma_civil_exists(day);
        let (y, m, d) = date::civil_of(day);
        let (year, month) = month_after(y, m, direction);
        assert(1 <= month <= 12);
        date::lemma_civil_of(year, month, d);
        let (back_year, back_month) = month_after(year, month, -direction);
        assert(back_year == y && back_month == m);
    }
}

/// A step in the month view leads to the month after or before, to the same day of it, or to its last
/// where it is shorter; a step in the other views leads a week on or back.
pub proof fn law_where_a_step_leads(day: int, direction: int)
    requires
        direction == 1 || direction == -1,
    ensures
        ({
            let (y, m, d) = date::civil_of(day);
            let (year, month) = if direction == 1 {
                if m == 12 {
                    (y + 1, 1int)
                } else {
                    (y, m + 1)
                }
            } else {
                if m == 1 {
                    (y - 1, 12int)
                } else {
                    (y, m - 1)
                }
            };
            let length = date::month_length(year, month);
            date::civil_of(moved(ViewKind::Month, day, direction)) == (
                year,
                month,
                if d <= length {
                    d
                } else {
                    length
                },
            )
        }),
        moved(ViewKind::Week, day, direction) == day + 7 * direction,
        moved(ViewKind::Agenda, day, direction) == day + 7 * direction,
{
    date::lemma_civil_exists(day);
    let (y, m, d) = date::civil_of(day);
    let (year, month) = month_after(y, m, direction);
    let length = date::month_length(year, month);
    date::lemma_civil_of(year, month, smaller(d, length));
}

} // verus!
