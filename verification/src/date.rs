//! Dates of the proleptic Gregorian calendar, times of day and instants.
//!
//! A date is held as its day number (day 1 is 1 January of year 1), an instant as seconds and
//! nanoseconds since the Unix epoch with the offset under which it is shown.
use chrono::Datelike;
use vstd::prelude::*;

verus! {

/// First year that a [`Date`] can lie in.
pub const MIN_YEAR: i32 = -262143;

/// Last year that a [`Date`] can lie in.
pub const MAX_YEAR: i32 = 262142;

/// Day number of the first representable date.
pub const MIN_DAY: i32 = -95746129;

/// Day number of the last representable date.
pub const MAX_DAY: i32 = 95745399;

/// Day number of 1 January 1970.
pub const EPOCH_DAY: i64 = 719163;

/// Seconds of a day.
pub const DAY_SECONDS: i64 = 86400;

/// Nanoseconds of a second.
pub const SECOND_NANOS: i64 = 1000000000;

// ---------------------------------------------------------------------------------------------
// The calendar
// ---------------------------------------------------------------------------------------------

/// Whether year `y` has 366 days.
pub open spec fn is_leap_year(y: int) -> bool {
    y % 4 == 0 && (y % 100 != 0 || y % 400 == 0)
}

/// Number of days of month `m` of year `y`.
pub open spec fn month_length(y: int, m: int) -> int {
    if m == 2 {
        if is_leap_year(y) {
            29
        } else {
            28
        }
    } else if m == 4 || m == 6 || m == 9 || m == 11 {
        30
    } else {
        31
    }
}

/// Number of days from 31 December of year 0 to 31 December of year `y - 1`.
pub open spec fn days_before_year(y: int) -> int {
    365 * (y - 1) + (y - 1) / 4 - (y - 1) / 100 + (y - 1) / 400
}

/// Number of days of year `y` before the first of month `m`.
pub open spec fn days_before_month(y: int, m: int) -> int
    decreases m,
{
    if m <= 1 {
        0
    } else {
        days_before_month(y, m - 1) + month_length(y, m - 1)
    }
}

/// Whether `y`-`m`-`d` is a date of the calendar.
pub open spec fn is_civil(y: int, m: int, d: int) -> bool {
    1 <= m <= 12 && 1 <= d <= month_length(y, m)
}

/// Day number of `y`-`m`-`d`.
pub open spec fn day_number(y: int, m: int, d: int) -> int {
    days_before_year(y) + days_before_month(y, m) + d
}

/// Day number of `y`-`m`-`d` where the calendar has that date and it is representable.
pub open spec fn civil_day(y: int, m: int, d: int) -> Option<i32> {
    if MIN_YEAR <= y <= MAX_YEAR && is_civil(y, m, d) {
        Some(day_number(y, m, d) as i32)
    } else {
        None
    }
}

/// Year, month and day of the date with day number `n`.
pub open spec fn civil_of(n: int) -> (int, int, int) {
    choose|c: (int, int, int)| #[trigger]
        is_civil(c.0, c.1, c.2) && day_number(c.0, c.1, c.2) == n
}

/// Whether `n` is the day number of a representable date.
pub open spec fn is_day(n: int) -> bool {
    MIN_DAY <= n <= MAX_DAY
}

/// Days from the Monday on or before day `n` to day `n`: 0 on a Monday, 6 on a Sunday.
pub open spec fn weekday_of(n: int) -> int {
    (n - 1) % 7
}

/// The length of a year is the sum of its months.
pub proof fn lemma_year_length(y: int)
    ensures
        days_before_month(y, 13) == (if is_leap_year(y) {
            366int
        } else {
            365int
        }),
        days_before_year(y + 1) == days_before_year(y) + days_before_month(y, 13),
{
    reveal_with_fuel(days_before_month, 13);
    assert(y / 4 == (y - 1) / 4 + (if y % 4 == 0 {
        1int
    } else {
        0int
    }));
    assert(y / 100 == (y - 1) / 100 + (if y % 100 == 0 {
        1int
    } else {
        0int
    }));
    assert(y / 400 == (y - 1) / 400 + (if y % 400 == 0 {
        1int
    } else {
        0int
    }));
    assert(y % 400 == 0 ==> y % 100 == 0);
    assert(y % 100 == 0 ==> y % 4 == 0);
}

/// Months only grow within a year.
pub proof fn lemma_months_grow(y: int, m: int, k: int)
    requires
        1 <= m <= k,
    ensures
        days_before_month(y, m) + (k - m) * 28 <= days_before_month(y, k),
    decreases k - m,
{
    if m < k {
        lemma_months_grow(y, m, k - 1);
        assert((k - m) * 28 == (k - 1 - m) * 28 + 28) by (nonlinear_arith);
    }
}

/// A month ends where the next one begins.
pub proof fn lemma_month_step(y: int, m: int, k: int)
    requires
        1 <= m < k,
    ensures
        days_before_month(y, m) + month_length(y, m) <= days_before_month(y, k),
{
    lemma_months_grow(y, m + 1, k);
}

/// Years only grow.
pub proof fn lemma_years_grow(y: int, k: int)
    requires
        y <= k,
    ensures
        days_before_year(y) + 365 * (k - y) <= days_before_year(k),
    decreases k - y,
{
    if y < k {
        lemma_years_grow(y, k - 1);
        lemma_year_length(k - 1);
    }
}

/// The day of a date lies inside its year.
pub proof fn lemma_day_in_year(y: int, m: int, d: int)
    requires
        is_civil(y, m, d),
    ensures
        days_before_year(y) < day_number(y, m, d) <= days_before_year(y + 1),
        days_before_month(y, m) >= 0,
{
    lemma_year_length(y);
    lemma_month_step(y, m, 13);
    lemma_months_grow(y, 1, m);
}

/// Two dates with one day number are the same date, and day numbers follow the order of dates.
pub proof fn lemma_day_number_order(y: int, m: int, d: int, y2: int, m2: int, d2: int)
    requires
        is_civil(y, m, d),
        is_civil(y2, m2, d2),
    ensures
        day_number(y, m, d) == day_number(y2, m2, d2) <==> (y == y2 && m == m2 && d == d2),
        day_number(y, m, d) < day_number(y2, m2, d2) <==> (y < y2 || (y == y2 && (m < m2 || (m == m2
            && d < d2)))),
{
    lemma_day_in_year(y, m, d);
    lemma_day_in_year(y2, m2, d2);
    if y < y2 {
        lemma_years_grow(y + 1, y2);
    } else if y2 < y {
        lemma_years_grow(y2 + 1, y);
    } else if m < m2 {
        lemma_month_step(y, m, m2);
    } else if m2 < m {
        lemma_month_step(y, m2, m);
    }
}

/// The date of a day number is the one that has it.
pub proof fn lemma_civil_of(y: int, m: int, d: int)
    requires
        is_civil(y, m, d),
    ensures
        civil_of(day_number(y, m, d)) == (y, m, d),
{
    let n = day_number(y, m, d);
    let given = (y, m, d);
    assert(is_civil(given.0, given.1, given.2) && day_number(given.0, given.1, given.2) == n);
    let c = civil_of(n);
    assert(is_civil(c.0, c.1, c.2) && day_number(c.0, c.1, c.2) == n);
    lemma_day_number_order(y, m, d, c.0, c.1, c.2);
}

/// Every day has a date.
pub proof fn lemma_civil_exists(n: int)
    ensures
        ({
            let c = civil_of(n);
            is_civil(c.0, c.1, c.2) && day_number(c.0, c.1, c.2) == n
        }),
    decreases if n >= 1 {
        n - 1
    } else {
        1 - n
    },
{
    if n == 1 {
        assert(days_before_year(1) == 0);
        assert(is_civil(1, 1, 1) && day_number(1, 1, 1) == 1);
        lemma_civil_of(1, 1, 1);
    } else if n > 1 {
        lemma_civil_exists(n - 1);
        let (y, m, d) = civil_of(n - 1);
        lemma_year_length(y);
        if d < month_length(y, m) {
            lemma_civil_of(y, m, d + 1);
        } else if m < 12 {
            lemma_civil_of(y, m + 1, 1);
        } else {
            assert(days_before_month(y, 13) == days_before_month(y, 12) + 31);
            lemma_civil_of(y + 1, 1, 1);
        }
    } else {
        lemma_civil_exists(n + 1);
        let (y, m, d) = civil_of(n + 1);
        lemma_year_length(y - 1);
        if d > 1 {
            lemma_civil_of(y, m, d - 1);
        } else if m > 1 {
            lemma_civil_of(y, m - 1, month_length(y, m - 1));
        } else {
            assert(days_before_month(y - 1, 13) == days_before_month(y - 1, 12) + 31);
            assert(days_before_month(y, 1) == 0);
            lemma_civil_of(y - 1, 12, 31);
        }
    }
}

/// A day of a year of four digits lies well inside the representable dates.
pub proof fn lemma_four_digit_day(n: int)
    requires
        0 <= civil_of(n).0 <= 9999,
    ensures
        -366 < n <= 3652059,
{
    lemma_civil_exists(n);
    let c = civil_of(n);
    lemma_day_in_year(c.0, c.1, c.2);
    lemma_years_grow(0, c.0);
    lemma_years_grow(c.0 + 1, 10000);
    assert(days_before_year(0) == -366);
    assert(days_before_year(10000) == 3652059);
}

/// The dates of the representable years have representable day numbers.
pub proof fn lemma_civil_day_in_range(y: int, m: int, d: int)
    requires
        MIN_YEAR <= y <= MAX_YEAR,
        is_civil(y, m, d),
    ensures
        is_day(day_number(y, m, d)),
{
    lemma_day_in_year(y, m, d);
    lemma_years_grow(MIN_YEAR as int, y);
    lemma_years_grow(y + 1, MAX_YEAR + 1);
}

/// The dates with representable day numbers lie in the representable years.
pub proof fn lemma_year_in_range(y: int, m: int, d: int)
    requires
        is_civil(y, m, d),
        is_day(day_number(y, m, d)),
    ensures
        MIN_YEAR <= y <= MAX_YEAR,
{
    lemma_day_in_year(y, m, d);
    if y > MAX_YEAR {
        lemma_years_grow(MAX_YEAR + 1, y);
    }
    if y < MIN_YEAR {
        lemma_years_grow(y + 1, MIN_YEAR as int);
    }
}

// ---------------------------------------------------------------------------------------------
// Calls into chrono on plain values
// ---------------------------------------------------------------------------------------------

/// `chrono::NaiveDate::from_ymd_opt`, the date handed back as its day number
/// (`Datelike::num_days_from_ce`). The call succeeds exactly on the dates of the proleptic
/// Gregorian calendar of the years `MIN_YEAR..=MAX_YEAR`.
#[verifier::external_body]
fn chrono_from_ymd(year: i32, month: u32, day: u32) -> (r: Option<i32>)
    ensures
        r == civil_day(year as int, month as int, day as int),
{
    chrono::NaiveDate::from_ymd_opt(year, month, day).map(|date| date.num_days_from_ce())
}

/// `Datelike::year`, `month` and `day` of the date with a day number
/// (`chrono::NaiveDate::from_num_days_from_ce_opt`): the calendar date that has this day number.
#[verifier::external_body]
fn chrono_civil(days: i32) -> (r: (i32, u32, u32))
    requires
        is_day(days as int),
    ensures
        MIN_YEAR <= r.0 <= MAX_YEAR,
        is_civil(r.0 as int, r.1 as int, r.2 as int),
        day_number(r.0 as int, r.1 as int, r.2 as int) == days,
{
    let date = chrono::NaiveDate::from_num_days_from_ce_opt(days).unwrap();
    (date.year(), date.month(), date.day())
}

// ---------------------------------------------------------------------------------------------
// Date
// ---------------------------------------------------------------------------------------------

/// A date.
#[derive(Clone, Copy, Debug, PartialEq, Eq, PartialOrd, Ord, Hash, Structural)]
pub struct Date {
    days: i32,
}

impl View for Date {
    type V = int;

    /// The day number.
    closed spec fn view(&self) -> int {
        self.days as int
    }
}

/// A date is its day number.
pub broadcast proof fn lemma_date_ext(a: Date, b: Date)
    ensures
        #![trigger a.view(), b.view()]
        a@ == b@ <==> a == b,
{
}

/// The date with day number `n`.
pub closed spec fn date_of(n: int) -> Date {
    Date { days: n as i32 }
}

/// The date of a representable day has that day number.
pub broadcast proof fn lemma_date_of(n: int)
    requires
        is_day(n),
    ensures
        #[trigger] date_of(n)@ == n,
{
}

/// A representable date is the date of its day number.
pub proof fn lemma_date_of_day(d: Date)
    ensures
        date_of(d@) == d,
{
}

impl Date {
    #[verifier::type_invariant]
    spec fn inv(self) -> bool {
        is_day(self.days as int)
    }

    /// The date `year`-`month`-`day`, where the calendar has it and it is representable.
    pub fn from_ymd_opt(year: i32, month: u32, day: u32) -> (r: Option<Date>)
        ensures
            r is Some <==> MIN_YEAR <= year <= MAX_YEAR && is_civil(
                year as int,
                month as int,
                day as int,
            ),
            r is Some ==> r->0@ == day_number(year as int, month as int, day as int),
    {
        proof {
            if MIN_YEAR <= year <= MAX_YEAR && is_civil(year as int, month as int, day as int) {
                lemma_civil_day_in_range(year as int, month as int, day as int);
            }
        }
        match chrono_from_ymd(year, month, day) {
            Some(days) => Some(Date { days }),
            None => None,
        }
    }

    /// The date with day number `n`, where there is one.
    pub fn from_days(n: i64) -> (r: Option<Date>)
        ensures
            r is Some <==> is_day(n as int),
            r is Some ==> r->0@ == n,
    {
        if MIN_DAY as i64 <= n && n <= MAX_DAY as i64 {
            Some(Date { days: n as i32 })
        } else {
            None
        }
    }

    /// The day number.
    pub fn days(&self) -> (r: i32)
        ensures
            r == self@,
            is_day(self@),
    {
        proof {
            use_type_invariant(self);
        }
        self.days
    }

    /// Year, month and day.
    pub fn ymd(&self) -> (r: (i32, u32, u32))
        ensures
            MIN_YEAR <= r.0 <= MAX_YEAR,
            is_civil(r.0 as int, r.1 as int, r.2 as int),
            day_number(r.0 as int, r.1 as int, r.2 as int) == self@,
            civil_of(self@) == (r.0 as int, r.1 as int, r.2 as int),
            is_day(self@),
    {
        proof {
            use_type_invariant(self);
        }
        let civil = chrono_civil(self.days);
        proof {
            lemma_civil_of(civil.0 as int, civil.1 as int, civil.2 as int);
        }
        civil
    }

    /// The date `n` days later, where it is representable.
    pub fn plus_days(&self, n: i64) -> (r: Option<Date>)
        ensures
            r is Some <==> is_day(self@ + n),
            r is Some ==> r->0@ == self@ + n,
            is_day(self@),
    {
        proof {
            use_type_invariant(self);
        }
        if n < -400000000 || n > 400000000 {
            None
        } else {
            Date::from_days(self.days as i64 + n)
        }
    }

    /// The following day.
    pub fn succ_opt(&self) -> (r: Option<Date>)
        ensures
            r is Some <==> is_day(self@ + 1),
            r is Some ==> r->0@ == self@ + 1,
            is_day(self@),
    {
        self.plus_days(1)
    }

    /// Whether the two are one date.
    pub fn same(&self, other: &Date) -> (r: bool)
        ensures
            r == (self@ == other@),
            r == (*self == *other),
    {
        self.days == other.days
    }

    /// Whether this date comes before `other`.
    pub fn before(&self, other: &Date) -> (r: bool)
        ensures
            r == (self@ < other@),
    {
        self.days < other.days
    }

    /// Days from the Monday on or before this date.
    pub fn days_from_monday(&self) -> (r: u32)
        ensures
            r == weekday_of(self@),
            r < 7,
            is_day(self@),
    {
        proof {
            use_type_invariant(self);
        }
        // The shift is a multiple of seven that makes the day number positive.
        let shifted: i64 = self.days as i64 - 1 + 700000000;
        assert(weekday_of(self@) == shifted % 7);
        (shifted % 7) as u32
    }
}

// ---------------------------------------------------------------------------------------------
// Time of day
// ---------------------------------------------------------------------------------------------

/// A time of day. A fraction of one second or more stands for a leap second.
#[derive(Clone, Copy, Debug, PartialEq, Eq, PartialOrd, Ord, Hash, Structural)]
pub struct Time {
    pub seconds: u32,
    pub nanos: u32,
}

impl Time {
    /// Whether the fields are those of a time of day.
    pub open spec fn valid(self) -> bool {
        self.seconds < 86400 && self.nanos < 2000000000
    }

    /// The hour, 0 to 23.
    pub open spec fn hour_spec(self) -> int {
        self.seconds as int / 3600
    }

    /// The minute, 0 to 59.
    pub open spec fn minute_spec(self) -> int {
        self.seconds as int / 60 % 60
    }

    /// The time `hour`:`minute`:`second`, where the clock shows it.
    pub fn from_hms_opt(hour: u32, minute: u32, second: u32) -> (r: Option<Time>)
        ensures
            r is Some <==> hour < 24 && minute < 60 && second < 60,
            r is Some ==> r->0 == (Time {
                seconds: (hour * 3600 + minute * 60 + second) as u32,
                nanos: 0,
            }),
            r is Some ==> r->0.valid(),
    {
        if hour < 24 && minute < 60 && second < 60 {
            Some(Time { seconds: hour * 3600 + minute * 60 + second, nanos: 0 })
        } else {
            None
        }
    }

    /// The hour.
    pub fn hour(&self) -> (r: u32)
        ensures
            r == self.hour_spec(),
    {
        self.seconds / 3600
    }

    /// The minute.
    pub fn minute(&self) -> (r: u32)
        ensures
            r == self.minute_spec(),
            r < 60,
    {
        self.seconds / 60 % 60
    }
}

// ---------------------------------------------------------------------------------------------
// Spans and instants
// ---------------------------------------------------------------------------------------------

/// A signed length of time: `seconds` seconds and `nanos` (less than one second) more.
#[derive(Clone, Copy, Debug, PartialEq, Eq, PartialOrd, Ord, Hash, Structural)]
pub struct Span {
    pub seconds: i64,
    pub nanos: u32,
}

/// Bound, in seconds, of the spans used here: longer than the whole calendar.
pub const MAX_SPAN_SECONDS: i64 = 100000000000000;

impl Span {
    /// Whether the fields are normal and the length lies within the bound.
    pub open spec fn valid(self) -> bool {
        -MAX_SPAN_SECONDS <= self.seconds <= MAX_SPAN_SECONDS && self.nanos < 1000000000
    }
}

/// Seconds since the epoch at which day number `n` begins in UTC.
pub open spec fn day_start(n: int) -> int {
    (n - EPOCH_DAY) * DAY_SECONDS
}

/// Day number of the day that holds second `s` since the epoch.
pub open spec fn day_of_second(s: int) -> int {
    s / (DAY_SECONDS as int) + EPOCH_DAY
}

/// Whether an instant lies at least a day inside the representable dates, so that its date exists
/// under every offset: `chrono` panics when it is asked for a local date outside of them.
pub open spec fn is_instant(seconds: int, nanos: int) -> bool {
    &&& MIN_DAY < day_of_second(seconds) < MAX_DAY
    &&& 0 <= nanos < 2000000000
    &&& nanos >= 1000000000 ==> seconds % 60 == 59
}

/// Whether an offset is less than a day.
pub open spec fn is_offset(offset: int) -> bool {
    -86400 < offset < 86400
}

/// What `chrono::DateTime::checked_add_signed` makes of an instant and a span.
pub uninterp spec fn instant_sum(seconds: i64, nanos: u32, span_seconds: i64, span_nanos: u32) -> Option<
    (i64, u32),
>;

/// What `chrono::DateTime::signed_duration_since` makes of two instants.
pub uninterp spec fn instant_difference(seconds: i64, nanos: u32, other_seconds: i64, other_nanos: u32) -> (
    i64,
    i32,
);

/// Seconds and nanoseconds of a sum where no leap second takes part.
pub open spec fn plain_sum(seconds: int, nanos: int, span_seconds: int, span_nanos: int) -> (int, int) {
    if nanos + span_nanos < SECOND_NANOS {
        (seconds + span_seconds, nanos + span_nanos)
    } else {
        (seconds + span_seconds + 1, nanos + span_nanos - SECOND_NANOS)
    }
}

/// Whether `sum` is the sum of an instant and a span where no leap second takes part.
pub open spec fn is_plain_sum(
    sum: (i64, u32),
    seconds: int,
    nanos: int,
    span_seconds: int,
    span_nanos: int,
) -> bool {
    (sum.0 as int, sum.1 as int) == plain_sum(seconds, nanos, span_seconds, span_nanos)
}

/// Whether whole seconds and nanoseconds of one sign are the difference of two instants where no
/// leap second takes part.
pub open spec fn is_plain_difference(
    difference: (i64, i32),
    seconds: int,
    nanos: int,
    other_seconds: int,
    other_nanos: int,
) -> bool {
    &&& difference.0 * SECOND_NANOS + difference.1 == (seconds - other_seconds) * SECOND_NANOS + (
    nanos - other_nanos)
    &&& difference.0 > 0 ==> difference.1 >= 0
    &&& difference.0 < 0 ==> difference.1 <= 0
}

/// `chrono::DateTime::checked_add_signed` on the instant `seconds` + `nanos` since the epoch
/// (`chrono::DateTime::from_timestamp`) and a `chrono::TimeDelta`, the sum handed back as seconds
/// and nanoseconds. It depends on the four numbers alone. Where no leap second takes part the sum
/// is that of the numbers, and it is there exactly when its day is representable.
#[verifier::external_body]
fn chrono_instant_sum(seconds: i64, nanos: u32, span_seconds: i64, span_nanos: u32) -> (r: Option<
    (i64, u32),
>)
    requires
        is_instant(seconds as int, nanos as int),
        -MAX_SPAN_SECONDS <= span_seconds <= MAX_SPAN_SECONDS,
        span_nanos < 1000000000,
    ensures
        r == instant_sum(seconds, nanos, span_seconds, span_nanos),
        nanos < 1000000000 ==> (r is Some) == is_day(
            day_of_second(plain_sum(seconds as int, nanos as int, span_seconds as int, span_nanos as int).0),
        ),
        nanos < 1000000000 && r is Some ==> is_plain_sum(
            r->0,
            seconds as int,
            nanos as int,
            span_seconds as int,
            span_nanos as int,
        ),
{
    let start = chrono::DateTime::from_timestamp(seconds, nanos).unwrap();
    let span = chrono::TimeDelta::new(span_seconds, span_nanos).unwrap();
    start.checked_add_signed(span).map(|sum| (sum.timestamp(), sum.timestamp_subsec_nanos()))
}

/// `chrono::DateTime::signed_duration_since` on two instants given in seconds and nanoseconds since
/// the epoch, the `chrono::TimeDelta` handed back as its `num_seconds` and `subsec_nanos`. It
/// depends on the four numbers alone. It lies within the length of the calendar; where no leap
/// second takes part it is the difference of the numbers.
#[verifier::external_body]
fn chrono_instant_difference(seconds: i64, nanos: u32, other_seconds: i64, other_nanos: u32) -> (r: (
    i64,
    i32,
))
    requires
        is_instant(seconds as int, nanos as int),
        is_instant(other_seconds as int, other_nanos as int),
    ensures
        r == instant_difference(seconds, nanos, other_seconds, other_nanos),
        -MAX_SPAN_SECONDS < r.0 < MAX_SPAN_SECONDS && -1000000000 < r.1 < 1000000000,
        nanos < 1000000000 && other_nanos < 1000000000 ==> is_plain_difference(
            r,
            seconds as int,
            nanos as int,
            other_seconds as int,
            other_nanos as int,
        ),
{
    let left = chrono::DateTime::from_timestamp(seconds, nanos).unwrap();
    let right = chrono::DateTime::from_timestamp(other_seconds, other_nanos).unwrap();
    let span = left.signed_duration_since(right);
    (span.num_seconds(), span.subsec_nanos())
}

/// An instant, with the offset from UTC under which it is shown.
#[derive(Clone, Copy, Debug, PartialEq, Eq, Hash, Structural)]
pub struct DateTime {
    seconds: i64,
    nanos: u32,
    offset: i32,
}

/// The plain values of a [`DateTime`].
pub struct DateTimeView {
    /// Seconds since the epoch, in UTC.
    pub seconds: int,
    /// Nanoseconds beyond the seconds; a second or more in a leap second.
    pub nanos: int,
    /// Seconds by which the local clock is ahead of UTC.
    pub offset: int,
}

impl DateTimeView {
    /// Whether this instant comes before `other`, whatever the offsets.
    pub open spec fn before(self, other: DateTimeView) -> bool {
        self.seconds < other.seconds || (self.seconds == other.seconds && self.nanos < other.nanos)
    }

    /// Whether the two are one instant, whatever the offsets.
    pub open spec fn same_instant(self, other: DateTimeView) -> bool {
        self.seconds == other.seconds && self.nanos == other.nanos
    }

    /// Day number of the local date.
    pub open spec fn local_day(self) -> int {
        day_of_second(self.seconds + self.offset)
    }

    /// Seconds since local midnight.
    pub open spec fn local_second(self) -> int {
        (self.seconds + self.offset) % (DAY_SECONDS as int)
    }

    /// The same instant under another offset.
    pub open spec fn at_offset(self, offset: int) -> DateTimeView {
        DateTimeView { offset, ..self }
    }

    /// Whether the values are those of a representable instant.
    pub open spec fn valid(self) -> bool {
        is_instant(self.seconds, self.nanos) && is_offset(self.offset)
    }
}

impl View for DateTime {
    type V = DateTimeView;

    closed spec fn view(&self) -> DateTimeView {
        DateTimeView {
            seconds: self.seconds as int,
            nanos: self.nanos as int,
            offset: self.offset as int,
        }
    }
}

/// The instant with the given values.
pub closed spec fn date_time_of(v: DateTimeView) -> DateTime {
    DateTime { seconds: v.seconds as i64, nanos: v.nanos as u32, offset: v.offset as i32 }
}

/// The instant of representable values has those values.
pub proof fn lemma_date_time_of(v: DateTimeView)
    requires
        v.valid(),
    ensures
        date_time_of(v)@ == v,
{
}

/// An instant is the instant of its values.
pub proof fn lemma_date_time_of_view(d: DateTime)
    ensures
        date_time_of(d@) == d,
{
}

/// An instant under an offset less than a day has a local date.
pub proof fn lemma_local_day_in_range(v: DateTimeView)
    requires
        v.valid(),
    ensures
        is_day(v.local_day()),
        0 <= v.local_second() < DAY_SECONDS,
        v.seconds + v.offset == day_start(v.local_day()) + v.local_second(),
{
}

impl DateTime {
    #[verifier::type_invariant]
    spec fn inv(self) -> bool {
        is_instant(self.seconds as int, self.nanos as int) && is_offset(self.offset as int)
    }

    /// The instant `seconds` and `nanos` after the epoch, shown under `offset`.
    pub fn new(seconds: i64, nanos: u32, offset: i32) -> (r: Option<DateTime>)
        ensures
            r is Some <==> is_instant(seconds as int, nanos as int) && is_offset(offset as int),
            r is Some ==> r->0@ == (DateTimeView {
                seconds: seconds as int,
                nanos: nanos as int,
                offset: offset as int,
            }),
    {
        if offset <= -86400 || offset >= 86400 || nanos >= 2000000000 {
            return None;
        }
        if seconds < -8500000000000 || seconds > 8500000000000 {
            return None;
        }
        let day: i64 = floor_div_day(seconds) + EPOCH_DAY;
        if day <= MIN_DAY as i64 || day >= MAX_DAY as i64 {
            return None;
        }
        if nanos >= 1000000000 && floor_mod(seconds, 60) != 59 {
            return None;
        }
        Some(DateTime { seconds, nanos, offset })
    }

    /// Seconds since the epoch.
    pub fn timestamp(&self) -> (r: i64)
        ensures
            r == self@.seconds,
            self@.valid(),
    {
        proof {
            use_type_invariant(self);
        }
        self.seconds
    }

    /// Nanoseconds beyond [`DateTime::timestamp`].
    pub fn subsec_nanos(&self) -> (r: u32)
        ensures
            r == self@.nanos,
            self@.valid(),
    {
        proof {
            use_type_invariant(self);
        }
        self.nanos
    }

    /// The offset from UTC in seconds.
    pub fn offset(&self) -> (r: i32)
        ensures
            r == self@.offset,
            self@.valid(),
    {
        proof {
            use_type_invariant(self);
        }
        self.offset
    }

    /// Whether this instant comes before `other`.
    pub fn before(&self, other: &DateTime) -> (r: bool)
        ensures
            r == self@.before(other@),
    {
        self.seconds < other.seconds || (self.seconds == other.seconds && self.nanos < other.nanos)
    }

    /// Whether the two are one instant.
    pub fn same_instant(&self, other: &DateTime) -> (r: bool)
        ensures
            r == self@.same_instant(other@),
    {
        self.seconds == other.seconds && self.nanos == other.nanos
    }

    /// The same instant shown under `offset`.
    pub fn with_offset(&self, offset: i32) -> (r: DateTime)
        requires
            is_offset(offset as int),
        ensures
            r@ == self@.at_offset(offset as int),
            self@.valid(),
    {
        proof {
            use_type_invariant(self);
        }
        DateTime { seconds: self.seconds, nanos: self.nanos, offset }
    }

    /// The local date.
    pub fn local_date(&self) -> (r: Date)
        ensures
            r@ == self@.local_day(),
            self@.valid(),
    {
        proof {
            use_type_invariant(self);
            lemma_local_day_in_range(self@);
        }
        let day: i64 = floor_div_day(self.seconds + self.offset as i64) + EPOCH_DAY;
        Date { days: day as i32 }
    }

    /// The local time of day.
    pub fn local_time(&self) -> (r: Time)
        ensures
            r.seconds == self@.local_second(),
            r.nanos == self@.nanos,
            r.valid(),
            self@.valid(),
    {
        proof {
            use_type_invariant(self);
        }
        Time {
            seconds: floor_mod(self.seconds + self.offset as i64, DAY_SECONDS) as u32,
            nanos: self.nanos,
        }
    }

    /// The instant `span` later under the same offset, where it is representable.
    pub fn plus(&self, span: Span) -> (r: Option<DateTime>)
        requires
            span.valid(),
        ensures
            r == later(*self, span),
            self@.nanos < SECOND_NANOS ==> match r {
                Some(sum) => sum@ == plain_later(self@, span) && sum@.valid(),
                None => !plain_later(self@, span).valid(),
            },
            self@.valid(),
    {
        proof {
            use_type_invariant(self);
        }
        match chrono_instant_sum(self.seconds, self.nanos, span.seconds, span.nanos) {
            Some((seconds, nanos)) => {
                let sum = DateTime::new(seconds, nanos, self.offset);
                sum
            },
            None => None,
        }
    }

    /// The length of time from `other` to this instant.
    pub fn since(&self, other: &DateTime) -> (r: Span)
        ensures
            r == span_between(*other, *self),
            self@.nanos < SECOND_NANOS && other@.nanos < SECOND_NANOS ==> r.seconds * SECOND_NANOS
                + r.nanos == (self@.seconds - other@.seconds) * SECOND_NANOS + (self@.nanos
                - other@.nanos),
            r.valid(),
            r.seconds < MAX_SPAN_SECONDS,
    {
        proof {
            use_type_invariant(self);
            use_type_invariant(other);
        }
        let (seconds, nanos): (i64, i32) = chrono_instant_difference(
            self.seconds,
            self.nanos,
            other.seconds,
            other.nanos,
        );
        let r = if nanos < 0 {
            Span { seconds: seconds - 1, nanos: (nanos + 1000000000) as u32 }
        } else {
            Span { seconds, nanos: nanos as u32 }
        };
        proof {
            if self.nanos < 1000000000 && other.nanos < 1000000000 {
                let distance = plain_distance(other@, self@);
                assert(distance == r.seconds * 1000000000 + r.nanos);
                assert(distance / 1000000000 == r.seconds && distance % 1000000000 == r.nanos);
            }
        }
        r
    }
}

/// The values of the instant `span` after one that is not in a leap second: seconds and nanoseconds
/// are added up, and the offset stays.
pub open spec fn plain_later(start: DateTimeView, span: Span) -> DateTimeView {
    let sum = plain_sum(start.seconds, start.nanos, span.seconds as int, span.nanos as int);
    DateTimeView { seconds: sum.0, nanos: sum.1, offset: start.offset }
}

/// The values of the instant `span` after `start`. From within a leap second they are what
/// [`instant_sum`] names.
pub open spec fn later_values(start: DateTimeView, span: Span) -> Option<DateTimeView> {
    if start.nanos < SECOND_NANOS {
        Some(plain_later(start, span))
    } else {
        match instant_sum(start.seconds as i64, start.nanos as u32, span.seconds, span.nanos) {
            Some(sum) => Some(
                DateTimeView { seconds: sum.0 as int, nanos: sum.1 as int, offset: start.offset },
            ),
            None => None,
        }
    }
}

/// The instant `span` after `start`, under the same offset, where it is representable.
pub open spec fn later(start: DateTime, span: Span) -> Option<DateTime> {
    match later_values(start@, span) {
        Some(sum) => if sum.valid() {
            Some(date_time_of(sum))
        } else {
            None
        },
        None => None,
    }
}

/// A length of time after an instant that is not in a leap second lies the instant whose seconds and
/// nanoseconds are the sum, under the same offset, exactly where that is a representable instant.
pub proof fn lemma_later(start: DateTime, span: Span)
    requires
        start@.nanos < SECOND_NANOS,
    ensures
        later(start, span) is Some <==> plain_later(start@, span).valid(),
        later(start, span) matches Some(sum) ==> sum@ == plain_later(start@, span),
{
    if plain_later(start@, span).valid() {
        lemma_date_time_of(plain_later(start@, span));
    }
}

/// Nanoseconds from one instant to another where neither is in a leap second.
pub open spec fn plain_distance(start: DateTimeView, end: DateTimeView) -> int {
    (end.seconds - start.seconds) * SECOND_NANOS + (end.nanos - start.nanos)
}

/// The length of time from `start` to `end`. Where one of them is in a leap second it is what
/// [`instant_difference`] names.
pub open spec fn span_between(start: DateTime, end: DateTime) -> Span {
    let (from, to) = (start@, end@);
    if from.nanos < SECOND_NANOS && to.nanos < SECOND_NANOS {
        Span {
            seconds: (plain_distance(from, to) / (SECOND_NANOS as int)) as i64,
            nanos: (plain_distance(from, to) % (SECOND_NANOS as int)) as u32,
        }
    } else {
        let difference = instant_difference(
            to.seconds as i64,
            to.nanos as u32,
            from.seconds as i64,
            from.nanos as u32,
        );
        if difference.1 < 0 {
            Span { seconds: (difference.0 - 1) as i64, nanos: (difference.1 + SECOND_NANOS) as u32 }
        } else {
            Span { seconds: difference.0, nanos: difference.1 as u32 }
        }
    }
}

/// The length of time between two instants, added to the first, gives the second under the offset of
/// the first.
pub proof fn law_span_leads_back(start: DateTime, end: DateTime)
    requires
        start@.valid(),
        end@.valid(),
        start@.nanos < SECOND_NANOS,
        end@.nanos < SECOND_NANOS,
    ensures
        later(start, span_between(start, end)) matches Some(sum) && sum@ == end@.at_offset(
            start@.offset,
        ),
{
    let span = span_between(start, end);
    let distance = plain_distance(start@, end@);
    assert(distance == (distance / 1000000000) * 1000000000 + distance % 1000000000);
    assert(-100000000000000 < distance / 1000000000 < 100000000000000);
    assert(span.seconds == distance / 1000000000);
    assert(span.nanos == distance % 1000000000);
    assert(plain_later(start@, span) == end@.at_offset(start@.offset));
    lemma_later(start, span);
}

/// Whole days in `seconds`, rounded down.
fn floor_div_day(seconds: i64) -> (r: i64)
    requires
        -9000000000000 <= seconds <= 9000000000000,
    ensures
        r == seconds as int / (DAY_SECONDS as int),
{
    // The shift is a whole number of days that makes the dividend positive.
    (seconds + 9504000000000) / DAY_SECONDS - 110000000
}

/// The remainder of `seconds` by `unit`, never negative.
fn floor_mod(seconds: i64, unit: i64) -> (r: i64)
    requires
        unit == 60 || unit == DAY_SECONDS,
        -9000000000000 <= seconds <= 9000000000000,
    ensures
        r == seconds as int % unit as int,
{
    if unit == 60 {
        (seconds + 9504000000000) % 60
    } else {
        (seconds + 9504000000000) % DAY_SECONDS
    }
}

/// Days follow one another as in the calendar: the day after one is the next of its month, or the
/// first of the next month, or the first of January. February has twenty-nine days in years that four
/// divides, except those that a hundred divides and four hundred does not.
pub proof fn law_days_follow_one_another(n: int)
    ensures
        ({
            let (y, m, d) = civil_of(n);
            let leap = (y % 4 == 0 && y % 100 != 0) || y % 400 == 0;
            let length = if m == 2 {
                if leap {
                    29int
                } else {
                    28int
                }
            } else if m == 4 || m == 6 || m == 9 || m == 11 {
                30int
            } else {
                31int
            };
            &&& 1 <= m <= 12 && 1 <= d <= length
            &&& civil_of(n + 1) == if d < length {
                (y, m, d + 1)
            } else if m < 12 {
                (y, m + 1, 1)
            } else {
                (y + 1, 1, 1)
            }
        }),
{
    lemma_civil_exists(n);
    let (y, m, d) = civil_of(n);
    let length = month_length(y, m);
    lemma_leap_years(y);
    if d < length {
        lemma_civil_of(y, m, d + 1);
    } else if m < 12 {
        lemma_civil_of(y, m + 1, 1);
    } else {
        lemma_year_length(y);
        reveal_with_fuel(days_before_month, 13);
        lemma_civil_of(y + 1, 1, 1);
    }
}

proof fn lemma_leap_years(y: int)
    ensures
        is_leap_year(y) <==> (y % 4 == 0 && y % 100 != 0) || y % 400 == 0,
{
}

/// The day with number 719163 is the first of January 1970, a Thursday; and the weekdays go round.
pub proof fn law_epoch_is_a_thursday(n: int)
    ensures
        civil_of(719163) == (1970int, 1int, 1int),
        weekday_of(719163) == 3,
        weekday_of(n + 1) == (weekday_of(n) + 1) % 7,
        0 <= weekday_of(n) < 7,
        day_start(719163) == 0,
        day_start(n + 1) == day_start(n) + 86400,
        day_of_second(day_start(n)) == n,
{
    assert(days_before_year(1970) == 719162);
    assert(days_before_month(1970, 1) == 0);
    assert(day_number(1970, 1, 1) == 719163);
    lemma_civil_of(1970, 1, 1);
}

/// What clocks show of an instant: the day and the second of the day add up to the seconds since 1970
/// that their offset makes of it.
pub proof fn law_what_clocks_show(v: DateTimeView)
    ensures
        0 <= v.local_second() < 86400,
        (v.local_day() - 719163) * 86400 + v.local_second() == v.seconds + v.offset,
{
}

} // verus!
