//! Dates and times as text.
use chrono::Datelike;
use vstd::prelude::*;

use crate::date;
use crate::date::{Date, DateTime, Time};
use crate::text;

verus! {

/// `n` written with four digits, more where it needs more.
pub open spec fn four_digits(n: int) -> Seq<char> {
    if n < 10000 {
        text::two_digits(n / 100) + text::two_digits(n % 100)
    } else {
        text::decimal(n as nat)
    }
}

/// A year as text: four digits, with a sign where they are not enough.
pub open spec fn year_digits(y: int) -> Seq<char> {
    if 0 <= y <= 9999 {
        four_digits(y)
    } else if y < 0 {
        seq!['-'] + four_digits(-y)
    } else {
        seq!['+'] + four_digits(y)
    }
}

/// Year, month and day without separators.
pub open spec fn compact_civil(c: (int, int, int)) -> Seq<char> {
    year_digits(c.0) + text::two_digits(c.1) + text::two_digits(c.2)
}

/// Year, month and day with hyphens between them.
pub open spec fn iso_civil(c: (int, int, int)) -> Seq<char> {
    year_digits(c.0) + seq!['-'] + text::two_digits(c.1) + seq!['-'] + text::two_digits(c.2)
}

/// A date without separators, such as `20260714`.
pub open spec fn compact_date(day: int) -> Seq<char> {
    compact_civil(date::civil_of(day))
}

/// A date with hyphens, such as `2026-07-14`.
pub open spec fn iso_date(day: int) -> Seq<char> {
    iso_civil(date::civil_of(day))
}

/// A time of day without separators, such as `093000`; a leap second counts as the sixtieth.
pub open spec fn compact_time(second: int, nanos: int) -> Seq<char> {
    text::two_digits(second / 3600) + text::two_digits(second / 60 % 60) + text::two_digits(
        second % 60 + nanos / 1000000000,
    )
}

/// A date and a time of day, such as `20260714T093000`.
pub open spec fn compact_date_time(day: int, second: int, nanos: int) -> Seq<char> {
    compact_date(day) + seq!['T'] + compact_time(second, nanos)
}

/// The day number that `chrono::NaiveDate::parse_from_str` reads with the format `%Y%m%d`.
pub uninterp spec fn parsed_compact_date(value: Seq<char>) -> Option<i32>;

/// `n` written with a number of digits.
pub open spec fn padded(n: int, width: nat) -> Seq<char>
    decreases width,
{
    if width == 0 {
        seq![]
    } else {
        padded(n / 10, (width - 1) as nat).push(text::digit_char(n % 10))
    }
}

/// Nanoseconds as a fraction of a second: nothing where there are none, and otherwise as many digits
/// as milliseconds, microseconds or nanoseconds need.
pub open spec fn fraction(nanos: int) -> Seq<char> {
    if nanos == 0 {
        seq![]
    } else if nanos % 1000000 == 0 {
        seq!['.'] + padded(nanos / 1000000, 3)
    } else if nanos % 1000 == 0 {
        seq!['.'] + padded(nanos / 1000, 6)
    } else {
        seq!['.'] + padded(nanos, 9)
    }
}

/// An offset from UTC to the nearest minute, such as `+02:00`.
pub open spec fn offset_text(offset: int) -> Seq<char> {
    let minutes = ((if offset < 0 {
        -offset
    } else {
        offset
    }) + 30) / 60;
    seq![if offset < 0 {
        '-'
    } else {
        '+'
    }] + text::two_digits(minutes / 60) + seq![':'] + text::two_digits(minutes % 60)
}

/// A time of day with colons, such as `09:30:00`; a leap second counts as the sixtieth.
pub open spec fn clock_time(second: int, nanos: int) -> Seq<char> {
    text::two_digits(second / 3600) + seq![':'] + text::two_digits(second / 60 % 60) + seq![':']
        + text::two_digits(second % 60 + nanos / 1000000000)
}

/// The local date and time of an instant with its offset, such as `2026-07-14T09:30:00+02:00`.
pub open spec fn rfc3339_of(v: date::DateTimeView) -> Seq<char> {
    iso_date(v.local_day()) + seq!['T'] + clock_time(v.local_second(), v.nanos) + fraction(
        v.nanos % 1000000000,
    ) + offset_text(v.offset)
}

/// `chrono::NaiveDate::format` with `%Y%m%d`: year, month and day without separators. Where the
/// year has four digits, `chrono::NaiveDate::parse_from_str` reads the text back.
#[verifier::external_body]
fn chrono_compact_date(year: i32, month: u32, day: u32) -> (r: String)
    requires
        date::MIN_YEAR <= year <= date::MAX_YEAR,
        date::is_civil(year as int, month as int, day as int),
    ensures
        r@ == compact_civil((year as int, month as int, day as int)),
        0 <= year <= 9999 ==> parsed_compact_date(r@) == Some(
            date::day_number(year as int, month as int, day as int) as i32,
        ),
{
    chrono::NaiveDate::from_ymd_opt(year, month, day).unwrap().format("%Y%m%d").to_string()
}

/// `chrono::NaiveDate::parse_from_str` with `%Y%m%d`, the date handed back as its day number.
#[verifier::external_body]
fn chrono_parse_compact_date(value: &str) -> (r: Option<i32>)
    ensures
        r == parsed_compact_date(value@),
        r is Some ==> date::is_day(r->0 as int),
{
    chrono::NaiveDate::parse_from_str(value, "%Y%m%d").ok().map(|date| date.num_days_from_ce())
}

/// `chrono::NaiveDate::to_string`: year, month and day with hyphens.
#[verifier::external_body]
fn chrono_iso_date(year: i32, month: u32, day: u32) -> (r: String)
    requires
        date::MIN_YEAR <= year <= date::MAX_YEAR,
        date::is_civil(year as int, month as int, day as int),
    ensures
        r@ == iso_civil((year as int, month as int, day as int)),
{
    chrono::NaiveDate::from_ymd_opt(year, month, day).unwrap().to_string()
}

/// `chrono::DateTime::to_rfc3339` of an instant under an offset: its local date and time, its fraction
/// of a second where it has one, and the offset.
#[verifier::external_body]
fn chrono_rfc3339(seconds: i64, nanos: u32, offset: i32) -> (r: String)
    requires
        date::is_instant(seconds as int, nanos as int),
        date::is_offset(offset as int),
    ensures
        r@ == rfc3339_of(
            (date::DateTimeView {
                seconds: seconds as int,
                nanos: nanos as int,
                offset: offset as int,
            }),
        ),
{
    let offset = chrono::FixedOffset::east_opt(offset).unwrap();
    chrono::DateTime::from_timestamp(seconds, nanos).unwrap().with_timezone(&offset).to_rfc3339()
}

/// A date without separators.
pub fn compact_date_text(day: &Date) -> (r: String)
    ensures
        r@ == compact_date(day@),
        date_reads_back(day@),
{
    let (year, month, of_month): (i32, u32, u32) = day.ymd();
    chrono_compact_date(year, month, of_month)
}

/// Whether a day whose year has four digits is a date of the calendar and is read back from its
/// text.
pub open spec fn date_reads_back(day: int) -> bool {
    let c = date::civil_of(day);
    &&& date::is_civil(c.0, c.1, c.2)
    &&& has_four_digit_year(day) ==> parsed_compact_date(compact_date(day)) == Some(day as i32)
}

/// Whether the year of a day is written with four digits.
pub open spec fn has_four_digit_year(day: int) -> bool {
    0 <= date::civil_of(day).0 <= 9999
}

/// The date that a text without separators writes.
pub fn parse_compact_date(value: &str) -> (r: Option<Date>)
    ensures
        match r {
            Some(day) => parsed_compact_date(value@) == Some(day@ as i32),
            None => parsed_compact_date(value@) is None,
        },
        r is Some ==> date::is_day(r->0@),
{
    match chrono_parse_compact_date(value) {
        Some(days) => Date::from_days(days as i64),
        None => None,
    }
}

/// A date with hyphens.
pub fn iso_date_text(day: &Date) -> (r: String)
    ensures
        r@ == iso_date(day@),
{
    let (year, month, of_month): (i32, u32, u32) = day.ymd();
    chrono_iso_date(year, month, of_month)
}

/// Whether `s` is digits only.
pub open spec fn all_digits(s: Seq<char>) -> bool {
    forall|i: int| 0 <= i < s.len() ==> text::is_digit(#[trigger] s[i])
}

/// A date with a four-digit year is eight digits.
pub proof fn lemma_compact_civil(c: (int, int, int))
    requires
        0 <= c.0 <= 9999,
        date::is_civil(c.0, c.1, c.2),
    ensures
        compact_civil(c).len() == 8,
        all_digits(compact_civil(c)),
{
}

/// A time of day is six digits.
pub proof fn lemma_compact_time(second: int, nanos: int)
    requires
        0 <= second < 86400,
        0 <= nanos < 2000000000,
    ensures
        compact_time(second, nanos).len() == 6,
        all_digits(compact_time(second, nanos)),
{
}

/// The number that two digits of a text write, from a position on.
pub open spec fn pair_at(value: Seq<char>, i: int) -> Option<int> {
    if text::is_digit(value[i]) && text::is_digit(value[i + 1]) {
        Some(10 * (value[i] as int - '0' as int) + (value[i + 1] as int - '0' as int))
    } else {
        None
    }
}

/// The second of the day that the six digits of a time of day write from a position on. The sixtieth
/// second of a minute is the leap second of the last one.
pub open spec fn second_at(value: Seq<char>, i: int) -> Option<int> {
    match (pair_at(value, i), pair_at(value, i + 2), pair_at(value, i + 4)) {
        (Some(hour), Some(minute), Some(second)) => Some(
            hour * 3600 + minute * 60 + if second == 60 {
                59
            } else {
                second
            },
        ),
        _ => None,
    }
}

/// The number that two digits of a text write.
fn read_pair(value: &Vec<char>, i: usize) -> (r: Option<u32>)
    requires
        i + 1 < value@.len(),
    ensures
        match r {
            Some(n) => pair_at(value@, i as int) == Some(n as int) && n < 100,
            None => pair_at(value@, i as int) is None,
        },
{
    let length: usize = value.len();
    assert(i + 1 < length);
    let (a, b): (char, char) = (value[i], value[i + 1]);
    if '0' <= a && a <= '9' && '0' <= b && b <= '9' {
        Some(10 * (a as u32 - '0' as u32) + (b as u32 - '0' as u32))
    } else {
        None
    }
}

/// The second of the day that the six digits of a time of day write.
pub fn read_second(value: &Vec<char>, i: usize) -> (r: Option<u32>)
    requires
        i + 5 < value@.len(),
    ensures
        match r {
            Some(n) => second_at(value@, i as int) == Some(n as int) && n < 400000,
            None => second_at(value@, i as int) is None,
        },
{
    let length: usize = value.len();
    assert(i + 5 < length);
    match (read_pair(value, i), read_pair(value, i + 2), read_pair(value, i + 4)) {
        (Some(hour), Some(minute), Some(second)) => Some(
            hour * 3600 + minute * 60 + if second == 60 {
                59
            } else {
                second
            },
        ),
        _ => None,
    }
}

/// A time of day is read back to its second.
pub proof fn lemma_second_reads_back(value: Seq<char>, i: int, second: int, nanos: int)
    requires
        0 <= second < 86400,
        0 <= nanos < 2000000000,
        nanos >= 1000000000 ==> second % 60 == 59,
        0 <= i,
        i + 6 <= value.len(),
        value.subrange(i, i + 6) == compact_time(second, nanos),
    ensures
        second_at(value, i) == Some(second),
{
    let time = compact_time(second, nanos);
    assert forall|k: int| 0 <= k < 6 implies #[trigger] value[i + k] == time[k] by {
        assert(value.subrange(i, i + 6)[k] == value[i + k]);
    }
    assert(value[i + 0] == time[0] && value[i + 1] == time[1] && value[i + 2] == time[2]);
    assert(value[i + 3] == time[3] && value[i + 4] == time[4] && value[i + 5] == time[5]);
}

/// Whether a text holds neither line breaks nor commas.
pub open spec fn is_plain(s: Seq<char>) -> bool {
    !s.contains('\n') && !s.contains(',')
}

/// A date is written with digits and perhaps a sign.
pub proof fn lemma_compact_date_plain(day: int)
    ensures
        is_plain(compact_date(day)),
{
    date::lemma_civil_exists(day);
    let c = date::civil_of(day);
    let year = if c.0 < 0 {
        -c.0
    } else {
        c.0
    };
    text::lemma_decimal(year as nat);
    let digits = four_digits(year);
    assert(all_digits(digits));
    let s = compact_date(day);
    let y = year_digits(c.0);
    assert forall|i: int| 0 <= i < s.len() implies s[i] != '\n' && s[i] != ',' by {
        if i < y.len() {
            assert(s[i] == y[i]);
            if 0 <= c.0 <= 9999 {
                assert(text::is_digit(digits[i]));
            } else if i > 0 {
                assert(y[i] == digits[i - 1]);
            }
        }
    }
}

/// The local date and time of an instant are written with digits and letters.
pub proof fn lemma_compact_local_plain(v: date::DateTimeView)
    requires
        v.valid(),
    ensures
        is_plain(compact_local(v)),
{
    lemma_compact_date_plain(v.local_day());
    lemma_compact_time(v.local_second(), v.nanos);
    let s = compact_local(v);
    let d = compact_date(v.local_day());
    let t = compact_time(v.local_second(), v.nanos);
    assert forall|i: int| 0 <= i < s.len() implies s[i] != '\n' && s[i] != ',' by {
        if i < d.len() {
            assert(s[i] == d[i]);
            assert(d.contains(d[i]));
        } else if i > d.len() {
            assert(s[i] == t[i - d.len() - 1]);
        }
    }
}

/// A date and a time of day.
pub fn compact_date_time_text(day: &Date, time: &Time) -> (r: String)
    requires
        time.valid(),
    ensures
        r@ == compact_date_time(day@, time.seconds as int, time.nanos as int),
        date_reads_back(day@),
{
    let mut out = compact_date_text(day);
    out.push('T');
    let hour: u32 = time.seconds / 3600;
    let minute: u32 = time.seconds / 60 % 60;
    let second: u32 = time.seconds % 60 + time.nanos / 1000000000;
    out.append(text::two_digit_text(hour).as_str());
    out.append(text::two_digit_text(minute).as_str());
    out.append(text::two_digit_text(second).as_str());
    assert(out@ =~= compact_date_time(day@, time.seconds as int, time.nanos as int));
    out
}

/// The local date and time of an instant.
pub open spec fn compact_local(v: date::DateTimeView) -> Seq<char> {
    compact_date_time(v.local_day(), v.local_second(), v.nanos)
}

/// The local date and time of an instant.
pub fn compact_local_text(instant: &DateTime) -> (r: String)
    ensures
        r@ == compact_local(instant@),
        date_reads_back(instant@.local_day()),
        instant@.valid(),
{
    compact_date_time_text(&instant.local_date(), &instant.local_time())
}

/// The date and time of an instant in UTC, such as `20260714T073000Z`.
pub open spec fn compact_utc(v: date::DateTimeView) -> Seq<char> {
    compact_local(v.at_offset(0)).push('Z')
}

/// Where the year has four digits, the date and time of an instant in UTC is sixteen characters: the
/// date, a mark, the time and a mark.
pub proof fn lemma_compact_utc(v: date::DateTimeView)
    requires
        v.valid(),
        date_reads_back(v.at_offset(0).local_day()),
        has_four_digit_year(v.at_offset(0).local_day()),
    ensures
        ({
            let utc = v.at_offset(0);
            let s = compact_utc(v);
            &&& s.len() == 16
            &&& s[8] == 'T'
            &&& s[15] == 'Z'
            &&& s.take(8) == compact_date(utc.local_day())
            &&& s.subrange(9, 15) == compact_time(utc.local_second(), utc.nanos)
            &&& forall|i: int| 0 <= i < 16 && i != 8 && i != 15 ==> text::is_digit(#[trigger] s[i])
        }),
{
    let utc = v.at_offset(0);
    let s = compact_utc(v);
    let d = compact_date(utc.local_day());
    let t = compact_time(utc.local_second(), utc.nanos);
    date::lemma_local_day_in_range(utc);
    lemma_compact_civil(date::civil_of(utc.local_day()));
    lemma_compact_time(utc.local_second(), utc.nanos);
    assert(d.len() == 8 && t.len() == 6);
    assert(s == (d + seq!['T'] + t).push('Z'));
    assert(s.take(8) =~= d);
    assert(s.subrange(9, 15) =~= t);
    assert forall|i: int| 0 <= i < 16 && i != 8 && i != 15 implies text::is_digit(#[trigger] s[i]) by {
        if i < 8 {
            assert(s[i] == d[i]);
        } else {
            assert(s[i] == t[i - 9]);
        }
    }
}

/// The date and time of an instant in UTC.
pub fn compact_utc_text(instant: &DateTime) -> (r: String)
    ensures
        r@ == compact_utc(instant@),
        date_reads_back(instant@.at_offset(0).local_day()),
        instant@.valid(),
{
    let mut out = compact_local_text(&instant.with_offset(0));
    out.push('Z');
    out
}

/// An instant with its offset.
pub fn rfc3339_text(instant: &DateTime) -> (r: String)
    ensures
        r@ == rfc3339_of(instant@),
{
    chrono_rfc3339(instant.timestamp(), instant.subsec_nanos(), instant.offset())
}

/// A day is written as its year, month and day, with hyphens between them or without: year in four
/// digits, month and day in two each.
pub proof fn law_text_of_a_day(day: int)
    requires
        has_four_digit_year(day),
    ensures
        ({
            let (year, month, of_month) = date::civil_of(day);
            let text = iso_date(day);
            let compact = compact_date(day);
            &&& text.len() == 10 && text[4] == '-' && text[7] == '-'
            &&& text::number_value(text.take(4)) == year
            &&& text::number_value(text.subrange(5, 7)) == month
            &&& text::number_value(text.subrange(8, 10)) == of_month
            &&& compact.len() == 8
            &&& compact.take(4) == text.take(4)
            &&& compact.subrange(4, 6) == text.subrange(5, 7)
            &&& compact.subrange(6, 8) == text.subrange(8, 10)
        }),
{
    date::lemma_civil_exists(day);
    let (year, month, of_month) = date::civil_of(day);
    let text = iso_date(day);
    let compact = compact_date(day);
    lemma_four_digits(year);
    text::law_order_of_two_digits(month, month);
    text::law_order_of_two_digits(of_month, of_month);
    assert(text.take(4) =~= four_digits(year));
    assert(text.subrange(5, 7) =~= text::two_digits(month));
    assert(text.subrange(8, 10) =~= text::two_digits(of_month));
    assert(compact.take(4) =~= four_digits(year));
    assert(compact.subrange(4, 6) =~= text::two_digits(month));
    assert(compact.subrange(6, 8) =~= text::two_digits(of_month));
}

proof fn lemma_four_digits(n: int)
    requires
        0 <= n <= 9999,
    ensures
        four_digits(n).len() == 4,
        text::number_value(four_digits(n)) == n,
{
    let (high, low) = (n / 100, n % 100);
    text::law_order_of_two_digits(high, high);
    text::law_order_of_two_digits(low, low);
    let s = four_digits(n);
    let a = text::two_digits(high);
    let b = text::two_digits(low);
    assert(s =~= a.push(b[0]).push(b[1]));
    assert(s.drop_last() =~= a.push(b[0]));
    assert(a.push(b[0]).drop_last() =~= a);
    assert(s.last() == b[1] && a.push(b[0]).last() == b[0]);
    assert(text::number_value(a.push(b[0])) == 10 * high + low / 10);
    assert(b.drop_last() =~= seq![b[0]]);
    assert(seq![b[0]].drop_last() =~= seq![]);
    assert(text::number_value(seq![b[0]].drop_last()) == 0);
    assert(b[0] as int - '0' as int == low / 10);
    assert(b[1] as int - '0' as int == low % 10);
}

/// Written days are in the order of the days, and no two are written alike.
pub proof fn law_order_of_written_days(a: int, b: int)
    requires
        has_four_digit_year(a),
        has_four_digit_year(b),
    ensures
        text::text_before(iso_date(a), iso_date(b)) <==> a < b,
        iso_date(a) == iso_date(b) <==> a == b,
        iso_date(a).len() == 10,
{
    lemma_order_of_days(a, b);
    lemma_order_of_days(b, a);
    text::lemma_text_order(iso_date(a), iso_date(b));
}

proof fn lemma_order_of_days(a: int, b: int)
    requires
        has_four_digit_year(a),
        has_four_digit_year(b),
    ensures
        text::text_before(iso_date(a), iso_date(b)) <==> a < b,
        iso_date(a).len() == 10,
{
    date::lemma_civil_exists(a);
    date::lemma_civil_exists(b);
    let (y, m, d) = date::civil_of(a);
    let (y2, m2, d2) = date::civil_of(b);
    date::lemma_day_number_order(y, m, d, y2, m2, d2);
    lemma_four_digits(y);
    lemma_four_digits(y2);
    let dash = seq!['-'];
    let (s1, t1) = (year_digits(y), year_digits(y2));
    let (s2, t2) = (text::two_digits(m), text::two_digits(m2));
    let (s3, t3) = (text::two_digits(d), text::two_digits(d2));
    lemma_order_of_four_digits(y, y2);
    text::law_order_of_two_digits(m, m2);
    text::law_order_of_two_digits(d, d2);
    text::law_order_of_two_digits(m2, m);
    text::law_order_of_two_digits(d2, d);
    assert(iso_date(a) =~= s1 + (dash + (s2 + (dash + s3))));
    assert(iso_date(b) =~= t1 + (dash + (t2 + (dash + t3))));
    text::law_order_of_texts(s1, t1, dash + (s2 + (dash + s3)), dash + (t2 + (dash + t3)));
    text::law_order_of_texts(dash, dash, s2 + (dash + s3), t2 + (dash + t3));
    text::law_order_of_texts(s2, t2, dash + s3, dash + t3);
    text::law_order_of_texts(dash, dash, s3, t3);
    text::lemma_text_order(dash, dash);
}

proof fn lemma_order_of_four_digits(a: int, b: int)
    requires
        0 <= a <= 9999,
        0 <= b <= 9999,
    ensures
        text::text_before(year_digits(a), year_digits(b)) <==> a < b,
        year_digits(a) == year_digits(b) <==> a == b,
{
    text::law_order_of_two_digits(a / 100, b / 100);
    text::law_order_of_two_digits(a % 100, b % 100);
    text::law_order_of_texts(
        text::two_digits(a / 100),
        text::two_digits(b / 100),
        text::two_digits(a % 100),
        text::two_digits(b % 100),
    );
    if year_digits(a) == year_digits(b) {
        lemma_four_digits(a);
        lemma_four_digits(b);
    }
}

/// A time is written as hours, minutes and seconds of two digits each; a leap second is the sixtieth.
pub proof fn law_text_of_a_time(second: int, nanos: int)
    requires
        0 <= second < 86400,
        0 <= nanos < 2000000000,
    ensures
        ({
            let text = compact_time(second, nanos);
            let clock = clock_time(second, nanos);
            &&& text.len() == 6
            &&& text::number_value(text.take(2)) * 3600 + text::number_value(text.subrange(2, 4)) * 60
                + text::number_value(text.subrange(4, 6)) == second + if nanos >= 1000000000 {
                1int
            } else {
                0int
            }
            &&& text::number_value(text.take(2)) < 24 && text::number_value(text.subrange(2, 4)) < 60
            &&& clock == text.take(2) + seq![':'] + text.subrange(2, 4) + seq![':'] + text.subrange(4, 6)
        }),
{
    let text = compact_time(second, nanos);
    let (h, m) = (second / 3600, second / 60 % 60);
    let s = second % 60 + nanos / 1000000000;
    text::law_order_of_two_digits(h, h);
    text::law_order_of_two_digits(m, m);
    text::law_order_of_two_digits(s, s);
    assert(text.take(2) =~= text::two_digits(h));
    assert(text.subrange(2, 4) =~= text::two_digits(m));
    assert(text.subrange(4, 6) =~= text::two_digits(s));
}

/// A date and time are written with `T` between them, in UTC with `Z` after them.
pub proof fn law_text_of_a_moment(v: date::DateTimeView)
    ensures
        compact_local(v) == compact_date(v.local_day()) + "T"@ + compact_time(
            v.local_second(),
            v.nanos,
        ),
        compact_utc(v) == compact_local(date::DateTimeView { offset: 0, ..v }) + "Z"@,
        rfc3339_of(v) == iso_date(v.local_day()) + "T"@ + clock_time(v.local_second(), v.nanos)
            + fraction(v.nanos % 1000000000) + offset_text(v.offset),
        offset_text(0) == "+00:00"@,
        fraction(0) == ""@,
{
    reveal_strlit("T");
    reveal_strlit("Z");
    reveal_strlit("+00:00");
    reveal_strlit("");
    assert("T"@ =~= seq!['T']);
    assert(compact_utc(v) =~= compact_local(date::DateTimeView { offset: 0, ..v }) + "Z"@);
    assert(text::two_digits(0) =~= seq!['0', '0']);
    assert(offset_text(0) =~= "+00:00"@);
    assert(fraction(0) =~= ""@);
}

/// Moments in UTC without a fraction are written in the order of the moments.
pub proof fn law_order_of_written_moments(a: date::DateTimeView, b: date::DateTimeView)
    requires
        a.offset == 0,
        b.offset == 0,
        a.nanos == 0,
        b.nanos == 0,
        has_four_digit_year(a.local_day()),
        has_four_digit_year(b.local_day()),
    ensures
        text::text_before(rfc3339_of(a), rfc3339_of(b)) <==> a.seconds < b.seconds,
{
    let (x, y) = (a.local_second(), b.local_second());
    let (c, d) = (clock_time(x, 0), clock_time(y, 0));
    let tee = seq!['T'];
    let tail = fraction(0) + offset_text(0);
    law_order_of_written_days(a.local_day(), b.local_day());
    lemma_order_of_clock_times(x, y);
    assert(rfc3339_of(a) =~= iso_date(a.local_day()) + (tee + (c + tail)));
    assert(rfc3339_of(b) =~= iso_date(b.local_day()) + (tee + (d + tail)));
    text::law_order_of_texts(
        iso_date(a.local_day()),
        iso_date(b.local_day()),
        tee + (c + tail),
        tee + (d + tail),
    );
    text::law_order_of_texts(tee, tee, c + tail, d + tail);
    text::law_order_of_texts(c, d, tail, tail);
    text::lemma_text_order(tee, tee);
    text::lemma_text_order(tail, tail);
}

proof fn lemma_order_of_clock_times(x: int, y: int)
    requires
        0 <= x < 86400,
        0 <= y < 86400,
    ensures
        text::text_before(clock_time(x, 0), clock_time(y, 0)) <==> x < y,
        clock_time(x, 0) == clock_time(y, 0) <==> x == y,
        clock_time(x, 0).len() == 8,
        clock_time(y, 0).len() == 8,
{
    lemma_order_of_clocks(x, y);
    lemma_order_of_clocks(y, x);
    text::lemma_text_order(clock_time(x, 0), clock_time(y, 0));
}

#[verifier::spinoff_prover]
proof fn lemma_order_of_clocks(x: int, y: int)
    requires
        0 <= x < 86400,
        0 <= y < 86400,
    ensures
        text::text_before(clock_time(x, 0), clock_time(y, 0)) <==> x < y,
        clock_time(x, 0).len() == 8,
{
    let colon = seq![':'];
    let (a, b, c) = (x / 3600, x / 60 % 60, x % 60);
    let (a2, b2, c2) = (y / 3600, y / 60 % 60, y % 60);
    assert(x == a * 3600 + b * 60 + c);
    assert(y == a2 * 3600 + b2 * 60 + c2);
    let (h, m, s) = (text::two_digits(a), text::two_digits(b), text::two_digits(c));
    let (h2, m2, s2) = (text::two_digits(a2), text::two_digits(b2), text::two_digits(c2));
    text::law_order_of_two_digits(a, a2);
    text::law_order_of_two_digits(b, b2);
    text::law_order_of_two_digits(c, c2);
    text::law_order_of_two_digits(a2, a);
    text::law_order_of_two_digits(b2, b);
    text::law_order_of_two_digits(c2, c);
    let (last, last2) = (colon + s, colon + s2);
    let (rest, rest2) = (colon + (m + last), colon + (m2 + last2));
    assert(clock_time(x, 0) =~= h + rest);
    assert(clock_time(y, 0) =~= h2 + rest2);
    text::law_order_of_texts(h, h2, rest, rest2);
    text::law_order_of_texts(colon, colon, m + last, m2 + last2);
    text::law_order_of_texts(m, m2, last, last2);
    text::law_order_of_texts(colon, colon, s, s2);
    text::lemma_text_order(colon, colon);
}

} // verus!
