//! Names of months and weekdays.
use vstd::prelude::*;

use crate::date;
use crate::date::Date;

verus! {

/// The name of a month, January being the first.
pub open spec fn month_word(month: int) -> Seq<char> {
    if month == 1 {
        "January"@
    } else if month == 2 {
        "February"@
    } else if month == 3 {
        "March"@
    } else if month == 4 {
        "April"@
    } else if month == 5 {
        "May"@
    } else if month == 6 {
        "June"@
    } else if month == 7 {
        "July"@
    } else if month == 8 {
        "August"@
    } else if month == 9 {
        "September"@
    } else if month == 10 {
        "October"@
    } else if month == 11 {
        "November"@
    } else {
        "December"@
    }
}

/// The name of a month.
pub fn month_name(month: u32) -> (r: &'static str)
    requires
        1 <= month <= 12,
    ensures
        r@ == month_word(month as int),
{
    match month {
        1 => "January",
        2 => "February",
        3 => "March",
        4 => "April",
        5 => "May",
        6 => "June",
        7 => "July",
        8 => "August",
        9 => "September",
        10 => "October",
        11 => "November",
        _ => "December",
    }
}

/// The first three letters of the name of a month.
pub open spec fn month_letters(month: int) -> Seq<char> {
    if month == 1 {
        "Jan"@
    } else if month == 2 {
        "Feb"@
    } else if month == 3 {
        "Mar"@
    } else if month == 4 {
        "Apr"@
    } else if month == 5 {
        "May"@
    } else if month == 6 {
        "Jun"@
    } else if month == 7 {
        "Jul"@
    } else if month == 8 {
        "Aug"@
    } else if month == 9 {
        "Sep"@
    } else if month == 10 {
        "Oct"@
    } else if month == 11 {
        "Nov"@
    } else {
        "Dec"@
    }
}

/// The first three letters of the name of a month.
pub fn month_short(month: u32) -> (r: &'static str)
    requires
        1 <= month <= 12,
    ensures
        r@ == month_letters(month as int),
{
    match month {
        1 => "Jan",
        2 => "Feb",
        3 => "Mar",
        4 => "Apr",
        5 => "May",
        6 => "Jun",
        7 => "Jul",
        8 => "Aug",
        9 => "Sep",
        10 => "Oct",
        11 => "Nov",
        _ => "Dec",
    }
}

/// The name of a weekday, Monday being 0.
pub open spec fn weekday_word(weekday: int) -> Seq<char> {
    if weekday == 0 {
        "Monday"@
    } else if weekday == 1 {
        "Tuesday"@
    } else if weekday == 2 {
        "Wednesday"@
    } else if weekday == 3 {
        "Thursday"@
    } else if weekday == 4 {
        "Friday"@
    } else if weekday == 5 {
        "Saturday"@
    } else {
        "Sunday"@
    }
}

/// The name of the weekday of a date.
pub fn weekday_name(day: &Date) -> (r: &'static str)
    ensures
        r@ == weekday_word(date::weekday_of(day@)),
{
    match day.days_from_monday() {
        0 => "Monday",
        1 => "Tuesday",
        2 => "Wednesday",
        3 => "Thursday",
        4 => "Friday",
        5 => "Saturday",
        _ => "Sunday",
    }
}

/// The first three letters of the name of a weekday, Monday being 0.
pub open spec fn weekday_letters(weekday: int) -> Seq<char> {
    if weekday == 0 {
        "Mon"@
    } else if weekday == 1 {
        "Tue"@
    } else if weekday == 2 {
        "Wed"@
    } else if weekday == 3 {
        "Thu"@
    } else if weekday == 4 {
        "Fri"@
    } else if weekday == 5 {
        "Sat"@
    } else {
        "Sun"@
    }
}

/// The first three letters of the name of the weekday of a date.
pub fn weekday_short(day: &Date) -> (r: &'static str)
    ensures
        r@ == weekday_letters(date::weekday_of(day@)),
{
    match day.days_from_monday() {
        0 => "Mon",
        1 => "Tue",
        2 => "Wed",
        3 => "Thu",
        4 => "Fri",
        5 => "Sat",
        _ => "Sun",
    }
}

/// The months in the order of the year, and the days in the order of the week from Monday; the short
/// name of each is the first three letters of its name.
pub proof fn law_names_in_order(month: int, weekday: int)
    ensures
        1 <= month <= 12 ==> month_word(month) == seq![
            "January"@,
            "February"@,
            "March"@,
            "April"@,
            "May"@,
            "June"@,
            "July"@,
            "August"@,
            "September"@,
            "October"@,
            "November"@,
            "December"@,
        ][month - 1],
        0 <= weekday < 7 ==> weekday_word(weekday) == seq![
            "Monday"@,
            "Tuesday"@,
            "Wednesday"@,
            "Thursday"@,
            "Friday"@,
            "Saturday"@,
            "Sunday"@,
        ][weekday],
        1 <= month <= 12 ==> month_word(month).len() >= 3 && month_letters(month) == month_word(
            month,
        ).take(3),
        0 <= weekday < 7 ==> weekday_word(weekday).len() >= 3 && weekday_letters(weekday)
            == weekday_word(weekday).take(3),
{
    reveal_strlit("January");
    reveal_strlit("Jan");
    reveal_strlit("February");
    reveal_strlit("Feb");
    reveal_strlit("March");
    reveal_strlit("Mar");
    reveal_strlit("April");
    reveal_strlit("Apr");
    reveal_strlit("May");
    reveal_strlit("June");
    reveal_strlit("Jun");
    reveal_strlit("July");
    reveal_strlit("Jul");
    reveal_strlit("August");
    reveal_strlit("Aug");
    reveal_strlit("September");
    reveal_strlit("Sep");
    reveal_strlit("October");
    reveal_strlit("Oct");
    reveal_strlit("November");
    reveal_strlit("Nov");
    reveal_strlit("December");
    reveal_strlit("Dec");
    reveal_strlit("Monday");
    reveal_strlit("Mon");
    reveal_strlit("Tuesday");
    reveal_strlit("Tue");
    reveal_strlit("Wednesday");
    reveal_strlit("Wed");
    reveal_strlit("Thursday");
    reveal_strlit("Thu");
    reveal_strlit("Friday");
    reveal_strlit("Fri");
    reveal_strlit("Saturday");
    reveal_strlit("Sat");
    reveal_strlit("Sunday");
    reveal_strlit("Sun");
    assert("January"@.take(3) =~= "Jan"@);
    assert("February"@.take(3) =~= "Feb"@);
    assert("March"@.take(3) =~= "Mar"@);
    assert("April"@.take(3) =~= "Apr"@);
    assert("May"@.take(3) =~= "May"@);
    assert("June"@.take(3) =~= "Jun"@);
    assert("July"@.take(3) =~= "Jul"@);
    assert("August"@.take(3) =~= "Aug"@);
    assert("September"@.take(3) =~= "Sep"@);
    assert("October"@.take(3) =~= "Oct"@);
    assert("November"@.take(3) =~= "Nov"@);
    assert("December"@.take(3) =~= "Dec"@);
    assert("Monday"@.take(3) =~= "Mon"@);
    assert("Tuesday"@.take(3) =~= "Tue"@);
    assert("Wednesday"@.take(3) =~= "Wed"@);
    assert("Thursday"@.take(3) =~= "Thu"@);
    assert("Friday"@.take(3) =~= "Fri"@);
    assert("Saturday"@.take(3) =~= "Sat"@);
    assert("Sunday"@.take(3) =~= "Sun"@);
}

} // verus!
