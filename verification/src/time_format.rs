//! Times of day as text.
use vstd::prelude::*;

use crate::date::Time;
use crate::text;

verus! {

/// How times of day are shown.
#[derive(Clone, Copy, Debug, PartialEq, Eq, Structural)]
pub enum TimeFormatPreference {
    /// As the system shows them.
    System,
    TwelveHour,
    TwentyFourHour,
}

/// Whether times are shown with twelve hours, where `system` is what the system says of its clock.
pub open spec fn is_twelve_hour(preference: TimeFormatPreference, system: Seq<char>) -> bool {
    match preference {
        TimeFormatPreference::System => system == "12h"@,
        TimeFormatPreference::TwelveHour => true,
        TimeFormatPreference::TwentyFourHour => false,
    }
}

/// An hour of a clock with twelve hours.
pub open spec fn twelve_hour(hour: int) -> int {
    if hour % 12 == 0 {
        12
    } else {
        hour % 12
    }
}

/// A time with twelve hours, such as `9:05 AM`.
pub open spec fn twelve_hour_text(hour: int, minute: int) -> Seq<char> {
    text::decimal(twelve_hour(hour) as nat) + seq![':'] + text::two_digits(minute) + (if hour < 12 {
        " AM"@
    } else {
        " PM"@
    })
}

/// A time with twenty-four hours, such as `09:05`.
pub open spec fn twenty_four_hour_text(hour: int, minute: int) -> Seq<char> {
    text::two_digits(hour) + seq![':'] + text::two_digits(minute)
}

/// A time as text.
pub open spec fn time_text(time: Time, preference: TimeFormatPreference, system: Seq<char>) -> Seq<char> {
    if is_twelve_hour(preference, system) {
        twelve_hour_text(time.hour_spec(), time.minute_spec())
    } else {
        twenty_four_hour_text(time.hour_spec(), time.minute_spec())
    }
}

/// A time of day as text. What the system says of its clock is given, so that the text depends on
/// nothing else.
pub fn format_time(time: &Time, preference: TimeFormatPreference, system_clock_format: &str) -> (r: String)
    requires
        time.valid(),
    ensures
        r@ == time_text(*time, preference, system_clock_format@),
{
    let twelve = match preference {
        TimeFormatPreference::System => text::same_text(system_clock_format, "12h"),
        TimeFormatPreference::TwelveHour => true,
        TimeFormatPreference::TwentyFourHour => false,
    };
    let hour = time.hour();
    let minute = time.minute();
    if twelve {
        let shown: u64 = if hour % 12 == 0 {
            12
        } else {
            (hour % 12) as u64
        };
        let mut out = text::decimal_text(shown);
        out.push(':');
        out.append(text::two_digit_text(minute).as_str());
        if hour < 12 {
            out.append(" AM");
        } else {
            out.append(" PM");
        }
        assert(out@ =~= twelve_hour_text(hour as int, minute as int));
        out
    } else {
        let mut out = text::two_digit_text(hour);
        out.push(':');
        out.append(text::two_digit_text(minute).as_str());
        assert(out@ =~= twenty_four_hour_text(hour as int, minute as int));
        out
    }
}

/// A time is shown with hours from one to twelve and which half of the day it is, or with hours from
/// 00 to 23 in two digits, and with minutes in two digits. Midnight and noon are twelve.
pub proof fn law_how_times_are_shown(time: Time, preference: TimeFormatPreference, system: Seq<char>)
    requires
        time.seconds < 86400,
    ensures
        ({
            let hour = time.seconds as int / 3600;
            let minute = time.seconds as int / 60 % 60;
            let twelve = preference == TimeFormatPreference::TwelveHour || (preference
                == TimeFormatPreference::System && system == "12h"@);
            &&& !twelve ==> time_text(time, preference, system) == text::two_digits(hour) + ":"@
                + text::two_digits(minute)
            &&& twelve ==> exists|shown: nat|
                1 <= shown <= 12 && shown % 12 == hour % 12 && time_text(time, preference, system)
                    == #[trigger] text::decimal(shown) + ":"@ + text::two_digits(minute) + (if hour
                    < 12 {
                    " AM"@
                } else {
                    " PM"@
                })
        }),
{
    reveal_strlit(":");
    assert(":"@ =~= seq![':']);
    let hour = time.seconds as int / 3600;
    let minute = time.seconds as int / 60 % 60;
    let shown = twelve_hour(hour) as nat;
    assert(1 <= shown <= 12 && shown % 12 == hour % 12);
    assert(text::decimal(shown) == text::decimal(twelve_hour(hour) as nat));
}

} // verus!
