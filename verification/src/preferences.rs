//! What the user prefers, and what the system says.
use vstd::prelude::*;

use crate::date::Time;
use crate::lines;
use crate::text;
use crate::time_format;
use crate::time_format::TimeFormatPreference;

verus! {

/// What stands before the preference in its line.
pub open spec fn prefix() -> Seq<char> {
    "time-format="@
}

/// What a preference is called.
pub open spec fn preference_name(preference: TimeFormatPreference) -> Seq<char> {
    match preference {
        TimeFormatPreference::System => "system"@,
        TimeFormatPreference::TwelveHour => "12-hour"@,
        TimeFormatPreference::TwentyFourHour => "24-hour"@,
    }
}

/// The value of the first line of the preference.
pub open spec fn first_value(all: Seq<Seq<char>>) -> Option<Seq<char>>
    decreases all.len(),
{
    if all.len() == 0 {
        None
    } else if text::starts_with(all[0], prefix()) {
        Some(all[0].skip(prefix().len() as int))
    } else {
        first_value(all.drop_first())
    }
}

/// The preference that a text stands for: that of the system where it names none.
pub open spec fn preference_of(contents: Seq<char>) -> TimeFormatPreference {
    match first_value(lines::lines(contents)) {
        Some(value) => if value == "12-hour"@ {
            TimeFormatPreference::TwelveHour
        } else if value == "24-hour"@ {
            TimeFormatPreference::TwentyFourHour
        } else {
            TimeFormatPreference::System
        },
        None => TimeFormatPreference::System,
    }
}

/// The preference that a text stands for.
fn read_preference(contents: &str) -> (r: TimeFormatPreference)
    ensures
        r == preference_of(contents@),
{
    let all = lines::split_lines(&text::chars_of(contents));
    let ghost views = text::char_views(all@);
    assert(views.skip(0) =~= views);
    for i in 0..all.len()
        invariant
            views == text::char_views(all@),
            views == lines::lines(contents@),
            first_value(views) == first_value(views.skip(i as int)),
    {
        proof {
            assert(views.skip(i as int)[0] == all@[i as int]@);
            assert(views.skip(i as int).drop_first() =~= views.skip(i + 1));
        }
        if let Some(value) = text::strip_prefix(&all[i], "time-format=") {
            assert(value@ =~= all@[i as int]@.skip(prefix().len() as int));
            if text::chars_are(&value, "12-hour") {
                return TimeFormatPreference::TwelveHour;
            }
            if text::chars_are(&value, "24-hour") {
                return TimeFormatPreference::TwentyFourHour;
            }
            return TimeFormatPreference::System;
        }
    }
    TimeFormatPreference::System
}

/// The preference in the contents of its file; that of the system where there is no file.
pub fn load_time_format_preference(contents: &Option<String>) -> (r: TimeFormatPreference)
    ensures
        r == match *contents {
            Some(contents) => preference_of(contents@),
            None => TimeFormatPreference::System,
        },
{
    match contents {
        Some(contents) => read_preference(contents.as_str()),
        None => TimeFormatPreference::System,
    }
}

/// The contents of the file of a preference.
pub open spec fn preference_text(preference: TimeFormatPreference) -> Seq<char> {
    prefix() + preference_name(preference) + seq!['\n']
}

/// The contents of the file of a preference.
pub fn save_time_format_preference(preference: TimeFormatPreference) -> (r: String)
    ensures
        r@ == preference_text(preference),
{
    let value = match preference {
        TimeFormatPreference::System => "system",
        TimeFormatPreference::TwelveHour => "12-hour",
        TimeFormatPreference::TwentyFourHour => "24-hour",
    };
    let mut out = text::joined("time-format=", value);
    out.push('\n');
    assert(out@ =~= preference_text(preference));
    out
}

/// A preference that was saved is loaded again.
pub proof fn law_saved_preference_is_loaded(preference: TimeFormatPreference)
    ensures
        preference_of(preference_text(preference)) == preference,
{
    reveal_strlit("time-format=");
    reveal_strlit("system");
    reveal_strlit("12-hour");
    reveal_strlit("24-hour");
    let line = prefix() + preference_name(preference);
    assert forall|k: int| 0 <= k < line.len() implies line[k] != '\n' by {
        if k >= prefix().len() {
            assert(line[k] == preference_name(preference)[k - prefix().len()]);
        }
    }
    assert(!line.contains('\n'));
    assert(seq![line].len() == 1);
    assert(text::join(seq![line], seq!['\n']) =~= line) by {
        reveal_with_fuel(text::join, 2);
    }
    lemma_one_line(line);
    assert(lines::without_return(line) == line);
    assert(lines::lines(preference_text(preference)) =~= seq![line]);
    assert(text::starts_with(line, prefix())) by {
        assert(line.take(prefix().len() as int) =~= prefix());
    }
    assert(line.skip(prefix().len() as int) =~= preference_name(preference));
    assert(seq![line][0] == line);
    if preference == TimeFormatPreference::System {
        assert("system"@ != "12-hour"@) by {
            assert("system"@.len() != "12-hour"@.len());
        }
        assert("system"@ != "24-hour"@) by {
            assert("system"@.len() != "24-hour"@.len());
        }
    } else if preference == TimeFormatPreference::TwentyFourHour {
        assert("24-hour"@[0] != "12-hour"@[0]);
    }
}

/// A line ended by a line feed is the only line of its text.
proof fn lemma_one_line(line: Seq<char>)
    requires
        !line.contains('\n'),
    ensures
        lines::lines(line.push('\n')) =~= seq![lines::without_return(line)],
        lines::lines(line + seq!['\n']) =~= seq![lines::without_return(line)],
{
    let whole = line.push('\n');
    assert(line + seq!['\n'] =~= whole);
    let parts = seq![line, Seq::<char>::empty()];
    assert(text::join(parts, seq!['\n']) =~= whole) by {
        reveal_with_fuel(text::join, 3);
        assert(parts.drop_first() =~= seq![Seq::<char>::empty()]);
        assert(parts.drop_last() =~= seq![line]);
    }
    assert forall|i: int| 0 <= i < parts.len() implies !(#[trigger] parts[i]).contains('\n') by {}
    text::lemma_split_of_join(parts, '\n');
}

/// What the system says of its clock: `12h` where it says nothing that is known.
pub open spec fn clock_format(value: Option<Seq<char>>) -> Seq<char> {
    match value {
        Some(value) => if value == "24h"@ {
            "24h"@
        } else {
            "12h"@
        },
        None => "12h"@,
    }
}

/// What the system says of its clock, by the value of its setting, where there is one.
pub fn system_clock_format(value: &Option<String>) -> (r: String)
    ensures
        r@ == clock_format(crate::model::text_view(*value)),
{
    if let Some(value) = value {
        if text::same_text(value.as_str(), "24h") {
            return "24h".to_owned();
        }
    }
    "12h".to_owned()
}

/// How times are shown, where `system` is what the system says of its clock.
pub open spec fn resolved(preference: TimeFormatPreference, system: Seq<char>) -> TimeFormatPreference {
    match preference {
        TimeFormatPreference::System => if system == "24h"@ {
            TimeFormatPreference::TwentyFourHour
        } else {
            TimeFormatPreference::TwelveHour
        },
        _ => preference,
    }
}

/// How times are shown: the preference of the system is made one of the other two.
pub fn resolved_time_format(preference: TimeFormatPreference, system_clock_format: &str) -> (r:
    TimeFormatPreference)
    ensures
        r == resolved(preference, system_clock_format@),
        r != TimeFormatPreference::System,
{
    match preference {
        TimeFormatPreference::System => if text::same_text(system_clock_format, "24h") {
            TimeFormatPreference::TwentyFourHour
        } else {
            TimeFormatPreference::TwelveHour
        },
        preference => preference,
    }
}

/// A time of day as text, by the contents of the file of the preference and what the system says.
pub fn format_wall_time(time: &Time, contents: &Option<String>, system: &Option<String>) -> (r: String)
    requires
        time.valid(),
    ensures
        r@ == time_format::time_text(
            *time,
            match *contents {
                Some(contents) => preference_of(contents@),
                None => TimeFormatPreference::System,
            },
            clock_format(crate::model::text_view(*system)),
        ),
{
    let preference = load_time_format_preference(contents);
    let clock = system_clock_format(system);
    time_format::format_time(time, preference, clock.as_str())
}

/// A time is shown alike under a preference and under what it is resolved to.
pub proof fn law_resolved_shows_alike(time: Time, preference: TimeFormatPreference, value: Option<Seq<char>>)
    ensures
        time_format::time_text(time, preference, clock_format(value)) == time_format::time_text(
            time,
            resolved(preference, clock_format(value)),
            clock_format(value),
        ),
{
    reveal_strlit("12h");
    reveal_strlit("24h");
    assert("12h"@[0] != "24h"@[0]);
}

/// The place of a preference in the list of those to choose from.
pub open spec fn place_of(preference: TimeFormatPreference) -> int {
    match preference {
        TimeFormatPreference::System => 0,
        TimeFormatPreference::TwelveHour => 1,
        TimeFormatPreference::TwentyFourHour => 2,
    }
}

/// The place of a preference in the list of those to choose from.
pub fn preference_index(preference: TimeFormatPreference) -> (r: u32)
    ensures
        r == place_of(preference),
{
    match preference {
        TimeFormatPreference::System => 0,
        TimeFormatPreference::TwelveHour => 1,
        TimeFormatPreference::TwentyFourHour => 2,
    }
}

/// The preference at a place of the list; that of the system where there is none.
pub fn preference_at(index: u32) -> (r: TimeFormatPreference)
    ensures
        index < 3 ==> place_of(r) == index,
        index >= 3 ==> r is System,
{
    match index {
        1 => TimeFormatPreference::TwelveHour,
        2 => TimeFormatPreference::TwentyFourHour,
        _ => TimeFormatPreference::System,
    }
}

/// How a preference is kept: one line with its name.
pub proof fn law_text_of_a_preference()
    ensures
        preference_text(TimeFormatPreference::System) == "time-format=system\n"@,
        preference_text(TimeFormatPreference::TwelveHour) == "time-format=12-hour\n"@,
        preference_text(TimeFormatPreference::TwentyFourHour) == "time-format=24-hour\n"@,
{
    reveal_strlit("time-format=");
    reveal_strlit("system");
    reveal_strlit("12-hour");
    reveal_strlit("24-hour");
    reveal_strlit("time-format=system\n");
    reveal_strlit("time-format=12-hour\n");
    reveal_strlit("time-format=24-hour\n");
    assert(preference_text(TimeFormatPreference::System) =~= "time-format=system\n"@);
    assert(preference_text(TimeFormatPreference::TwelveHour) =~= "time-format=12-hour\n"@);
    assert(preference_text(TimeFormatPreference::TwentyFourHour) =~= "time-format=24-hour\n"@);
}

/// The clock of the system counts twelve hours unless it says that it counts twenty-four; and the
/// preference to follow it means what it says.
pub proof fn law_clock_of_the_system(value: Option<Seq<char>>, preference: TimeFormatPreference)
    ensures
        value == Some("24h"@) ==> clock_format(value) == "24h"@,
        value != Some("24h"@) ==> clock_format(value) == "12h"@,
        resolved(TimeFormatPreference::System, "24h"@) == TimeFormatPreference::TwentyFourHour,
        resolved(TimeFormatPreference::System, "12h"@) == TimeFormatPreference::TwelveHour,
        preference != TimeFormatPreference::System ==> resolved(preference, clock_format(value))
            == preference,
        place_of(TimeFormatPreference::System) == 0,
        place_of(TimeFormatPreference::TwelveHour) == 1,
        place_of(TimeFormatPreference::TwentyFourHour) == 2,
{
    reveal_strlit("24h");
    reveal_strlit("12h");
    assert("24h"@[0] == '2' && "12h"@[0] == '1');
}

} // verus!
