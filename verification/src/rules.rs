//! Occurrences of recurrence rules.
use chrono::Offset;
use vstd::prelude::*;

use crate::date;
use crate::date::{DateTime, DateTimeView};
use crate::lines;
use crate::lists;
use crate::model;
use crate::text;

verus! {

/// An occurrence as `rrule` gives it: seconds and nanoseconds since the epoch, offset from UTC.
pub type Occurrence = (i64, u32, i32);

/// Whether every one of the values of a property is in UTC.
pub open spec fn is_utc_value(value: Seq<char>) -> bool {
    forall|i: int|
        0 <= i < text::split(value, ',').len() ==> (#[trigger] text::split(value, ',')[i]).len() > 0
            && text::split(value, ',')[i].last() == 'Z'
}

/// Whether a line says of each of its times which zone it is in. The times of a rule are left
/// aside: beside a zoned start a rule with a local end is refused wherever it is read. An empty line
/// holds no time.
pub open spec fn is_zoned_line(line: Seq<char>) -> bool {
    ||| line.len() == 0
    ||| text::starts_with(line, "RRULE:"@)
    ||| text::starts_with(line, "DTSTART;TZID="@)
    ||| text::starts_with(line, "RDATE;TZID="@)
    ||| text::starts_with(line, "EXDATE;TZID="@)
    ||| text::starts_with(line, "DTSTART:"@) && is_utc_value(line.skip(8))
    ||| text::starts_with(line, "RDATE:"@) && is_utc_value(line.skip(6))
    ||| text::starts_with(line, "EXDATE:"@) && is_utc_value(line.skip(7))
}

/// Whether no time in a recurrence text is read in the time zone of the machine.
pub open spec fn is_zoned(source: Seq<char>) -> bool {
    forall|i: int|
        0 <= i < text::split(source, '\n').len() ==> is_zoned_line(
            #[trigger] text::split(source, '\n')[i],
        )
}

/// The clocks of any machine. A text that says of each of its times which zone it is in means the
/// same by all clocks.
pub open spec fn any_clocks() -> Seq<char> {
    Seq::empty()
}

// ---------------------------------------------------------------------------------------------
// Texts that can be read
// ---------------------------------------------------------------------------------------------

/// Whether the last two bytes of a text begin at a character, where it has two bytes.
pub open spec fn is_cut_whole(item: Seq<char>) -> bool {
    ||| item.len() == 0
    ||| text::char_bytes(item.last()) == 2
    ||| text::char_bytes(item.last()) == 1 && (item.len() == 1 || text::char_bytes(
        item[item.len() - 2],
    ) == 1)
}

/// Whether each item of a list is cut whole.
pub open spec fn are_cut_whole(value: Seq<char>) -> bool {
    forall|i: int|
        0 <= i < text::split(value, ',').len() ==> is_cut_whole(#[trigger] text::split(value, ',')[i])
}

/// Whether a part of a rule lists days of the week.
pub open spec fn is_day_key(key: Seq<char>) -> bool {
    text::upper(key) == "BYDAY"@ || text::upper(key) == "BYWEEKDAY"@
}

/// Whether the days that a part of a rule lists, if any, are cut whole.
pub open spec fn is_readable_part(part: Seq<char>) -> bool {
    match text::split_once(part, '=') {
        Some((key, value)) => is_day_key(key) ==> are_cut_whole(value),
        None => true,
    }
}

/// What stands behind the first colon of a line, or the line where there is none.
pub open spec fn line_value(line: Seq<char>) -> Seq<char> {
    match text::split_once(line, ':') {
        Some((_, value)) => value,
        None => line,
    }
}

/// Whether a line holds dates, and no rule.
pub open spec fn is_date_line(line: Seq<char>) -> bool {
    ||| text::starts_with(line, "DTSTART:"@)
    ||| text::starts_with(line, "DTSTART;"@)
    ||| text::starts_with(line, "RDATE:"@)
    ||| text::starts_with(line, "RDATE;"@)
    ||| text::starts_with(line, "EXDATE:"@)
    ||| text::starts_with(line, "EXDATE;"@)
}

/// Whether a line holds dates, or a rule whose days are cut whole.
pub open spec fn is_readable_line(line: Seq<char>) -> bool {
    is_date_line(line) || forall|i: int|
        0 <= i < text::split(line_value(line), ';').len() ==> is_readable_part(
            #[trigger] text::split(line_value(line), ';')[i],
        )
}

/// Whether all days of the week that a recurrence text lists are cut whole. Others cannot be read.
pub open spec fn is_readable(source: Seq<char>) -> bool {
    forall|i: int|
        0 <= i < lines::lines(source).len() ==> is_readable_line(#[trigger] lines::lines(source)[i])
}

/// Number of bytes of a character in UTF-8.
fn bytes_of(c: char) -> (r: u32)
    ensures
        r == text::char_bytes(c),
{
    let code: u32 = c as u32;
    if code < 0x80 {
        1
    } else if code < 0x800 {
        2
    } else if code < 0x10000 {
        3
    } else {
        4
    }
}

/// Whether the last two bytes of a text begin at a character, where it has two bytes.
fn cut_whole(item: &Vec<char>) -> (r: bool)
    ensures
        r == is_cut_whole(item@),
{
    let n: usize = item.len();
    if n == 0 {
        return true;
    }
    let last: u32 = bytes_of(item[n - 1]);
    last == 2 || (last == 1 && (n == 1 || bytes_of(item[n - 2]) == 1))
}

/// Whether the days that a part of a rule lists, if any, are cut whole.
#[verifier::loop_isolation(false)]
fn readable_part(part: &Vec<char>) -> (r: bool)
    ensures
        r == is_readable_part(part@),
{
    let (key, value) = match text::split_chars_once(part, '=') {
        Some(pair) => pair,
        None => {
            return true;
        },
    };
    let name = text::upper_chars(&key);
    if !text::chars_are(&name, "BYDAY") && !text::chars_are(&name, "BYWEEKDAY") {
        return true;
    }
    assert(text::split_once(part@, '=') == Some((key@, value@)));
    let items = text::split_chars(&value, ',');
    let ghost all = text::split(value@, ',');
    for i in 0..items.len()
        invariant
            all == text::char_views(items@),
            forall|k: int| 0 <= k < i ==> is_cut_whole(#[trigger] all[k]),
    {
        assert(all[i as int] == items@[i as int]@);
        if !cut_whole(&items[i]) {
            assert(!is_cut_whole(text::split(value@, ',')[i as int]));
            assert(!are_cut_whole(value@));
            return false;
        }
    }
    true
}

/// Whether a line holds dates, and no rule.
fn date_line(line: &Vec<char>) -> (r: bool)
    ensures
        r == is_date_line(line@),
{
    text::strip_prefix(line, "DTSTART:").is_some() || text::strip_prefix(line, "DTSTART;").is_some()
        || text::strip_prefix(line, "RDATE:").is_some() || text::strip_prefix(line, "RDATE;").is_some()
        || text::strip_prefix(line, "EXDATE:").is_some() || text::strip_prefix(
        line,
        "EXDATE;",
    ).is_some()
}

/// Whether a line holds dates, or a rule whose days are cut whole.
#[verifier::loop_isolation(false)]
fn readable_line(line: &Vec<char>) -> (r: bool)
    ensures
        r == is_readable_line(line@),
{
    if date_line(line) {
        return true;
    }
    let parts = match text::split_chars_once(line, ':') {
        Some((_, value)) => text::split_chars(&value, ';'),
        None => text::split_chars(line, ';'),
    };
    let ghost all = text::split(line_value(line@), ';');
    for i in 0..parts.len()
        invariant
            all == text::char_views(parts@),
            forall|k: int| 0 <= k < i ==> is_readable_part(#[trigger] all[k]),
    {
        assert(all[i as int] == parts@[i as int]@);
        if !readable_part(&parts[i]) {
            assert(!is_readable_part(text::split(line_value(line@), ';')[i as int]));
            return false;
        }
    }
    true
}

/// Whether all days of the week that a recurrence text lists are cut whole.
#[verifier::loop_isolation(false)]
pub fn can_read(source: &str) -> (r: bool)
    ensures
        r == is_readable(source@),
{
    let found = lines::split_lines(&text::chars_of(source));
    let ghost all = lines::lines(source@);
    for i in 0..found.len()
        invariant
            all == text::char_views(found@),
            forall|k: int| 0 <= k < i ==> is_readable_line(#[trigger] all[k]),
    {
        assert(all[i as int] == found@[i as int]@);
        if !readable_line(&found[i]) {
            assert(!is_readable_line(lines::lines(source@)[i as int]));
            return false;
        }
    }
    true
}

// ---------------------------------------------------------------------------------------------
// Texts that are accepted
// ---------------------------------------------------------------------------------------------

/// Whether `rrule::RRuleSet::from_str` accepts a recurrence text that can be read, on a machine with
/// the given clocks.
pub uninterp spec fn rule_set_parsed(source: Seq<char>, clocks: Seq<char>) -> bool;

/// Whether a recurrence text is accepted on a machine with the given clocks. One that cannot be read
/// is not.
pub open spec fn rule_set_valid(source: Seq<char>, clocks: Seq<char>) -> bool {
    is_readable(source) && rule_set_parsed(source, clocks)
}

/// What `rrule::RRuleSet::all` gives of the recurrences of a text between two instants, both
/// inside, at most `limit` of them, on a machine with the given clocks.
pub uninterp spec fn rule_set_dates(
    source: Seq<char>,
    after: (i64, u32),
    before: (i64, u32),
    limit: u16,
    clocks: Seq<char>,
) -> Seq<Occurrence>;

/// The excluded dates that `rrule::RRuleSet::get_exdate` gives of an accepted text on a machine with
/// the given clocks.
pub uninterp spec fn rule_set_exdates(source: Seq<char>, clocks: Seq<char>) -> Seq<Occurrence>;

/// An occurrence as an instant with its offset.
pub open spec fn occurrence_view(o: Occurrence) -> DateTimeView {
    DateTimeView { seconds: o.0 as int, nanos: o.1 as int, offset: o.2 as int }
}

/// Whether an occurrence is a representable instant from `after` to `before`.
pub open spec fn is_between(o: Occurrence, after: (i64, u32), before: (i64, u32)) -> bool {
    &&& occurrence_view(o).valid()
    &&& after.0 < o.0 || (after.0 == o.0 && after.1 <= o.1)
    &&& o.0 < before.0 || (o.0 == before.0 && o.1 <= before.1)
}

/// `rrule::RRuleSet::from_str`: whether the text is a start with at least one rule or date, which
/// depends on the text and the clocks of the machine. Where no time is read in the zone of the
/// machine, it is the same by all clocks. Each day of the week that a rule lists is cut two bytes
/// before its end, which panics within a character: here and below, such texts are left out.
#[verifier::external_body]
fn rrule_valid(source: &str) -> (r: bool)
    requires
        is_readable(source@),
    ensures
        is_zoned(source@) ==> r == rule_set_parsed(source@, any_clocks()),
        exists|clocks: Seq<char>| r == #[trigger] rule_set_parsed(source@, clocks),
{
    source.parse::<rrule::RRuleSet>().is_ok()
}

/// `rrule::RRuleSet::all` after `from_str`, `after` and `before`: nothing where the text is not
/// accepted, and otherwise at most `limit` recurrences between the two instants, both inside, each
/// with the offset of its zone. They depend on the arguments and the clocks of the machine; where no
/// time is read in the zone of the machine, they are the same by all clocks.
#[verifier::external_body]
fn rrule_all(source: &str, after: (i64, u32), before: (i64, u32), limit: u16) -> (r: Option<
    Vec<Occurrence>,
>)
    requires
        is_readable(source@),
        date::is_instant(after.0 as int, after.1 as int),
        date::is_instant(before.0 as int, before.1 as int),
    ensures
        is_zoned(source@) ==> (r is Some) == rule_set_parsed(source@, any_clocks()),
        is_zoned(source@) && r is Some ==> r->0@ == rule_set_dates(
            source@,
            after,
            before,
            limit,
            any_clocks(),
        ),
        exists|clocks: Seq<char>|
            (r is Some) == #[trigger] rule_set_parsed(source@, clocks) && (r is Some ==> r->0@
                == rule_set_dates(source@, after, before, limit, clocks)),
        r is Some ==> r->0@.len() <= limit,
        r is Some ==> forall|i: int|
            0 <= i < r->0@.len() ==> is_between(#[trigger] r->0@[i], after, before),
{
    let set = source.parse::<rrule::RRuleSet>().ok()?;
    let after = chrono::DateTime::from_timestamp(after.0, after.1)?.with_timezone(&rrule::Tz::UTC);
    let before = chrono::DateTime::from_timestamp(before.0, before.1)?.with_timezone(&rrule::Tz::UTC);
    let dates = set.after(after).before(before).all(limit).dates;
    let plain = dates.iter().map(|date| {
        (date.timestamp(), date.timestamp_subsec_nanos(), date.offset().fix().local_minus_utc())
    });
    Some(plain.collect())
}

/// `rrule::RRuleSet::get_exdate` after `from_str`: nothing where the text is not accepted, and
/// otherwise the excluded dates, each a representable instant with the offset of its zone. They
/// depend on the text and the clocks of the machine; where no time is read in the zone of the
/// machine, they are the same by all clocks.
#[verifier::external_body]
fn rrule_exdates(source: &str) -> (r: Option<Vec<Occurrence>>)
    requires
        is_readable(source@),
    ensures
        is_zoned(source@) ==> (r is Some) == rule_set_parsed(source@, any_clocks()),
        is_zoned(source@) && r is Some ==> r->0@ == rule_set_exdates(source@, any_clocks()),
        exists|clocks: Seq<char>|
            (r is Some) == #[trigger] rule_set_parsed(source@, clocks) && (r is Some ==> r->0@
                == rule_set_exdates(source@, clocks)),
        r is Some ==> forall|i: int| 0 <= i < r->0@.len() ==> occurrence_view(#[trigger] r->0@[i]).valid(),
{
    let set = source.parse::<rrule::RRuleSet>().ok()?;
    let plain = set.get_exdate().iter().map(|date| {
        (date.timestamp(), date.timestamp_subsec_nanos(), date.offset().fix().local_minus_utc())
    });
    Some(plain.collect())
}

/// Whether a recurrence text is accepted.
pub fn is_valid_rule_set(source: &str) -> (r: bool)
    ensures
        is_zoned(source@) ==> r == rule_set_valid(source@, any_clocks()),
        exists|clocks: Seq<char>| r == #[trigger] rule_set_valid(source@, clocks),
{
    if !can_read(source) {
        assert(!rule_set_valid(source@, any_clocks()));
        return false;
    }
    let r = rrule_valid(source);
    let ghost clocks = choose|clocks: Seq<char>| r == #[trigger] rule_set_parsed(source@, clocks);
    assert(r == rule_set_valid(source@, clocks));
    r
}

/// Whether some clocks accept a recurrence text.
pub open spec fn may_be_valid(source: Seq<char>) -> bool {
    exists|clocks: Seq<char>| #[trigger] rule_set_valid(source, clocks)
}

/// Whether some clocks refuse a recurrence text.
pub open spec fn may_be_invalid(source: Seq<char>) -> bool {
    exists|clocks: Seq<char>| !(#[trigger] rule_set_valid(source, clocks))
}

/// Whether it was found that the recurrence text of an event is accepted, or that it is not. Where
/// there is no text, none is accepted.
pub open spec fn is_verdict(accepted: bool, source: Option<Seq<char>>) -> bool {
    match source {
        None => !accepted,
        Some(source) => {
            &&& is_zoned(source) ==> accepted == rule_set_valid(source, any_clocks())
            &&& if accepted {
                may_be_valid(source)
            } else {
                may_be_invalid(source)
            }
        },
    }
}

/// Whether the recurrence text of an event is accepted, where there is one.
pub fn is_accepted(source: &Option<String>) -> (r: bool)
    ensures
        is_verdict(r, model::text_view(*source)),
{
    match source {
        Some(source) => {
            let accepted = is_valid_rule_set(source.as_str());
            let ghost clocks = choose|clocks: Seq<char>|
                accepted == #[trigger] rule_set_valid(source@, clocks);
            assert(accepted == rule_set_valid(source@, clocks));
            accepted
        },
        None => false,
    }
}

/// The instants that a list of occurrences stands for.
pub open spec fn occurrence_views(occurrences: Seq<Occurrence>) -> Seq<DateTimeView> {
    Seq::new(occurrences.len(), |i: int| occurrence_view(occurrences[i]))
}

/// The values of a list of instants.
pub open spec fn instant_views(instants: Seq<DateTime>) -> Seq<DateTimeView> {
    Seq::new(instants.len(), |i: int| instants[i]@)
}

/// The occurrences of an accepted recurrence text between two instants, by the clocks of a machine.
pub open spec fn occurrences_by(
    source: Seq<char>,
    after: DateTimeView,
    before: DateTimeView,
    limit: u16,
    clocks: Seq<char>,
) -> Option<Seq<DateTimeView>> {
    if rule_set_valid(source, clocks) {
        Some(
            occurrence_views(
                rule_set_dates(
                    source,
                    (after.seconds as i64, after.nanos as u32),
                    (before.seconds as i64, before.nanos as u32),
                    limit,
                    clocks,
                ),
            ),
        )
    } else {
        None
    }
}

/// The values of an optional list of instants.
pub open spec fn optional_views(r: Option<Vec<DateTime>>) -> Option<Seq<DateTimeView>> {
    match r {
        Some(instants) => Some(instant_views(instants@)),
        None => None,
    }
}

/// Whether an instant lies from `after` to `before`.
pub open spec fn within(v: DateTimeView, after: DateTimeView, before: DateTimeView) -> bool {
    !v.before(after) && !before.before(v)
}

/// The recurrences of a text between two instants, both inside, at most `limit` of them; nothing
/// where the text is not accepted.
pub fn occurrences(source: &str, after: &DateTime, before: &DateTime, limit: u16) -> (r: Option<
    Vec<DateTime>,
>)
    ensures
        is_zoned(source@) ==> optional_views(r) == occurrences_by(
            source@,
            after@,
            before@,
            limit,
            any_clocks(),
        ),
        exists|clocks: Seq<char>|
            optional_views(r) == #[trigger] occurrences_by(source@, after@, before@, limit, clocks),
        r is Some ==> r->0@.len() <= limit,
        r is Some ==> forall|i: int|
            0 <= i < r->0@.len() ==> within((#[trigger] r->0@[i])@, after@, before@),
{
    if !can_read(source) {
        let r: Option<Vec<DateTime>> = None;
        assert(optional_views(r) == occurrences_by(source@, after@, before@, limit, any_clocks()));
        return r;
    }
    let found = rrule_all(
        source,
        (after.timestamp(), after.subsec_nanos()),
        (before.timestamp(), before.subsec_nanos()),
        limit,
    );
    let ghost clocks = choose|clocks: Seq<char>|
        (found is Some) == #[trigger] rule_set_parsed(source@, clocks) && (found is Some ==> found->0@
            == rule_set_dates(
            source@,
            (after@.seconds as i64, after@.nanos as u32),
            (before@.seconds as i64, before@.nanos as u32),
            limit,
            clocks,
        ));
    match found {
        None => {
            let r: Option<Vec<DateTime>> = None;
            assert(optional_views(r) == occurrences_by(source@, after@, before@, limit, clocks));
            r
        },
        Some(plain) => {
            let mut dates: Vec<DateTime> = Vec::new();
            for i in 0..plain.len()
                invariant
                    dates@.len() == i,
                    forall|k: int|
                        0 <= k < plain@.len() ==> is_between(
                            #[trigger] plain@[k],
                            (after@.seconds as i64, after@.nanos as u32),
                            (before@.seconds as i64, before@.nanos as u32),
                        ),
                    after@.valid(),
                    before@.valid(),
                    forall|k: int|
                        0 <= k < i ==> (#[trigger] dates@[k])@ == occurrence_view(plain@[k]),
            {
                let (seconds, nanos, offset): (i64, u32, i32) = plain[i];
                assert(is_between(
                    plain@[i as int],
                    (after@.seconds as i64, after@.nanos as u32),
                    (before@.seconds as i64, before@.nanos as u32),
                ));
                if let Some(instant) = DateTime::new(seconds, nanos, offset) {
                    dates.push(instant);
                }
            }
            proof {
                assert(instant_views(dates@) =~= occurrence_views(plain@));
                assert forall|i: int| 0 <= i < dates@.len() implies within(
                    (#[trigger] dates@[i])@,
                    after@,
                    before@,
                ) by {
                    assert(is_between(
                        plain@[i],
                        (after@.seconds as i64, after@.nanos as u32),
                        (before@.seconds as i64, before@.nanos as u32),
                    ));
                }
            }
            let r = Some(dates);
            assert(optional_views(r) == occurrences_by(source@, after@, before@, limit, clocks));
            r
        },
    }
}

/// The excluded dates of an accepted recurrence text, by the clocks of a machine.
pub open spec fn exdates_by(source: Seq<char>, clocks: Seq<char>) -> Option<Seq<DateTimeView>> {
    if rule_set_valid(source, clocks) {
        Some(occurrence_views(rule_set_exdates(source, clocks)))
    } else {
        None
    }
}

/// The excluded dates of a recurrence text; nothing where it is not accepted.
pub fn exdates(source: &str) -> (r: Option<Vec<DateTime>>)
    ensures
        is_zoned(source@) ==> optional_views(r) == exdates_by(source@, any_clocks()),
        exists|clocks: Seq<char>| optional_views(r) == #[trigger] exdates_by(source@, clocks),
{
    if !can_read(source) {
        let r: Option<Vec<DateTime>> = None;
        assert(optional_views(r) == exdates_by(source@, any_clocks()));
        return r;
    }
    let found = rrule_exdates(source);
    let ghost clocks = choose|clocks: Seq<char>|
        (found is Some) == #[trigger] rule_set_parsed(source@, clocks) && (found is Some ==> found->0@
            == rule_set_exdates(source@, clocks));
    match found {
        None => {
            let r: Option<Vec<DateTime>> = None;
            assert(optional_views(r) == exdates_by(source@, clocks));
            r
        },
        Some(plain) => {
            let mut dates: Vec<DateTime> = Vec::new();
            for i in 0..plain.len()
                invariant
                    dates@.len() == i,
                    forall|k: int|
                        0 <= k < plain@.len() ==> occurrence_view(#[trigger] plain@[k]).valid(),
                    forall|k: int|
                        0 <= k < i ==> (#[trigger] dates@[k])@ == occurrence_view(plain@[k]),
            {
                let (seconds, nanos, offset): (i64, u32, i32) = plain[i];
                assert(occurrence_view(plain@[i as int]).valid());
                if let Some(instant) = DateTime::new(seconds, nanos, offset) {
                    dates.push(instant);
                }
            }
            assert(instant_views(dates@) =~= occurrence_views(plain@));
            let r = Some(dates);
            assert(optional_views(r) == exdates_by(source@, clocks));
            r
        },
    }
}

/// What `rrule::RRuleSet::all` gives of the recurrences of a text from an instant on, at most `limit`
/// of them, on a machine with the given clocks.
pub uninterp spec fn rule_set_dates_after(
    source: Seq<char>,
    after: (i64, u32),
    limit: u16,
    clocks: Seq<char>,
) -> Seq<Occurrence>;

/// The start that `rrule::RRuleSet::get_dt_start` gives of an accepted text on a machine with the
/// given clocks.
pub uninterp spec fn rule_set_start(source: Seq<char>, clocks: Seq<char>) -> Occurrence;

/// Whether an occurrence is a representable instant from `after` on.
pub open spec fn is_from(o: Occurrence, after: (i64, u32)) -> bool {
    occurrence_view(o).valid() && (after.0 < o.0 || (after.0 == o.0 && after.1 <= o.1))
}

/// `rrule::RRuleSet::all` after `from_str` and `after`: nothing where the text is not accepted, and
/// otherwise at most `limit` recurrences from the instant on, each with the offset of its zone. Their
/// years lie within ten thousand. They depend on the arguments and the clocks of the machine; where no
/// time is read in the zone of the machine, they are the same by all clocks.
#[verifier::external_body]
fn rrule_after(source: &str, after: (i64, u32), limit: u16) -> (r: Option<Vec<Occurrence>>)
    requires
        is_readable(source@),
        date::is_instant(after.0 as int, after.1 as int),
    ensures
        is_zoned(source@) ==> (r is Some) == rule_set_parsed(source@, any_clocks()),
        is_zoned(source@) && r is Some ==> r->0@ == rule_set_dates_after(
            source@,
            after,
            limit,
            any_clocks(),
        ),
        exists|clocks: Seq<char>|
            (r is Some) == #[trigger] rule_set_parsed(source@, clocks) && (r is Some ==> r->0@
                == rule_set_dates_after(source@, after, limit, clocks)),
        r is Some ==> r->0@.len() <= limit,
        r is Some ==> forall|i: int| 0 <= i < r->0@.len() ==> is_from(#[trigger] r->0@[i], after),
{
    let set = source.parse::<rrule::RRuleSet>().ok()?;
    let after = chrono::DateTime::from_timestamp(after.0, after.1)?.with_timezone(&rrule::Tz::UTC);
    let plain = set.after(after).all(limit).dates.into_iter().map(|date| {
        (date.timestamp(), date.timestamp_subsec_nanos(), date.offset().fix().local_minus_utc())
    });
    Some(plain.collect())
}

/// `rrule::RRuleSet::get_dt_start` after `from_str`: nothing where the text is not accepted, and
/// otherwise the start that it begins with, a representable instant with the offset of its zone.
/// It depends on the text and the clocks of the machine; where no time is read in the zone of the
/// machine, it is the same by all clocks.
#[verifier::external_body]
fn rrule_start(source: &str) -> (r: Option<Occurrence>)
    requires
        is_readable(source@),
    ensures
        is_zoned(source@) ==> (r is Some) == rule_set_parsed(source@, any_clocks()),
        is_zoned(source@) && r is Some ==> r->0 == rule_set_start(source@, any_clocks()),
        exists|clocks: Seq<char>|
            (r is Some) == #[trigger] rule_set_parsed(source@, clocks) && (r is Some ==> r->0
                == rule_set_start(source@, clocks)),
        r is Some ==> occurrence_view(r->0).valid(),
{
    let set = source.parse::<rrule::RRuleSet>().ok()?;
    let date = set.get_dt_start();
    Some((date.timestamp(), date.timestamp_subsec_nanos(), date.offset().fix().local_minus_utc()))
}

/// The occurrences of an accepted recurrence text from an instant on, by the clocks of a machine.
pub open spec fn occurrences_after_by(
    source: Seq<char>,
    after: DateTimeView,
    limit: u16,
    clocks: Seq<char>,
) -> Option<Seq<DateTimeView>> {
    if rule_set_valid(source, clocks) {
        Some(
            occurrence_views(
                rule_set_dates_after(
                    source,
                    (after.seconds as i64, after.nanos as u32),
                    limit,
                    clocks,
                ),
            ),
        )
    } else {
        None
    }
}

/// The recurrences of a text from an instant on, at most `limit` of them; nothing where the text is
/// not accepted.
pub fn occurrences_after(source: &str, after: &DateTime, limit: u16) -> (r: Option<Vec<DateTime>>)
    ensures
        is_zoned(source@) ==> optional_views(r) == occurrences_after_by(
            source@,
            after@,
            limit,
            any_clocks(),
        ),
        exists|clocks: Seq<char>|
            optional_views(r) == #[trigger] occurrences_after_by(source@, after@, limit, clocks),
        r is Some ==> r->0@.len() <= limit,
        r is Some ==> forall|i: int|
            0 <= i < r->0@.len() ==> !(#[trigger] r->0@[i])@.before(after@),
{
    if !can_read(source) {
        let r: Option<Vec<DateTime>> = None;
        assert(optional_views(r) == occurrences_after_by(source@, after@, limit, any_clocks()));
        return r;
    }
    let found = rrule_after(source, (after.timestamp(), after.subsec_nanos()), limit);
    let ghost from = (after@.seconds as i64, after@.nanos as u32);
    let ghost clocks = choose|clocks: Seq<char>|
        (found is Some) == #[trigger] rule_set_parsed(source@, clocks) && (found is Some ==> found->0@
            == rule_set_dates_after(source@, from, limit, clocks));
    match found {
        None => {
            let r: Option<Vec<DateTime>> = None;
            assert(optional_views(r) == occurrences_after_by(source@, after@, limit, clocks));
            r
        },
        Some(plain) => {
            let mut dates: Vec<DateTime> = Vec::new();
            for i in 0..plain.len()
                invariant
                    dates@.len() == i,
                    forall|k: int| 0 <= k < plain@.len() ==> is_from(#[trigger] plain@[k], from),
                    forall|k: int|
                        0 <= k < i ==> (#[trigger] dates@[k])@ == occurrence_view(plain@[k]),
            {
                let (seconds, nanos, offset): (i64, u32, i32) = plain[i];
                assert(is_from(plain@[i as int], from));
                if let Some(instant) = DateTime::new(seconds, nanos, offset) {
                    dates.push(instant);
                }
            }
            proof {
                assert(instant_views(dates@) =~= occurrence_views(plain@));
                assert forall|i: int| 0 <= i < dates@.len() implies !(#[trigger] dates@[i])@.before(
                    after@,
                ) by {
                    assert(is_from(plain@[i], from));
                }
            }
            let r = Some(dates);
            assert(optional_views(r) == occurrences_after_by(source@, after@, limit, clocks));
            r
        },
    }
}

/// The start of an accepted recurrence text, by the clocks of a machine.
pub open spec fn start_by(source: Seq<char>, clocks: Seq<char>) -> Option<DateTimeView> {
    if rule_set_valid(source, clocks) {
        Some(occurrence_view(rule_set_start(source, clocks)))
    } else {
        None
    }
}

/// The start of a recurrence text; nothing where it is not accepted.
pub fn start(source: &str) -> (r: Option<DateTime>)
    ensures
        is_zoned(source@) ==> lists::view_of(r) == start_by(source@, any_clocks()),
        exists|clocks: Seq<char>| lists::view_of(r) == #[trigger] start_by(source@, clocks),
{
    if !can_read(source) {
        let r: Option<DateTime> = None;
        assert(lists::view_of(r) == start_by(source@, any_clocks()));
        return r;
    }
    let found = rrule_start(source);
    let ghost clocks = choose|clocks: Seq<char>|
        (found is Some) == #[trigger] rule_set_parsed(source@, clocks) && (found is Some ==> found->0
            == rule_set_start(source@, clocks));
    let r = match found {
        None => None,
        Some((seconds, nanos, offset)) => DateTime::new(seconds, nanos, offset),
    };
    assert(lists::view_of(r) == start_by(source@, clocks));
    r
}

/// A text is accepted only where it is one and may be valid; one whose dates all have their zones is
/// accepted exactly where it is valid.
pub proof fn law_texts_that_are_accepted(accepted: bool, source: Option<Seq<char>>)
    requires
        is_verdict(accepted, source),
    ensures
        source is None ==> !accepted,
        source matches Some(content) ==> is_zoned(content) ==> (accepted <==> rule_set_valid(
            content,
            any_clocks(),
        )),
        source matches Some(content) ==> accepted ==> exists|clocks: Seq<char>|
            #[trigger] rule_set_valid(content, clocks),
        source matches Some(content) ==> !accepted ==> exists|clocks: Seq<char>|
            !(#[trigger] rule_set_valid(content, clocks)),
{
}

} // verus!
