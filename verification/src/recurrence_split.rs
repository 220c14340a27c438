//! Splitting a simple recurrence at one of its occurrences.
use vstd::prelude::*;

use crate::date;
use crate::date::{Date, DateTime, DateTimeView};
use crate::formats;
use crate::model;
use crate::model::{Event, EventSchedule, EventView, RecurrenceId, RecurrenceIdView, RecurrenceSpec, ScheduleView};
use crate::recurrence_form;
use crate::recurrence_form::{EndCondition, EndView, ReadForm, RecurrenceForm};
use crate::rules;
use crate::text;
use crate::zone;

verus! {

/// A recurrence split in two: the part before the chosen occurrence, and the schedule and the
/// recurrence of what follows.
#[derive(Debug)]
pub struct RecurrenceSplit {
    pub original_recurrence: RecurrenceSpec,
    pub future_schedule: EventSchedule,
    pub future_recurrence: RecurrenceSpec,
}

/// The values of a [`RecurrenceSplit`].
pub struct SplitView {
    pub original_recurrence: model::RecurrenceView,
    pub future_schedule: ScheduleView,
    pub future_recurrence: model::RecurrenceView,
}

impl View for RecurrenceSplit {
    type V = SplitView;

    open spec fn view(&self) -> SplitView {
        SplitView {
            original_recurrence: self.original_recurrence@,
            future_schedule: self.future_schedule@,
            future_recurrence: self.future_recurrence@,
        }
    }
}

/// Why a recurrence cannot be split.
#[derive(Clone, Copy, Debug, PartialEq, Eq, Structural)]
pub enum RecurrenceSplitError {
    MissingRecurrence,
    UnsupportedRecurrence,
    InvalidRecurrence,
    MismatchedIdentity,
    FirstOccurrence,
    NotGenerated,
}

impl RecurrenceSplitError {
    /// What to tell the user.
    pub open spec fn message_spec(self) -> Seq<char> {
        match self {
            RecurrenceSplitError::MissingRecurrence => "event has no recurrence"@,
            RecurrenceSplitError::UnsupportedRecurrence => "recurrence is not a supported simple rule"@,
            RecurrenceSplitError::InvalidRecurrence => "recurrence is invalid"@,
            RecurrenceSplitError::MismatchedIdentity => "recurrence identity does not match the event"@,
            RecurrenceSplitError::FirstOccurrence => "the first recurrence occurrence cannot be split"@,
            RecurrenceSplitError::NotGenerated => "recurrence identity is not a generated occurrence"@,
        }
    }

    /// What to tell the user.
    pub fn message(&self) -> (r: String)
        ensures
            r@ == self.message_spec(),
    {
        let message = match self {
            RecurrenceSplitError::MissingRecurrence => "event has no recurrence",
            RecurrenceSplitError::UnsupportedRecurrence => "recurrence is not a supported simple rule",
            RecurrenceSplitError::InvalidRecurrence => "recurrence is invalid",
            RecurrenceSplitError::MismatchedIdentity => "recurrence identity does not match the event",
            RecurrenceSplitError::FirstOccurrence => "the first recurrence occurrence cannot be split",
            RecurrenceSplitError::NotGenerated => "recurrence identity is not a generated occurrence",
        };
        message.to_owned()
    }
}

// ---------------------------------------------------------------------------------------------
// Rules with another count
// ---------------------------------------------------------------------------------------------

/// Whether a part of a rule has the given key, whatever the case of its letters.
pub open spec fn has_key(item: Seq<char>, key: Seq<char>) -> bool {
    text::split_once(item, '=') matches Some(pair) && text::lower(pair.0) == text::lower(key)
}

/// Whether some part of a rule has the given key.
pub open spec fn some_has_key(items: Seq<Seq<char>>, key: Seq<char>) -> bool {
    exists|i: int| 0 <= i < items.len() && has_key(#[trigger] items[i], key)
}

/// The part of a rule that gives a count.
pub open spec fn count_item(count: u32) -> Seq<char> {
    recurrence_form::rule_item("COUNT"@, text::decimal(count as nat))
}

/// The parts of a rule with every count replaced, and without its last day unless `preserve_end`.
pub open spec fn recounted_items(items: Seq<Seq<char>>, count: u32, preserve_end: bool) -> Seq<
    Seq<char>,
>
    decreases items.len(),
{
    if items.len() == 0 {
        seq![]
    } else {
        let before = recounted_items(items.drop_last(), count, preserve_end);
        if has_key(items.last(), "COUNT"@) {
            before.push(count_item(count))
        } else if !preserve_end && has_key(items.last(), "UNTIL"@) {
            before
        } else {
            before.push(items.last())
        }
    }
}

/// The parts of a rule that gives `count`.
pub open spec fn items_with_count(items: Seq<Seq<char>>, count: u32, preserve_end: bool) -> Seq<
    Seq<char>,
> {
    let recounted = recounted_items(items, count, preserve_end);
    if some_has_key(items, "COUNT"@) {
        recounted
    } else {
        recounted.push(count_item(count))
    }
}

/// A rule with its count set to `count`; its last day stays where `preserve_end` says so.
pub open spec fn rule_with_count_spec(rule: Seq<char>, count: u32, preserve_end: bool) -> Seq<char> {
    match text::split_once(rule, ':') {
        Some((property, value)) => property + seq![':'] + text::join(
            items_with_count(text::split(value, ';'), count, preserve_end),
            seq![';'],
        ),
        None => rule,
    }
}

/// Whether a part of a rule has the given key, whatever the case of its letters.
fn item_has_key(item: &Vec<char>, key: &str) -> (r: bool)
    ensures
        r == has_key(item@, key@),
{
    match text::split_chars_once(item, '=') {
        Some((name, _)) => text::same_ignoring_case(&name, key),
        None => false,
    }
}

/// The part of a rule that gives a count.
fn make_count_item(count: u32) -> (r: String)
    ensures
        r@ == count_item(count),
{
    let mut out = "COUNT".to_owned();
    out.push('=');
    out.append(text::decimal_text(count as u64).as_str());
    assert(out@ =~= count_item(count));
    out
}

/// A rule with its count set to `count`; its last day stays where `preserve_end` says so.
pub fn split_rule_with_count(rule: &str, count: u32, preserve_end: bool) -> (r: String)
    requires
        text::split_once(rule@, ':') is Some,
    ensures
        r@ == rule_with_count_spec(rule@, count, preserve_end),
{
    let (property, value): (Vec<char>, Vec<char>) = match text::split_chars_once(
        &text::chars_of(rule),
        ':',
    ) {
        Some(pair) => pair,
        None => (Vec::new(), Vec::new()),
    };
    let parts = text::split_chars(&value, ';');
    let ghost all = text::split(value@, ';');
    let mut items: Vec<String> = Vec::new();
    let mut found = false;
    assert(all.take(0) =~= seq![]);
    assert(text::views(items@) =~= seq![]);
    for i in 0..parts.len()
        invariant
            text::char_views(parts@) == all,
            text::views(items@) == recounted_items(all.take(i as int), count, preserve_end),
            found == some_has_key(all.take(i as int), "COUNT"@),
    {
        let ghost before = items@;
        let ghost next = all.take(i + 1);
        proof {
            assert(all[i as int] == parts@[i as int]@);
            assert(next.drop_last() =~= all.take(i as int));
            assert(next.last() == all[i as int]);
            lemma_some_has_key_push(all.take(i as int), all[i as int], "COUNT"@);
            assert(all.take(i as int).push(all[i as int]) =~= next);
        }
        if item_has_key(&parts[i], "COUNT") {
            items.push(make_count_item(count));
            found = true;
            assert(text::views(items@) =~= text::views(before).push(count_item(count)));
        } else if !preserve_end && item_has_key(&parts[i], "UNTIL") {
        } else {
            items.push(text::string_of(&parts[i]));
            assert(text::views(items@) =~= text::views(before).push(all[i as int]));
        }
    }
    assert(all.take(all.len() as int) =~= all);
    if !found {
        let ghost before = items@;
        items.push(make_count_item(count));
        assert(text::views(items@) =~= text::views(before).push(count_item(count)));
    }
    let mut out = text::string_of(&property);
    out.push(':');
    proof {
        reveal_strlit(";");
        assert(";"@ =~= seq![';']);
    }
    out.append(text::join_texts(&items, ";").as_str());
    assert(out@ =~= rule_with_count_spec(rule@, count, preserve_end));
    out
}

proof fn lemma_some_has_key_push(items: Seq<Seq<char>>, item: Seq<char>, key: Seq<char>)
    ensures
        some_has_key(items.push(item), key) <==> some_has_key(items, key) || has_key(item, key),
{
    let more = items.push(item);
    if some_has_key(items, key) {
        let i = choose|i: int| 0 <= i < items.len() && has_key(#[trigger] items[i], key);
        assert(has_key(more[i], key));
    }
    if has_key(item, key) {
        assert(has_key(more[items.len() as int], key));
    }
    if some_has_key(more, key) && !has_key(item, key) {
        let i = choose|i: int| 0 <= i < more.len() && has_key(#[trigger] more[i], key);
        assert(has_key(items[i], key));
    }
}

/// The partly read rule with its end replaced.
spec fn with_end(parts: recurrence_form::RulePartsView, end: EndView, has_end: bool) -> recurrence_form::RulePartsView {
    recurrence_form::RulePartsView { end, has_end, ..parts }
}

/// Whether the last day of a rule is left out of it when its count is set.
spec fn drops_or_lacks_until(items: Seq<Seq<char>>, preserve_end: bool) -> bool {
    !preserve_end || !some_has_key(items, "UNTIL"@)
}

/// What remains of a readable rule when its count is set is readable up to its end.
proof fn lemma_recounted_items_read(
    items: Seq<Seq<char>>,
    count: u32,
    preserve_end: bool,
    schedule: ScheduleView,
    allow_wkst: bool,
)
    requires
        count > 0,
        drops_or_lacks_until(items, preserve_end),
        recurrence_form::read_items(
            Some(recurrence_form::no_parts()),
            items,
            schedule,
            allow_wkst,
        ) is Some,
    ensures
        ({
            let start = Some(recurrence_form::no_parts());
            let parts = recurrence_form::read_items(start, items, schedule, allow_wkst)->0;
            &&& recurrence_form::read_items(
                start,
                recounted_items(items, count, preserve_end),
                schedule,
                allow_wkst,
            ) == Some(
                if some_has_key(items, "COUNT"@) {
                    with_end(parts, EndView::Count(count), true)
                } else {
                    with_end(parts, EndView::Never, false)
                },
            )
            &&& some_has_key(items, "COUNT"@) || some_has_key(items, "UNTIL"@) <==> parts.has_end
        }),
    decreases items.len(),
{
    let start = Some(recurrence_form::no_parts());
    if items.len() == 0 {
        assert(recounted_items(items, count, preserve_end) =~= items);
    } else {
        let before = items.drop_last();
        let item = items.last();
        assert(before.push(item) =~= items);
        lemma_some_has_key_push(before, item, "COUNT"@);
        lemma_some_has_key_push(before, item, "UNTIL"@);
        lemma_recounted_items_read(before, count, preserve_end, schedule, allow_wkst);
        let shorter = recounted_items(before, count, preserve_end);
        let longer = recounted_items(items, count, preserve_end);
        let old_parts = recurrence_form::read_items(start, before, schedule, allow_wkst)->0;
        let parts = recurrence_form::read_items(start, items, schedule, allow_wkst)->0;
        let pair = text::split_once(item, '=')->0;
        text::lemma_same_case(pair.0, "COUNT"@);
        text::lemma_same_case(pair.0, "UNTIL"@);
        reveal_strlit("COUNT");
        reveal_strlit("UNTIL");
        reveal_strlit("FREQ");
        reveal_strlit("INTERVAL");
        reveal_strlit("BYDAY");
        reveal_strlit("WKST");
        assert(text::upper("COUNT"@) =~= "COUNT"@);
        assert(text::upper("UNTIL"@) =~= "UNTIL"@);
        assert("COUNT"@[0] == 'C' && "UNTIL"@[0] == 'U' && "FREQ"@[0] == 'F' && "INTERVAL"@[0] == 'I'
            && "BYDAY"@[0] == 'B' && "WKST"@[0] == 'W');
        if has_key(item, "COUNT"@) {
            assert(!old_parts.has_end);
            lemma_count_item_reads(
                with_end(old_parts, EndView::Never, false),
                count,
                schedule,
                allow_wkst,
            );
            assert(longer.drop_last() =~= shorter);
            assert(longer.last() == count_item(count));
            assert(parts == with_end(old_parts, parts.end, true));
        } else if has_key(item, "UNTIL"@) {
            assert(!old_parts.has_end);
            assert(!preserve_end);
            assert(longer =~= shorter);
            assert(parts == with_end(old_parts, parts.end, true));
        } else {
            assert(longer.drop_last() =~= shorter);
            assert(longer.last() == item);
            let q = if some_has_key(before, "COUNT"@) {
                with_end(old_parts, EndView::Count(count), true)
            } else {
                with_end(old_parts, EndView::Never, false)
            };
            assert(recurrence_form::read_item(q, item, schedule, allow_wkst) == Some(
                with_end(parts, q.end, q.has_end),
            ));
            assert(parts.has_end == old_parts.has_end);
        }
    }
}

proof fn lemma_count_item_reads(
    parts: recurrence_form::RulePartsView,
    count: u32,
    schedule: ScheduleView,
    allow_wkst: bool,
)
    requires
        count > 0,
        !parts.has_end,
    ensures
        recurrence_form::read_item(parts, count_item(count), schedule, allow_wkst) == Some(
            with_end(parts, EndView::Count(count), true),
        ),
        !count_item(count).contains(';'),
{
    reveal_strlit("COUNT");
    reveal_strlit("FREQ");
    reveal_strlit("INTERVAL");
    reveal_strlit("BYDAY");
    reveal_strlit("WKST");
    let value = text::decimal(count as nat);
    let item = count_item(count);
    text::lemma_decimal(count as nat);
    text::lemma_parsed_decimal(count as nat, u32::MAX as int);
    assert forall|i: int| 0 <= i < 5 implies item[i] != '=' by {
        assert(item[i] == "COUNT"@[i]);
    }
    text::lemma_index_of_char_unique(item, '=', 5);
    assert(item.take(5) =~= "COUNT"@);
    assert(item.skip(6) =~= value);
    assert(text::upper("COUNT"@) =~= "COUNT"@);
    assert("COUNT"@[0] == 'C' && "FREQ"@[0] == 'F' && "INTERVAL"@[0] == 'I' && "BYDAY"@[0] == 'B'
        && "WKST"@[0] == 'W');
    assert forall|i: int| 0 <= i < item.len() implies item[i] != ';' by {
        if i < 5 {
            assert(item[i] == "COUNT"@[i]);
        } else if i > 5 {
            assert(text::is_digit(value[i - 6]));
        }
    }
}

proof fn lemma_recounted_without_separator(items: Seq<Seq<char>>, count: u32, preserve_end: bool)
    requires
        count > 0,
        forall|i: int| #![trigger items[i]] 0 <= i < items.len() ==> !items[i].contains(';'),
    ensures
        ({
            let recounted = recounted_items(items, count, preserve_end);
            forall|i: int| #![trigger recounted[i]] 0 <= i < recounted.len() ==> !recounted[i].contains(';')
        }),
    decreases items.len(),
{
    if items.len() > 0 {
        let before = items.drop_last();
        assert forall|i: int| #![trigger before[i]] 0 <= i < before.len() implies !before[i].contains(
            ';',
        ) by {
            assert(before[i] == items[i]);
        }
        lemma_recounted_without_separator(before, count, preserve_end);
        lemma_count_item_reads(
            recurrence_form::no_parts(),
            count,
            ScheduleView::AllDay {
                start_date: date::date_of(1),
                end_date_exclusive: date::date_of(1),
            },
            false,
        );
        assert(!items[items.len() - 1].contains(';'));
        let shorter = recounted_items(before, count, preserve_end);
        let recounted = recounted_items(items, count, preserve_end);
        assert forall|i: int| #![trigger recounted[i]] 0 <= i < recounted.len() implies !recounted[i].contains(
            ';',
        ) by {
            if i < shorter.len() {
                assert(recounted[i] == shorter[i]);
            }
        }
    }
}

/// Setting the count of a readable rule changes nothing of it but its end, which becomes that
/// count, unless the rule keeps a last day.
pub proof fn law_rule_with_count(
    rule: Seq<char>,
    count: u32,
    preserve_end: bool,
    schedule: ScheduleView,
    allow_wkst: bool,
)
    requires
        count > 0,
        recurrence_form::read_rule(rule, schedule, allow_wkst) is Some,
        preserve_end ==> !(recurrence_form::read_rule(rule, schedule, allow_wkst)->0.end is Until),
    ensures
        recurrence_form::read_rule(
            rule_with_count_spec(rule, count, preserve_end),
            schedule,
            allow_wkst,
        ) == Some(
            ReadForm {
                end: EndView::Count(count),
                ..recurrence_form::read_rule(rule, schedule, allow_wkst)->0
            },
        ),
{
    let (property, value) = text::split_once(rule, ':')->0;
    let items = text::split(value, ';');
    let start = Some(recurrence_form::no_parts());
    let parts = recurrence_form::read_items(start, items, schedule, allow_wkst)->0;
    lemma_until_kept_in_parts(items, schedule, allow_wkst);
    lemma_recounted_items_read(items, count, preserve_end, schedule, allow_wkst);
    let recounted = recounted_items(items, count, preserve_end);
    let more = items_with_count(items, count, preserve_end);
    lemma_count_item_reads(
        with_end(parts, EndView::Never, false),
        count,
        schedule,
        allow_wkst,
    );
    if !some_has_key(items, "COUNT"@) {
        assert(more.drop_last() =~= recounted);
    }
    let done = with_end(parts, EndView::Count(count), true);
    assert(recurrence_form::read_items(start, more, schedule, allow_wkst) == Some(done));
    text::lemma_split(value, ';');
    lemma_recounted_without_separator(items, count, preserve_end);
    assert(more.len() >= 1) by {
        if more.len() == 0 {
            assert(recurrence_form::read_items(start, more, schedule, allow_wkst) == start);
        }
    }
    assert forall|i: int| #![trigger more[i]] 0 <= i < more.len() implies !more[i].contains(';') by {
        if i < recounted.len() {
            assert(more[i] == recounted[i]);
        }
    }
    text::lemma_split_of_join(more, ';');
    let body = text::join(more, seq![';']);
    let line = property + seq![':'] + body;
    text::lemma_index_of_char(rule, ':');
    assert forall|i: int| 0 <= i < property.len() implies line[i] != ':' by {
        assert(line[i] == rule[i]);
    }
    text::lemma_index_of_char_unique(line, ':', property.len() as int);
    assert(line.take(property.len() as int) =~= property);
    assert(line.skip(property.len() as int + 1) =~= body);
}

/// A rule that names a last day ends on it.
proof fn lemma_until_kept_in_parts(items: Seq<Seq<char>>, schedule: ScheduleView, allow_wkst: bool)
    requires
        recurrence_form::read_items(
            Some(recurrence_form::no_parts()),
            items,
            schedule,
            allow_wkst,
        ) is Some,
    ensures
        ({
            let parts = recurrence_form::read_items(
                Some(recurrence_form::no_parts()),
                items,
                schedule,
                allow_wkst,
            )->0;
            &&& some_has_key(items, "UNTIL"@) ==> parts.end is Until && parts.has_end
            &&& parts.end is Until ==> parts.has_end
        }),
    decreases items.len(),
{
    if items.len() > 0 {
        let before = items.drop_last();
        let item = items.last();
        assert(before.push(item) =~= items);
        lemma_some_has_key_push(before, item, "UNTIL"@);
        lemma_until_kept_in_parts(before, schedule, allow_wkst);
        let pair = text::split_once(item, '=')->0;
        text::lemma_same_case(pair.0, "UNTIL"@);
        reveal_strlit("COUNT");
        reveal_strlit("UNTIL");
        reveal_strlit("FREQ");
        reveal_strlit("INTERVAL");
        reveal_strlit("BYDAY");
        reveal_strlit("WKST");
        assert(text::upper("UNTIL"@) =~= "UNTIL"@);
        assert("COUNT"@[0] == 'C' && "UNTIL"@[0] == 'U' && "FREQ"@[0] == 'F' && "INTERVAL"@[0] == 'I'
            && "BYDAY"@[0] == 'B' && "WKST"@[0] == 'W');
    }
}

// ---------------------------------------------------------------------------------------------
// Occurrences in order
// ---------------------------------------------------------------------------------------------

/// A row of instants with one more in its place; an instant that is there already stays as it is.
pub open spec fn with_instant(instants: Seq<DateTimeView>, v: DateTimeView) -> Seq<DateTimeView>
    decreases instants.len(),
{
    if instants.len() == 0 || instants.last().before(v) {
        instants.push(v)
    } else if instants.last().same_instant(v) {
        instants
    } else {
        with_instant(instants.drop_last(), v).push(instants.last())
    }
}

/// The first instant and all the others in the order of time, each once.
pub open spec fn in_order(first: DateTimeView, others: Seq<DateTimeView>) -> Seq<DateTimeView>
    decreases others.len(),
{
    if others.len() == 0 {
        seq![first]
    } else {
        with_instant(in_order(first, others.drop_last()), others.last())
    }
}

/// Whether each instant of a row comes before the next.
pub open spec fn is_in_order(instants: Seq<DateTimeView>) -> bool {
    forall|i: int, j: int| 0 <= i < j < instants.len() ==> #[trigger] instants[i].before(
        #[trigger] instants[j],
    )
}

/// Whether a row holds an instant, whatever its offset.
pub open spec fn holds_instant(instants: Seq<DateTimeView>, v: DateTimeView) -> bool {
    exists|i: int| 0 <= i < instants.len() && (#[trigger] instants[i]).same_instant(v)
}

proof fn lemma_with_instant(instants: Seq<DateTimeView>, v: DateTimeView, w: DateTimeView)
    requires
        is_in_order(instants),
    ensures
        is_in_order(with_instant(instants, v)),
        holds_instant(with_instant(instants, v), w) <==> holds_instant(instants, w)
            || v.same_instant(w),
        with_instant(instants, v).len() >= 1,
        instants.len() > 0 ==> !instants.last().before(with_instant(instants, v).last()) || v
            == with_instant(instants, v).last(),
    decreases instants.len(),
{
    let more = with_instant(instants, v);
    if instants.len() == 0 || instants.last().before(v) {
        assert(more == instants.push(v));
        assert forall|i: int, j: int| 0 <= i < j < more.len() implies #[trigger] more[i].before(
            #[trigger] more[j],
        ) by {
            if j < instants.len() {
                assert(instants[i].before(instants[j]));
            } else if i < instants.len() - 1 {
                assert(instants[i].before(instants[instants.len() - 1]));
            }
        }
        if holds_instant(instants, w) {
            let i = choose|i: int| 0 <= i < instants.len() && (#[trigger] instants[i]).same_instant(w);
            assert(more[i].same_instant(w));
        }
        assert(more[instants.len() as int] == v);
        if holds_instant(more, w) && !v.same_instant(w) {
            let i = choose|i: int| 0 <= i < more.len() && (#[trigger] more[i]).same_instant(w);
            assert(instants[i].same_instant(w));
        }
    } else if instants.last().same_instant(v) {
        assert(instants[instants.len() - 1].same_instant(v));
        if v.same_instant(w) {
            assert(instants[instants.len() - 1].same_instant(w));
        }
    } else {
        let shorter = instants.drop_last();
        let last = instants.last();
        assert(is_in_order(shorter)) by {
            assert forall|i: int, j: int| 0 <= i < j < shorter.len() implies #[trigger] shorter[i].before(
                #[trigger] shorter[j],
            ) by {
                assert(instants[i].before(instants[j]));
            }
        }
        lemma_with_instant(shorter, v, w);
        let inner = with_instant(shorter, v);
        assert(more == inner.push(last));
        assert(v.before(last));
        assert forall|i: int, j: int| 0 <= i < j < more.len() implies #[trigger] more[i].before(
            #[trigger] more[j],
        ) by {
            if j < inner.len() {
                assert(inner[i].before(inner[j]));
            } else {
                lemma_with_instant(shorter, v, inner[i]);
                assert(inner[i].same_instant(inner[i]));
                assert(holds_instant(inner, inner[i]));
                if holds_instant(shorter, inner[i]) {
                    let k = choose|k: int|
                        0 <= k < shorter.len() && (#[trigger] shorter[k]).same_instant(inner[i]);
                    assert(instants[k].before(instants[instants.len() - 1]));
                }
            }
        }
        if holds_instant(inner, w) {
            let i = choose|i: int| 0 <= i < inner.len() && (#[trigger] inner[i]).same_instant(w);
            assert(more[i].same_instant(w));
        }
        if holds_instant(instants, w) {
            let i = choose|i: int| 0 <= i < instants.len() && (#[trigger] instants[i]).same_instant(w);
            if i < shorter.len() {
                assert(shorter[i].same_instant(w));
            } else {
                assert(more[inner.len() as int].same_instant(w));
            }
        }
        if holds_instant(more, w) {
            let i = choose|i: int| 0 <= i < more.len() && (#[trigger] more[i]).same_instant(w);
            if i < inner.len() {
                assert(inner[i].same_instant(w));
                if holds_instant(shorter, w) {
                    let k = choose|k: int|
                        0 <= k < shorter.len() && (#[trigger] shorter[k]).same_instant(w);
                    assert(instants[k].same_instant(w));
                }
            } else {
                assert(instants[instants.len() - 1].same_instant(w));
            }
        }
    }
}

/// The row of occurrences is strictly in the order of time and holds the first instant and the
/// others, and nothing else.
pub proof fn law_occurrences_in_order(first: DateTimeView, others: Seq<DateTimeView>, w: DateTimeView)
    ensures
        is_in_order(in_order(first, others)),
        holds_instant(in_order(first, others), w) <==> first.same_instant(w) || holds_instant(
            others,
            w,
        ),
    decreases others.len(),
{
    if others.len() == 0 {
        let only = seq![first];
        if first.same_instant(w) {
            assert(only[0].same_instant(w));
        }
    } else {
        let before = others.drop_last();
        law_occurrences_in_order(first, before, w);
        lemma_with_instant(in_order(first, before), others.last(), w);
        if holds_instant(before, w) {
            let i = choose|i: int| 0 <= i < before.len() && (#[trigger] before[i]).same_instant(w);
            assert(others[i].same_instant(w));
        }
        if others.last().same_instant(w) {
            assert(others[others.len() - 1].same_instant(w));
        }
        if holds_instant(others, w) && !others.last().same_instant(w) {
            let i = choose|i: int| 0 <= i < others.len() && (#[trigger] others[i]).same_instant(w);
            assert(before[i].same_instant(w));
        }
    }
}

/// A row of instants with one more in its place.
fn add_instant(instants: &mut Vec<DateTime>, v: DateTime)
    ensures
        rules::instant_views(final(instants)@) == with_instant(
            rules::instant_views(old(instants)@),
            v@,
        ),
{
    let ghost all = rules::instant_views(instants@);
    let mut k: usize = instants.len();
    assert(all.take(all.len() as int) =~= all);
    assert(with_instant(all, v@) =~= with_instant(all.take(k as int), v@) + all.skip(k as int));
    while k > 0 && !instants[k - 1].before(&v) && !instants[k - 1].same_instant(&v)
        invariant
            k <= instants@.len(),
            all == rules::instant_views(instants@),
            with_instant(all, v@) == with_instant(all.take(k as int), v@) + all.skip(k as int),
        decreases k,
    {
        proof {
            let head = all.take(k as int);
            assert(head.last() == all[k - 1]);
            assert(head.drop_last() =~= all.take(k - 1));
            assert(with_instant(head, v@) == with_instant(all.take(k - 1), v@).push(all[k - 1]));
            assert(with_instant(head, v@) + all.skip(k as int) =~= with_instant(all.take(k - 1), v@)
                + all.skip(k - 1));
        }
        k -= 1;
    }
    let ghost head = all.take(k as int);
    if k > 0 && instants[k - 1].same_instant(&v) {
        proof {
            assert(head.last() == all[k - 1]);
            assert(with_instant(head, v@) == head);
            assert(head + all.skip(k as int) =~= all);
        }
    } else {
        proof {
            if k > 0 {
                assert(head.last() == all[k - 1]);
            }
            assert(with_instant(head, v@) == head.push(v@));
        }
        instants.insert(k, v);
        assert(rules::instant_views(instants@) =~= head.push(v@) + all.skip(k as int));
    }
}

/// The first instant and all the others in the order of time, each once.
pub fn put_in_order(first: DateTime, others: &Vec<DateTime>) -> (r: Vec<DateTime>)
    ensures
        rules::instant_views(r@) == in_order(first@, rules::instant_views(others@)),
{
    let mut out: Vec<DateTime> = Vec::new();
    out.push(first);
    let ghost all = rules::instant_views(others@);
    assert(all.take(0) =~= seq![]);
    assert(rules::instant_views(out@) =~= seq![first@]);
    for i in 0..others.len()
        invariant
            all == rules::instant_views(others@),
            rules::instant_views(out@) == in_order(first@, all.take(i as int)),
    {
        proof {
            assert(all.take(i + 1).drop_last() =~= all.take(i as int));
            assert(all.take(i + 1).last() == others@[i as int]@);
        }
        add_instant(&mut out, others[i]);
    }
    assert(all.take(all.len() as int) =~= all);
    out
}

// ---------------------------------------------------------------------------------------------
// Identities of occurrences
// ---------------------------------------------------------------------------------------------

/// Whether an identity can belong to an event with this schedule.
pub open spec fn identity_matches(schedule: ScheduleView, identity: RecurrenceIdView) -> bool {
    match (schedule, identity) {
        (ScheduleView::AllDay { .. }, RecurrenceIdView::AllDay(_)) => true,
        (
            ScheduleView::Timed { timezone, .. },
            RecurrenceIdView::Timed { timezone: other, .. },
        ) => timezone == other,
        _ => false,
    }
}

/// The start of an event: midnight in UTC for an all-day event.
pub open spec fn start_instant(schedule: ScheduleView) -> DateTimeView {
    match schedule {
        ScheduleView::AllDay { start_date, .. } => midnight(start_date@),
        ScheduleView::Timed { start, .. } => start@.at_offset(0),
    }
}

/// Midnight in UTC.
pub open spec fn midnight(day: int) -> DateTimeView {
    DateTimeView { seconds: date::day_start(day), nanos: 0, offset: 0 }
}

/// The instant that an identity names.
pub open spec fn identity_instant(identity: RecurrenceIdView) -> DateTimeView {
    match identity {
        RecurrenceIdView::AllDay(day) => midnight(day@),
        RecurrenceIdView::Timed { date_time, .. } => date_time@.at_offset(0),
    }
}

/// Whether an occurrence is the one that an identity names: by its date for an all-day event, by
/// the clocks of its zone for an event with one, and by its instant otherwise.
pub open spec fn occurrence_is(
    occurrence: DateTimeView,
    identity: RecurrenceIdView,
    schedule: ScheduleView,
) -> bool {
    match (schedule, identity) {
        (ScheduleView::AllDay { .. }, RecurrenceIdView::AllDay(day)) => occurrence.local_day() == day@,
        (
            ScheduleView::Timed { timezone: Some(name), .. },
            RecurrenceIdView::Timed { date_time, .. },
        ) => zone::zone_known(name) && same_clock(
            zone::shown_in(occurrence, name),
            zone::shown_in(date_time@, name),
        ),
        (
            ScheduleView::Timed { timezone: None, .. },
            RecurrenceIdView::Timed { date_time, .. },
        ) => occurrence.same_instant(date_time@),
        _ => false,
    }
}

/// Whether clocks show the same date and time.
pub open spec fn same_clock(a: DateTimeView, b: DateTimeView) -> bool {
    a.local_day() == b.local_day() && a.local_second() == b.local_second() && a.nanos == b.nanos
}

/// Whether an identity can belong to an event with this schedule.
pub fn identity_matches_schedule(schedule: &EventSchedule, identity: &RecurrenceId) -> (r: bool)
    ensures
        r == identity_matches(schedule@, identity@),
{
    match (schedule, identity) {
        (EventSchedule::AllDay { .. }, RecurrenceId::AllDay(_)) => true,
        (
            EventSchedule::Timed { timezone, .. },
            RecurrenceId::Timed { timezone: other, .. },
        ) => model::same_optional_text(timezone, other),
        _ => false,
    }
}

/// Whether an occurrence is the one that an identity names.
fn occurrence_matches(occurrence: &DateTime, identity: &RecurrenceId, schedule: &EventSchedule) -> (r:
    bool)
    ensures
        r == occurrence_is(occurrence@, identity@, schedule@),
{
    match (schedule, identity) {
        (EventSchedule::AllDay { .. }, RecurrenceId::AllDay(day)) => occurrence.local_date().same(day),
        (EventSchedule::Timed { timezone, .. }, RecurrenceId::Timed { date_time, .. }) => match timezone {
            Some(name) => match (
                zone::in_zone(occurrence, name.as_str()),
                zone::in_zone(date_time, name.as_str()),
            ) {
                (Some(left), Some(right)) => left.local_date().same(&right.local_date())
                    && left.local_time() == right.local_time(),
                _ => false,
            },
            None => occurrence.same_instant(date_time),
        },
        _ => false,
    }
}

/// The position of the first occurrence that an identity names.
pub open spec fn position(
    occurrences: Seq<DateTimeView>,
    identity: RecurrenceIdView,
    schedule: ScheduleView,
) -> Option<int>
    decreases occurrences.len(),
{
    if occurrences.len() == 0 {
        None
    } else {
        match position(occurrences.drop_last(), identity, schedule) {
            Some(i) => Some(i),
            None => if occurrence_is(occurrences.last(), identity, schedule) {
                Some(occurrences.len() - 1)
            } else {
                None
            },
        }
    }
}

/// The position lies inside, is one that the identity names, and is the first such.
pub proof fn lemma_position(
    occurrences: Seq<DateTimeView>,
    identity: RecurrenceIdView,
    schedule: ScheduleView,
)
    ensures
        match position(occurrences, identity, schedule) {
            Some(i) => 0 <= i < occurrences.len() && occurrence_is(
                occurrences[i],
                identity,
                schedule,
            ) && forall|k: int|
                0 <= k < i ==> !occurrence_is(#[trigger] occurrences[k], identity, schedule),
            None => forall|k: int|
                0 <= k < occurrences.len() ==> !occurrence_is(
                    #[trigger] occurrences[k],
                    identity,
                    schedule,
                ),
        },
    decreases occurrences.len(),
{
    if occurrences.len() > 0 {
        let before = occurrences.drop_last();
        lemma_position(before, identity, schedule);
        assert(forall|k: int| 0 <= k < before.len() ==> before[k] == #[trigger] occurrences[k]);
    }
}

proof fn lemma_position_unique(
    occurrences: Seq<DateTimeView>,
    identity: RecurrenceIdView,
    schedule: ScheduleView,
    i: int,
)
    requires
        0 <= i < occurrences.len(),
        occurrence_is(occurrences[i], identity, schedule),
        forall|k: int| 0 <= k < i ==> !occurrence_is(#[trigger] occurrences[k], identity, schedule),
    ensures
        position(occurrences, identity, schedule) == Some(i),
{
    lemma_position(occurrences, identity, schedule);
}

/// The position of the first occurrence that an identity names.
pub fn find_position(occurrences: &Vec<DateTime>, identity: &RecurrenceId, schedule: &EventSchedule) -> (r:
    Option<usize>)
    ensures
        match r {
            Some(i) => i < occurrences@.len() && position(
                rules::instant_views(occurrences@),
                identity@,
                schedule@,
            ) == Some(i as int),
            None => position(rules::instant_views(occurrences@), identity@, schedule@) is None,
        },
{
    let ghost all = rules::instant_views(occurrences@);
    for i in 0..occurrences.len()
        invariant
            all == rules::instant_views(occurrences@),
            forall|k: int|
                0 <= k < i ==> !occurrence_is(#[trigger] all[k], identity@, schedule@),
    {
        if occurrence_matches(&occurrences[i], identity, schedule) {
            proof {
                assert(all[i as int] == occurrences@[i as int]@);
                lemma_position_unique(all, identity@, schedule@, i as int);
            }
            return Some(i);
        }
        assert(all[i as int] == occurrences@[i as int]@);
    }
    proof {
        lemma_position(all, identity@, schedule@);
    }
    None
}

// ---------------------------------------------------------------------------------------------
// The text that the occurrences are generated from
// ---------------------------------------------------------------------------------------------

/// A part of an all-day rule as it is generated from: a last day becomes midnight in UTC.
pub open spec fn utc_item(item: Seq<char>) -> Seq<char> {
    match text::split_once(item, '=') {
        Some((key, until)) => if text::lower(key) == text::lower("UNTIL"@) && text::byte_length(until)
            == 8 {
            item + "T000000Z"@
        } else {
            item
        },
        None => item,
    }
}

/// The parts of an all-day rule as they are generated from.
pub open spec fn utc_items(items: Seq<Seq<char>>) -> Seq<Seq<char>> {
    Seq::new(items.len(), |i: int| utc_item(items[i]))
}

/// An all-day rule as it is generated from.
pub open spec fn utc_rule(rule: Seq<char>) -> Seq<char> {
    match text::split_once(rule, ':') {
        Some((property, value)) => property + seq![':'] + text::join(
            utc_items(text::split(value, ';')),
            seq![';'],
        ),
        None => rule,
    }
}

/// The text that the occurrences of a simple recurrence are generated from: its start, zoned, and
/// its rule.
pub open spec fn split_source(schedule: ScheduleView, rule: Seq<char>) -> Option<Seq<char>> {
    match schedule {
        ScheduleView::AllDay { start_date, .. } => Some(
            "DTSTART:"@ + formats::compact_date(start_date@) + "T000000Z"@ + seq!['\n'] + utc_rule(rule),
        ),
        ScheduleView::Timed { start, timezone: None, .. } => Some(
            "DTSTART:"@ + formats::compact_utc(start@) + seq!['\n'] + rule,
        ),
        ScheduleView::Timed { start, timezone: Some(name), .. } => if zone::zone_known(name) {
            Some(
                "DTSTART;TZID="@ + name + seq![':'] + formats::compact_local(
                    zone::shown_in(start@, name),
                ) + seq!['\n'] + rule,
            )
        } else {
            None
        },
    }
}

/// A part of an all-day rule as it is generated from.
fn make_utc_item(item: &Vec<char>) -> (r: String)
    ensures
        r@ == utc_item(item@),
{
    let mut out = text::string_of(item);
    if let Some((key, until)) = text::split_chars_once(item, '=') {
        if text::same_ignoring_case(&key, "UNTIL") && text::has_byte_length(&until, 8) {
            out.append("T000000Z");
        }
    }
    out
}

/// An all-day rule as it is generated from.
pub fn split_all_day_rule_for_source(rule: &str) -> (r: String)
    ensures
        r@ == utc_rule(rule@),
{
    let (property, value): (Vec<char>, Vec<char>) = match text::split_chars_once(
        &text::chars_of(rule),
        ':',
    ) {
        Some(pair) => pair,
        None => {
            return rule.to_owned();
        },
    };
    let parts = text::split_chars(&value, ';');
    let ghost all = text::split(value@, ';');
    let mut items: Vec<String> = Vec::new();
    for i in 0..parts.len()
        invariant
            text::char_views(parts@) == all,
            text::views(items@) == utc_items(all.take(i as int)),
    {
        let ghost before = items@;
        items.push(make_utc_item(&parts[i]));
        proof {
            assert(all[i as int] == parts@[i as int]@);
            assert(text::views(items@) =~= text::views(before).push(utc_item(all[i as int])));
            assert(utc_items(all.take(i + 1)) =~= utc_items(all.take(i as int)).push(
                utc_item(all[i as int]),
            ));
        }
    }
    assert(all.take(all.len() as int) =~= all);
    let mut out = text::string_of(&property);
    out.push(':');
    proof {
        reveal_strlit(";");
        assert(";"@ =~= seq![';']);
    }
    out.append(text::join_texts(&items, ";").as_str());
    assert(out@ =~= utc_rule(rule@));
    out
}

/// The text that the occurrences of a simple recurrence are generated from.
fn split_recurrence_source(schedule: &EventSchedule, rule: &str) -> (r: Option<String>)
    ensures
        match r {
            Some(source) => split_source(schedule@, rule@) == Some(source@),
            None => split_source(schedule@, rule@) is None,
        },
{
    match schedule {
        EventSchedule::AllDay { start_date, .. } => {
            let mut out = text::joined("DTSTART:", formats::compact_date_text(start_date).as_str());
            out.append("T000000Z");
            out.push('\n');
            out.append(split_all_day_rule_for_source(rule).as_str());
            assert(out@ =~= split_source(schedule@, rule@)->0);
            Some(out)
        },
        EventSchedule::Timed { start, timezone, .. } => match timezone {
            None => {
                let mut out = text::joined("DTSTART:", formats::compact_utc_text(start).as_str());
                out.push('\n');
                out.append(rule);
                assert(out@ =~= split_source(schedule@, rule@)->0);
                Some(out)
            },
            Some(name) => match zone::in_zone(start, name.as_str()) {
                None => None,
                Some(shown) => {
                    let mut out = text::joined("DTSTART;TZID=", name.as_str());
                    out.push(':');
                    out.append(formats::compact_local_text(&shown).as_str());
                    out.push('\n');
                    out.append(rule);
                    assert(out@ =~= split_source(schedule@, rule@)->0);
                    Some(out)
                },
            },
        },
    }
}

// ---------------------------------------------------------------------------------------------
// The split
// ---------------------------------------------------------------------------------------------

/// The schedule of an event moved to one of its occurrences, its length kept.
pub open spec fn schedule_at(schedule: ScheduleView, occurrence: DateTimeView) -> Option<ScheduleView> {
    match schedule {
        ScheduleView::AllDay { start_date, end_date_exclusive } => {
            let day = occurrence.local_day();
            let end = day + (end_date_exclusive@ - start_date@);
            if date::is_day(end) {
                Some(
                    ScheduleView::AllDay {
                        start_date: date::date_of(day),
                        end_date_exclusive: date::date_of(end),
                    },
                )
            } else {
                None
            }
        },
        ScheduleView::Timed { start, end, timezone } => {
            let at = date::date_time_of(occurrence);
            match date::later(at, date::span_between(start, end)) {
                Some(until) => Some(ScheduleView::Timed { start: at, end: until, timezone }),
                None => None,
            }
        },
    }
}

/// The schedule of an event moved to one of its occurrences, its length kept.
pub fn schedule_at_occurrence(schedule: &EventSchedule, occurrence: &DateTime) -> (r: Option<
    EventSchedule,
>)
    ensures
        match r {
            Some(moved) => schedule_at(schedule@, occurrence@) == Some(moved@),
            None => schedule_at(schedule@, occurrence@) is None,
        },
{
    match schedule {
        EventSchedule::AllDay { start_date, end_date_exclusive } => {
            let start = occurrence.local_date();
            let length: i64 = end_date_exclusive.days() as i64 - start_date.days() as i64;
            match start.plus_days(length) {
                Some(end) => {
                    proof {
                        date::lemma_date_of_day(start);
                        date::lemma_date_of_day(end);
                    }
                    Some(EventSchedule::AllDay { start_date: start, end_date_exclusive: end })
                },
                None => None,
            }
        },
        EventSchedule::Timed { start, end, timezone } => {
            let length = end.since(start);
            proof {
                date::lemma_date_time_of_view(*occurrence);
            }
            match occurrence.plus(length) {
                Some(until) => Some(
                    EventSchedule::Timed {
                        start: *occurrence,
                        end: until,
                        timezone: model::copy_text(timezone),
                    },
                ),
                None => None,
            }
        },
    }
}

/// The form of a rule that can be split. A first day of the week is admitted where the text that
/// the occurrences are generated from is accepted.
pub open spec fn splittable_form(schedule: ScheduleView, rule: Seq<char>, valid: bool) -> Option<ReadForm> {
    match text::split_once(rule, ':') {
        None => None,
        Some((_, value)) => {
            let has_wkst = some_has_key(text::split(value, ';'), "WKST"@);
            if has_wkst && (split_source(schedule, rule) is None || !valid) {
                None
            } else {
                recurrence_form::read_rule(rule, schedule, has_wkst)
            }
        },
    }
}

/// A second.
pub open spec fn one_second() -> date::Span {
    date::Span { seconds: 1, nanos: 0 }
}

/// A second back.
pub open spec fn minus_one_second() -> date::Span {
    date::Span { seconds: -1i64, nanos: 0 }
}

/// The instants between which occurrences are generated: a second before the first and a second
/// after the chosen one.
pub open spec fn split_bounds(schedule: ScheduleView, identity: RecurrenceIdView) -> Option<
    (DateTime, DateTime),
> {
    let first = start_instant(schedule);
    let target = identity_instant(identity);
    if first.valid() && target.valid() {
        match (
            date::later(date::date_time_of(first), minus_one_second()),
            date::later(date::date_time_of(target), one_second()),
        ) {
            (Some(lower), Some(upper)) => Some((lower, upper)),
            _ => None,
        }
    } else {
        None
    }
}

/// How many occurrences a rule with this end has, where it says so.
pub open spec fn total_count(end: EndView) -> Option<u32> {
    match end {
        EndView::Count(count) => Some(count),
        _ => None,
    }
}

/// The recurrence of the part before the occurrence at position `past`, and of the rest.
pub open spec fn split_rules(rule: Seq<char>, end: EndView, past: int) -> Option<(Seq<char>, Seq<char>)> {
    let original = rule_with_count_spec(rule, past as u32, false);
    match total_count(end) {
        None => Some((original, rule)),
        Some(total) => if total <= past {
            None
        } else {
            Some((original, rule_with_count_spec(rule, (total - past) as u32, true)))
        },
    }
}

/// What comes of splitting an event at an occurrence, where `valid` says whether the text that its
/// occurrences are generated from is accepted and `dates` are those occurrences up to the chosen
/// one.
pub open spec fn split_outcome(
    master: EventView,
    identity: RecurrenceIdView,
    valid: bool,
    dates: Seq<DateTimeView>,
) -> Result<SplitView, RecurrenceSplitError> {
    let schedule = master.schedule;
    match master.recurrence {
        None => Err(RecurrenceSplitError::MissingRecurrence),
        Some(recurrence) => if recurrence.rdate.len() > 0 || recurrence.exdate.len() > 0
            || recurrence.rrule.len() != 1 {
            Err(RecurrenceSplitError::UnsupportedRecurrence)
        } else if !identity_matches(schedule, identity) {
            Err(RecurrenceSplitError::MismatchedIdentity)
        } else {
            let rule = recurrence.rrule[0];
            match splittable_form(schedule, rule, valid) {
                None => Err(RecurrenceSplitError::UnsupportedRecurrence),
                Some(form) => if split_source(schedule, rule) is None || !valid {
                    Err(RecurrenceSplitError::InvalidRecurrence)
                } else if !start_instant(schedule).before(identity_instant(identity)) {
                    Err(RecurrenceSplitError::FirstOccurrence)
                } else if split_bounds(schedule, identity) is None {
                    Err(RecurrenceSplitError::InvalidRecurrence)
                } else {
                    split_at_position(
                        schedule,
                        rule,
                        form.end,
                        identity,
                        in_order(start_instant(schedule), dates),
                    )
                },
            }
        },
    }
}

/// What comes of splitting a rule at an occurrence, with the occurrences in the order of time.
pub open spec fn split_at_position(
    schedule: ScheduleView,
    rule: Seq<char>,
    end: EndView,
    identity: RecurrenceIdView,
    occurrences: Seq<DateTimeView>,
) -> Result<SplitView, RecurrenceSplitError> {
    match position(occurrences, identity, schedule) {
        None => Err(RecurrenceSplitError::NotGenerated),
        Some(past) => if past == 0 {
            Err(RecurrenceSplitError::FirstOccurrence)
        } else {
            match split_rules(rule, end, past) {
                None => Err(RecurrenceSplitError::NotGenerated),
                Some((original, future)) => match schedule_at(schedule, occurrences[past]) {
                    None => Err(RecurrenceSplitError::InvalidRecurrence),
                    Some(future_schedule) => Ok(
                        SplitView {
                            original_recurrence: model::rule_recurrence(original),
                            future_schedule,
                            future_recurrence: model::rule_recurrence(future),
                        },
                    ),
                },
            }
        },
    }
}

/// The counts of the two parts of a counted recurrence add up to its count, and neither is zero.
pub proof fn law_split_counts_add_up(
    rule: Seq<char>,
    total: u32,
    past: int,
    schedule: ScheduleView,
    allow_wkst: bool,
)
    requires
        0 < past < u32::MAX,
        recurrence_form::read_rule(rule, schedule, allow_wkst) matches Some(form) && form.end
            == EndView::Count(total),
        split_rules(rule, EndView::Count(total), past) is Some,
    ensures
        ({
            let (original, future) = split_rules(rule, EndView::Count(total), past)->0;
            &&& recurrence_form::read_rule(original, schedule, allow_wkst) matches Some(first)
            &&& recurrence_form::read_rule(future, schedule, allow_wkst) matches Some(second)
            &&& first.end matches EndView::Count(a)
            &&& second.end matches EndView::Count(b)
            &&& a > 0
            &&& b > 0
            &&& a + b == total
        }),
{
    law_rule_with_count(rule, past as u32, false, schedule, allow_wkst);
    law_rule_with_count(rule, (total - past) as u32, true, schedule, allow_wkst);
}

/// Midnight in UTC, where it is representable.
pub fn midnight_of(day: &Date) -> (r: Option<DateTime>)
    ensures
        match r {
            Some(instant) => instant@ == midnight(day@) && midnight(day@).valid(),
            None => !midnight(day@).valid(),
        },
        date::is_day(day@),
{
    DateTime::new((day.days() as i64 - date::EPOCH_DAY) * date::DAY_SECONDS, 0, 0)
}

/// The start of an event, where it is representable.
pub fn schedule_start(schedule: &EventSchedule) -> (r: Option<DateTime>)
    ensures
        match r {
            Some(instant) => instant@ == start_instant(schedule@) && instant@.valid(),
            None => !start_instant(schedule@).valid(),
        },
{
    match schedule {
        EventSchedule::AllDay { start_date, .. } => midnight_of(start_date),
        EventSchedule::Timed { start, .. } => Some(start.with_offset(0)),
    }
}

/// The instant that an identity names, where it is representable.
fn identity_target(identity: &RecurrenceId) -> (r: Option<DateTime>)
    ensures
        match r {
            Some(instant) => instant@ == identity_instant(identity@) && instant@.valid(),
            None => !identity_instant(identity@).valid(),
        },
{
    match identity {
        RecurrenceId::AllDay(day) => midnight_of(day),
        RecurrenceId::Timed { date_time, .. } => Some(date_time.with_offset(0)),
    }
}

/// Whether the event starts before the occurrence that an identity of its kind names.
pub fn starts_before(schedule: &EventSchedule, identity: &RecurrenceId) -> (r: bool)
    requires
        (schedule is AllDay) == (identity is AllDay),
    ensures
        r == start_instant(schedule@).before(identity_instant(identity@)),
{
    match (schedule, identity) {
        (EventSchedule::AllDay { start_date, .. }, RecurrenceId::AllDay(day)) => start_date.before(day),
        (EventSchedule::Timed { start, .. }, RecurrenceId::Timed { date_time, .. }) => start.before(
            date_time,
        ),
        _ => false,
    }
}

/// The instants between which occurrences are generated.
pub fn bounds_of_split(schedule: &EventSchedule, identity: &RecurrenceId) -> (r: Option<
    (DateTime, DateTime),
>)
    ensures
        r == split_bounds(schedule@, identity@),
{
    match (schedule_start(schedule), identity_target(identity)) {
        (Some(first), Some(target)) => {
            proof {
                date::lemma_date_time_of_view(first);
                date::lemma_date_time_of_view(target);
            }
            match (
                first.plus(date::Span { seconds: -1, nanos: 0 }),
                target.plus(date::Span { seconds: 1, nanos: 0 }),
            ) {
                (Some(lower), Some(upper)) => Some((lower, upper)),
                _ => None,
            }
        },
        _ => None,
    }
}

/// The form of a rule that can be split.
pub fn parse_simple_rule_for_split(rule: &str, schedule: &EventSchedule, valid: bool) -> (r: Option<
    RecurrenceForm,
>)
    ensures
        match r {
            Some(form) => splittable_form(schedule@, rule@, valid) == Some(
                recurrence_form::read_view(form@),
            ),
            None => splittable_form(schedule@, rule@, valid) is None,
        },
{
    let value: Vec<char> = match text::split_chars_once(&text::chars_of(rule), ':') {
        Some((_, value)) => value,
        None => {
            return None;
        },
    };
    let items = text::split_chars(&value, ';');
    let ghost all = text::split(value@, ';');
    let mut has_wkst = false;
    for i in 0..items.len()
        invariant
            text::char_views(items@) == all,
            has_wkst == some_has_key(all.take(i as int), "WKST"@),
    {
        proof {
            assert(all[i as int] == items@[i as int]@);
            lemma_some_has_key_push(all.take(i as int), all[i as int], "WKST"@);
            assert(all.take(i as int).push(all[i as int]) =~= all.take(i + 1));
        }
        if item_has_key(&items[i], "WKST") {
            has_wkst = true;
        }
    }
    assert(all.take(all.len() as int) =~= all);
    if has_wkst && (!valid || split_recurrence_source(schedule, rule).is_none()) {
        return None;
    }
    recurrence_form::parse_simple_rule_with_wkst(rule, schedule, has_wkst)
}

/// Split an event at an occurrence, given whether the text that its occurrences are generated from
/// is accepted, and those occurrences up to the chosen one.
pub fn split_at_dates(
    master: &Event,
    recurrence_id: &RecurrenceId,
    valid: bool,
    dates: &Vec<DateTime>,
) -> (r: Result<RecurrenceSplit, RecurrenceSplitError>)
    requires
        dates@.len() <= u16::MAX,
    ensures
        match r {
            Ok(split) => split_outcome(
                master@,
                recurrence_id@,
                valid,
                rules::instant_views(dates@),
            ) == Ok::<SplitView, RecurrenceSplitError>(split@),
            Err(error) => split_outcome(
                master@,
                recurrence_id@,
                valid,
                rules::instant_views(dates@),
            ) == Err::<SplitView, RecurrenceSplitError>(error),
        },
{
    let recurrence = match &master.recurrence {
        Some(recurrence) => recurrence,
        None => {
            return Err(RecurrenceSplitError::MissingRecurrence);
        },
    };
    if recurrence.rdate.len() > 0 || recurrence.exdate.len() > 0 || recurrence.rrule.len() != 1 {
        return Err(RecurrenceSplitError::UnsupportedRecurrence);
    }
    if !identity_matches_schedule(&master.schedule, recurrence_id) {
        return Err(RecurrenceSplitError::MismatchedIdentity);
    }
    let rule = recurrence.rrule[0].as_str();
    let form = match parse_simple_rule_for_split(rule, &master.schedule, valid) {
        Some(form) => form,
        None => {
            return Err(RecurrenceSplitError::UnsupportedRecurrence);
        },
    };
    if !valid || split_recurrence_source(&master.schedule, rule).is_none() {
        return Err(RecurrenceSplitError::InvalidRecurrence);
    }
    if !starts_before(&master.schedule, recurrence_id) {
        return Err(RecurrenceSplitError::FirstOccurrence);
    }
    if bounds_of_split(&master.schedule, recurrence_id).is_none() {
        return Err(RecurrenceSplitError::InvalidRecurrence);
    }
    let first = match schedule_start(&master.schedule) {
        Some(first) => first,
        None => {
            return Err(RecurrenceSplitError::InvalidRecurrence);
        },
    };
    let occurrences = put_in_order(first, dates);
    let ghost ordered = rules::instant_views(occurrences@);
    proof {
        lemma_in_order_length(first@, rules::instant_views(dates@));
    }
    let past: usize = match find_position(&occurrences, recurrence_id, &master.schedule) {
        Some(past) => past,
        None => {
            return Err(RecurrenceSplitError::NotGenerated);
        },
    };
    if past == 0 {
        return Err(RecurrenceSplitError::FirstOccurrence);
    }
    assert(past <= u16::MAX + 1);
    let original = split_rule_with_count(rule, past as u32, false);
    let future = match form.end {
        EndCondition::Count(total) => {
            if total as usize <= past {
                return Err(RecurrenceSplitError::NotGenerated);
            }
            split_rule_with_count(rule, total - past as u32, true)
        },
        _ => rule.to_owned(),
    };
    assert(ordered[past as int] == occurrences@[past as int]@);
    match schedule_at_occurrence(&master.schedule, &occurrences[past]) {
        None => Err(RecurrenceSplitError::InvalidRecurrence),
        Some(future_schedule) => Ok(
            RecurrenceSplit {
                original_recurrence: RecurrenceSpec::of_rule(original),
                future_schedule,
                future_recurrence: RecurrenceSpec::of_rule(future),
            },
        ),
    }
}

proof fn lemma_in_order_length(first: DateTimeView, others: Seq<DateTimeView>)
    ensures
        1 <= in_order(first, others).len() <= others.len() + 1,
    decreases others.len(),
{
    if others.len() > 0 {
        lemma_in_order_length(first, others.drop_last());
        lemma_with_instant_length(in_order(first, others.drop_last()), others.last());
    }
}

proof fn lemma_with_instant_length(instants: Seq<DateTimeView>, v: DateTimeView)
    ensures
        1 <= with_instant(instants, v).len() <= instants.len() + 1,
        instants.len() <= with_instant(instants, v).len(),
    decreases instants.len(),
{
    if instants.len() > 0 && !instants.last().before(v) && !instants.last().same_instant(v) {
        lemma_with_instant_length(instants.drop_last(), v);
    }
}

/// The text that the occurrences of an event with one rule are generated from.
pub open spec fn event_split_source(master: EventView) -> Option<Seq<char>> {
    match master.recurrence {
        Some(recurrence) => if recurrence.rrule.len() == 1 {
            split_source(master.schedule, recurrence.rrule[0])
        } else {
            None
        },
        None => None,
    }
}

/// What comes of splitting an event at an occurrence. The clocks of the machine are read twice: for
/// whether the text is accepted and for the occurrences.
pub open spec fn split_by(
    master: EventView,
    identity: RecurrenceIdView,
    valid_clocks: Seq<char>,
    clocks: Seq<char>,
) -> Result<SplitView, RecurrenceSplitError> {
    match event_split_source(master) {
        None => split_outcome(master, identity, false, seq![]),
        Some(source) => {
            let dates = match split_bounds(master.schedule, identity) {
                Some((lower, upper)) => match rules::occurrences_by(
                    source,
                    lower@,
                    upper@,
                    u16::MAX,
                    clocks,
                ) {
                    Some(dates) => dates,
                    None => seq![],
                },
                None => seq![],
            };
            split_outcome(master, identity, rules::rule_set_valid(source, valid_clocks), dates)
        },
    }
}

/// What comes of splitting an event whose rule means the same by all clocks at an occurrence.
pub open spec fn split_result(master: EventView, identity: RecurrenceIdView) -> Result<
    SplitView,
    RecurrenceSplitError,
> {
    split_by(master, identity, rules::any_clocks(), rules::any_clocks())
}

/// Whether the text that an event is split by says of each of its times which zone it is in.
pub open spec fn is_zoned_split(master: EventView) -> bool {
    event_split_source(master) matches Some(source) ==> rules::is_zoned(source)
}

/// Whether something is what comes of splitting an event at an occurrence.
pub open spec fn is_split(
    outcome: Result<SplitView, RecurrenceSplitError>,
    master: EventView,
    identity: RecurrenceIdView,
) -> bool {
    &&& is_zoned_split(master) ==> outcome == split_result(master, identity)
    &&& exists|valid_clocks: Seq<char>, clocks: Seq<char>|
        outcome == #[trigger] split_by(master, identity, valid_clocks, clocks)
}

/// The values of the outcome of a split.
pub open spec fn split_view(split: Result<RecurrenceSplit, RecurrenceSplitError>) -> Result<
    SplitView,
    RecurrenceSplitError,
> {
    match split {
        Ok(split) => Ok(split@),
        Err(error) => Err(error),
    }
}

/// Split a simple recurrence at one of the occurrences that it generates. The part that follows
/// starts at that occurrence, at the hour that the clocks of its zone show.
pub fn split_recurrence_at(master: &Event, recurrence_id: &RecurrenceId) -> (r: Result<
    RecurrenceSplit,
    RecurrenceSplitError,
>)
    ensures
        is_split(split_view(r), master@, recurrence_id@),
{
    let mut valid = false;
    let mut dates: Vec<DateTime> = Vec::new();
    let ghost mut valid_clocks = rules::any_clocks();
    let ghost mut clocks = rules::any_clocks();
    if let Some(recurrence) = &master.recurrence {
        if recurrence.rrule.len() == 1 {
            if let Some(source) = split_recurrence_source(
                &master.schedule,
                recurrence.rrule[0].as_str(),
            ) {
                assert(event_split_source(master@) == Some(source@));
                valid = rules::is_valid_rule_set(source.as_str());
                proof {
                    if !rules::is_zoned(source@) {
                        valid_clocks = choose|clocks: Seq<char>|
                            valid == #[trigger] rules::rule_set_valid(source@, clocks);
                    }
                }
                if let Some((lower, upper)) = bounds_of_split(&master.schedule, recurrence_id) {
                    let found = rules::occurrences(source.as_str(), &lower, &upper, u16::MAX);
                    proof {
                        if !rules::is_zoned(source@) {
                            clocks = choose|clocks: Seq<char>|
                                rules::optional_views(found) == #[trigger] rules::occurrences_by(
                                    source@,
                                    lower@,
                                    upper@,
                                    u16::MAX,
                                    clocks,
                                );
                        }
                    }
                    if let Some(found) = found {
                        dates = found;
                    }
                }
            }
        }
    }
    let ghost views = rules::instant_views(dates@);
    assert(views.len() == 0 ==> views =~= seq![]);
    assert(split_by(master@, recurrence_id@, valid_clocks, clocks) == split_outcome(
        master@,
        recurrence_id@,
        valid,
        views,
    ));
    split_at_dates(master, recurrence_id, valid, &dates)
}

/// Lines of text with a line break between them.
proof fn lemma_two_lines(a: Seq<char>, b: Seq<char>)
    requires
        !a.contains('\n'),
        !b.contains('\n'),
    ensures
        text::split(a + seq!['\n'] + b, '\n') == seq![a, b],
{
    let lines = seq![a, b];
    assert(lines.drop_first() =~= seq![b]);
    assert(text::join(seq![b], seq!['\n']) == b);
    assert(text::join(lines, seq!['\n']) == a + seq!['\n'] + b);
    text::lemma_split_of_join(lines, '\n');
}

proof fn lemma_concat_without(a: Seq<char>, b: Seq<char>, c: char)
    requires
        !a.contains(c),
        !b.contains(c),
    ensures
        !(a + b).contains(c),
{
    let s = a + b;
    assert forall|i: int| 0 <= i < s.len() implies s[i] != c by {
        if i < a.len() {
            assert(a.contains(a[i]));
        } else {
            assert(b.contains(b[i - a.len()]));
        }
    }
}

proof fn lemma_utc_rule_line(rule: Seq<char>)
    requires
        text::starts_with(rule, "RRULE:"@),
        !rule.contains('\n'),
    ensures
        text::starts_with(utc_rule(rule), "RRULE:"@),
        !utc_rule(rule).contains('\n'),
{
    reveal_strlit("RRULE:");
    reveal_strlit("T000000Z");
    assert(rule.take(6) == "RRULE:"@);
    assert forall|i: int| 0 <= i < 6 implies rule[i] == "RRULE:"@[i] by {
        assert(rule.take(6)[i] == rule[i]);
    }
    text::lemma_index_of_char_unique(rule, ':', 5);
    let property = rule.take(5);
    let value = rule.skip(6);
    let parts = text::split(value, ';');
    let items = utc_items(parts);
    let body = text::join(items, seq![';']);
    assert(!"T000000Z"@.contains('\n'));
    assert forall|i: int| #![trigger items[i]] 0 <= i < items.len() implies !items[i].contains('\n') by {
        lemma_pieces_come_from(value, ';', '\n');
        assert(!parts[i].contains('\n'));
        lemma_concat_without(parts[i], "T000000Z"@, '\n');
    }
    recurrence_form::lemma_join_without(items, seq![';'], '\n');
    assert(utc_rule(rule) == property + seq![':'] + body);
    assert(property + seq![':'] =~= "RRULE:"@);
    assert(utc_rule(rule).take(6) =~= "RRULE:"@);
    lemma_concat_without(property + seq![':'], body, '\n');
}

/// The pieces of a text hold no character that the text does not hold.
proof fn lemma_pieces_come_from(s: Seq<char>, sep: char, c: char)
    requires
        !s.contains(c),
    ensures
        forall|i: int|
            #![trigger text::split(s, sep)[i]]
            0 <= i < text::split(s, sep).len() ==> !text::split(s, sep)[i].contains(c),
    decreases s.len(),
{
    let at = text::index_of_char(s, sep);
    text::lemma_index_of_char(s, sep);
    if at < s.len() {
        let rest = s.skip(at + 1);
        assert forall|i: int| 0 <= i < rest.len() implies rest[i] != c by {
            assert(s[at + 1 + i] == rest[i]);
        }
        lemma_pieces_come_from(rest, sep, c);
        assert forall|i: int|
            #![trigger text::split(s, sep)[i]]
            0 <= i < text::split(s, sep).len() implies !text::split(s, sep)[i].contains(c) by {
            if i > 0 {
                assert(text::split(s, sep)[i] == text::split(rest, sep)[i - 1]);
            } else {
                let piece = s.take(at);
                assert forall|k: int| 0 <= k < piece.len() implies piece[k] != c by {
                    assert(piece[k] == s[k]);
                }
            }
        }
    }
}

/// A value that holds no comma and ends in `Z` is in UTC.
proof fn lemma_single_utc_value(value: Seq<char>)
    requires
        value.len() > 0,
        value.last() == 'Z',
        !value.contains(','),
    ensures
        rules::is_utc_value(value),
{
    assert forall|i: int| 0 <= i < value.len() implies value[i] != ',' by {
        assert(value.contains(value[i]));
    }
    text::lemma_index_of_char_unique(value, ',', value.len() as int);
    assert(text::split(value, ',') == seq![value]);
}

/// The text that the occurrences of a one-line rule are generated from says of each of its times
/// which zone it is in, so that the split does not depend on the machine.
pub proof fn law_split_source_is_zoned(schedule: ScheduleView, rule: Seq<char>)
    requires
        text::starts_with(rule, "RRULE:"@),
        !rule.contains('\n'),
        split_source(schedule, rule) is Some,
        match schedule {
            ScheduleView::AllDay { start_date, .. } => date::is_day(start_date@),
            ScheduleView::Timed { start, timezone: None, .. } => start@.valid(),
            ScheduleView::Timed { start, timezone: Some(name), .. } => zone::shown_in(
                start@,
                name,
            ).valid() && !name.contains('\n'),
        },
    ensures
        rules::is_zoned(split_source(schedule, rule)->0),
{
    reveal_strlit("DTSTART:");
    reveal_strlit("DTSTART;TZID=");
    reveal_strlit("T000000Z");
    let source = split_source(schedule, rule)->0;
    match schedule {
        ScheduleView::AllDay { start_date, .. } => {
            let digits = formats::compact_date(start_date@);
            formats::lemma_compact_date_plain(start_date@);
            let value = digits + "T000000Z"@;
            let line = "DTSTART:"@ + value;
            assert(!"T000000Z"@.contains('\n') && !"T000000Z"@.contains(','));
            assert(!"DTSTART:"@.contains('\n'));
            lemma_concat_without(digits, "T000000Z"@, '\n');
            lemma_concat_without(digits, "T000000Z"@, ',');
            lemma_concat_without("DTSTART:"@, value, '\n');
            lemma_single_utc_value(value);
            lemma_utc_rule_line(rule);
            assert(source =~= line + seq!['\n'] + utc_rule(rule));
            lemma_two_lines(line, utc_rule(rule));
            assert(line.take(8) =~= "DTSTART:"@);
            assert(line.skip(8) =~= value);
        },
        ScheduleView::Timed { start, timezone: None, .. } => {
            let value = formats::compact_utc(start@);
            formats::lemma_compact_local_plain(start@.at_offset(0));
            let line = "DTSTART:"@ + value;
            let local = formats::compact_local(start@.at_offset(0));
            assert(value =~= local + seq!['Z']);
            lemma_concat_without(local, seq!['Z'], '\n');
            lemma_concat_without(local, seq!['Z'], ',');
            assert(!"DTSTART:"@.contains('\n'));
            lemma_concat_without("DTSTART:"@, value, '\n');
            lemma_single_utc_value(value);
            assert(source =~= line + seq!['\n'] + rule);
            lemma_two_lines(line, rule);
            assert(line.take(8) =~= "DTSTART:"@);
            assert(line.skip(8) =~= value);
        },
        ScheduleView::Timed { start, timezone: Some(name), .. } => {
            let local = formats::compact_local(zone::shown_in(start@, name));
            formats::lemma_compact_local_plain(zone::shown_in(start@, name));
            let line = "DTSTART;TZID="@ + name + seq![':'] + local;
            assert(!"DTSTART;TZID="@.contains('\n'));
            lemma_concat_without("DTSTART;TZID="@, name, '\n');
            lemma_concat_without("DTSTART;TZID="@ + name, seq![':'], '\n');
            lemma_concat_without("DTSTART;TZID="@ + name + seq![':'], local, '\n');
            assert(source =~= line + seq!['\n'] + rule);
            lemma_two_lines(line, rule);
            assert(line.take(13) =~= "DTSTART;TZID="@);
        },
    }
}

// ---------------------------------------------------------------------------------------------
// Laws of a split
// ---------------------------------------------------------------------------------------------

/// A split keeps the series. The part before repeats as the series did and ends after as many
/// occurrences as come before the chosen one. The part from there on begins at the chosen occurrence,
/// is as long, and repeats as the series did: one that never ends, or that ends on a day, keeps that
/// end, and one that ends after a count keeps what is left of it. Neither has other dates.
pub proof fn law_split_keeps_the_series(
    master: EventView,
    identity: RecurrenceIdView,
    valid: bool,
    dates: Seq<DateTimeView>,
)
    requires
        split_outcome(master, identity, valid, dates) is Ok,
        dates.len() < u32::MAX,
    ensures
        ({
            let split = split_outcome(master, identity, valid, dates)->Ok_0;
            let rule = (master.recurrence->0).rrule[0];
            let first = start_instant(master.schedule);
            &&& master.recurrence is Some
            &&& split.original_recurrence.rrule.len() == 1
            &&& split.original_recurrence.rdate.len() == 0
            &&& split.original_recurrence.exdate.len() == 0
            &&& split.future_recurrence.rrule.len() == 1
            &&& split.future_recurrence.rdate.len() == 0
            &&& split.future_recurrence.exdate.len() == 0
            &&& exists|wkst: bool, occurrences: Seq<DateTimeView>, n: int|
                {
                    let form = #[trigger] recurrence_form::read_rule(rule, master.schedule, wkst);
                    let before = recurrence_form::read_rule(
                        split.original_recurrence.rrule[0],
                        master.schedule,
                        wkst,
                    );
                    let after = recurrence_form::read_rule(
                        split.future_recurrence.rrule[0],
                        master.schedule,
                        wkst,
                    );
                    &&& form is Some
                    &&& #[trigger] is_in_order(occurrences)
                    &&& forall|w: DateTimeView| #[trigger]
                        holds_instant(occurrences, w) <==> first.same_instant(w) || holds_instant(
                            dates,
                            w,
                        )
                    &&& 0 < n < occurrences.len() && n <= u32::MAX
                    &&& #[trigger] occurrence_is(occurrences[n], identity, master.schedule)
                    &&& Some(split.future_schedule) == schedule_at(master.schedule, occurrences[n])
                    &&& before == Some(ReadForm { end: EndView::Count(n as u32), ..form->0 })
                    &&& match (form->0).end {
                        EndView::Never => after == form,
                        EndView::Until(_) => after == form,
                        EndView::Count(total) => n < total && after == Some(
                            ReadForm { end: EndView::Count((total - n) as u32), ..form->0 },
                        ),
                    }
                }
        }),
{
    let schedule = master.schedule;
    let rule = (master.recurrence->0).rrule[0];
    let split = split_outcome(master, identity, valid, dates)->Ok_0;
    let first = start_instant(schedule);
    let value = (text::split_once(rule, ':')->0).1;
    let wkst = some_has_key(text::split(value, ';'), "WKST"@);
    let form = recurrence_form::read_rule(rule, schedule, wkst)->0;
    let occurrences = in_order(first, dates);
    let n = position(occurrences, identity, schedule)->0;
    lemma_position(occurrences, identity, schedule);
    lemma_in_order_length(first, dates);
    assert forall|w: DateTimeView| #[trigger] holds_instant(occurrences, w) <==> first.same_instant(w)
        || holds_instant(dates, w) by {
        law_occurrences_in_order(first, dates, w);
    }
    law_occurrences_in_order(first, dates, first);
    law_rule_with_count(rule, n as u32, false, schedule, wkst);
    if let EndView::Count(total) = form.end {
        law_rule_with_count(rule, (total - n) as u32, true, schedule, wkst);
    }
    assert(recurrence_form::read_rule(rule, schedule, wkst) == Some(form));
    assert(is_in_order(occurrences));
    assert(occurrence_is(occurrences[n], identity, schedule));
}

/// A series that is split on a day until which it runs, or that never ends, keeps its rule letter for
/// letter in the part from there on.
pub proof fn law_future_rule_without_a_count_is_the_rule(
    rule: Seq<char>,
    end: EndView,
    past: int,
)
    requires
        end is Never || end is Until,
    ensures
        split_rules(rule, end, past) matches Some((original, future)) && future == rule,
{
}

/// Why a split is refused: an event without a recurrence; one that is not a single rule, or has other
/// dates; an identity of another kind or zone; and the first occurrence.
pub proof fn law_refused_splits(
    master: EventView,
    identity: RecurrenceIdView,
    valid: bool,
    dates: Seq<DateTimeView>,
)
    ensures
        master.recurrence is None ==> split_outcome(master, identity, valid, dates) == Err::<
            SplitView,
            RecurrenceSplitError,
        >(RecurrenceSplitError::MissingRecurrence),
        master.recurrence matches Some(recurrence) ==> {
            &&& recurrence.rdate.len() > 0 || recurrence.exdate.len() > 0 || recurrence.rrule.len() != 1
                ==> split_outcome(master, identity, valid, dates) == Err::<
                SplitView,
                RecurrenceSplitError,
            >(RecurrenceSplitError::UnsupportedRecurrence)
            &&& recurrence.rdate.len() == 0 && recurrence.exdate.len() == 0 && recurrence.rrule.len()
                == 1 ==> {
                &&& (master.schedule is AllDay && identity is Timed) || (master.schedule is Timed
                    && identity is AllDay) || (master.schedule is Timed && identity is Timed
                    && master.schedule->timezone != identity->timezone) ==> split_outcome(
                    master,
                    identity,
                    valid,
                    dates,
                ) == Err::<SplitView, RecurrenceSplitError>(RecurrenceSplitError::MismatchedIdentity)
                &&& !valid ==> split_outcome(master, identity, valid, dates) is Err
            }
        },
        match (master.schedule, identity) {
            (ScheduleView::AllDay { start_date, .. }, RecurrenceIdView::AllDay(day)) => day@
                <= start_date@ ==> split_outcome(master, identity, valid, dates) is Err,
            (
                ScheduleView::Timed { start, .. },
                RecurrenceIdView::Timed { date_time, .. },
            ) => !start@.before(date_time@) ==> split_outcome(master, identity, valid, dates) is Err,
            _ => true,
        },
{
}

/// A split succeeds wherever the rule can be read, its text is valid, and the chosen occurrence is
/// one of those that were found from the start on, and the length of the event fits after it. This
/// is of rules that do not end after a count and name no week start.
pub proof fn law_generated_occurrence_can_be_split_at(
    master: EventView,
    identity: RecurrenceIdView,
    dates: Seq<DateTimeView>,
    k: int,
)
    requires
        master.recurrence matches Some(recurrence) && recurrence.rdate.len() == 0
            && recurrence.exdate.len() == 0 && recurrence.rrule.len() == 1 && (
        recurrence_form::read_rule(recurrence.rrule[0], master.schedule, false) matches Some(form)
            && !(form.end is Count)) && !some_has_key(
            text::split((text::split_once(recurrence.rrule[0], ':')->0).1, ';'),
            "WKST"@,
        ) && split_source(master.schedule, recurrence.rrule[0]) is Some,
        identity_matches(master.schedule, identity),
        split_bounds(master.schedule, identity) is Some,
        start_instant(master.schedule).before(identity_instant(identity)),
        0 <= k < dates.len(),
        occurrence_is(dates[k], identity, master.schedule),
        forall|v: DateTimeView, w: DateTimeView|
            v.same_instant(w) ==> (#[trigger] occurrence_is(v, identity, master.schedule)
                == #[trigger] occurrence_is(w, identity, master.schedule)),
        !occurrence_is(start_instant(master.schedule), identity, master.schedule),
        forall|i: int|
            0 <= i < dates.len() ==> !(#[trigger] dates[i]).before(start_instant(master.schedule)),
        forall|v: DateTimeView| #[trigger]
            occurrence_is(v, identity, master.schedule) ==> schedule_at(master.schedule, v) is Some,
    ensures
        split_outcome(master, identity, true, dates) is Ok,
{
    let schedule = master.schedule;
    let first = start_instant(schedule);
    let occurrences = in_order(first, dates);
    law_occurrences_in_order(first, dates, dates[k]);
    assert(holds_instant(dates, dates[k]));
    let at = choose|i: int|
        0 <= i < occurrences.len() && (#[trigger] occurrences[i]).same_instant(dates[k]);
    assert(occurrence_is(occurrences[at], identity, schedule));
    lemma_position(occurrences, identity, schedule);
    let n = position(occurrences, identity, schedule)->0;
    if n == 0 {
        law_occurrences_in_order(first, dates, occurrences[0]);
        assert(holds_instant(occurrences, occurrences[0])) by {
            assert(occurrences[0].same_instant(occurrences[0]));
        }
        law_occurrences_in_order(first, dates, first);
        let i = choose|i: int|
            0 <= i < occurrences.len() && (#[trigger] occurrences[i]).same_instant(first);
        if i > 0 {
            assert(occurrences[0].before(occurrences[i]));
            let d = choose|d: int|
                0 <= d < dates.len() && (#[trigger] dates[d]).same_instant(occurrences[0]);
            assert(!dates[d].before(first));
        }
        assert(occurrence_is(occurrences[0], identity, schedule) == occurrence_is(
            first,
            identity,
            schedule,
        ));
    }
}

/// The text that occurrences are generated from for a split is the start of the event and its rule.
pub proof fn law_text_of_a_split(schedule: ScheduleView, rule: Seq<char>)
    ensures
        match schedule {
            ScheduleView::AllDay { start_date, .. } => split_source(schedule, rule) == Some(
                "DTSTART:"@ + formats::compact_date(start_date@) + "T000000Z"@ + "\n"@ + utc_rule(rule),
            ),
            ScheduleView::Timed { start, timezone: None, .. } => split_source(schedule, rule) == Some(
                "DTSTART:"@ + formats::compact_utc(start@) + "\n"@ + rule,
            ),
            ScheduleView::Timed { start, timezone: Some(name), .. } => if zone::zone_known(name) {
                split_source(schedule, rule) == Some(
                    "DTSTART;TZID="@ + name + ":"@ + formats::compact_local(
                        zone::shown_in(start@, name),
                    ) + "\n"@ + rule,
                )
            } else {
                split_source(schedule, rule) is None
            },
        },
{
    reveal_strlit("\n");
    reveal_strlit(":");
    assert("\n"@ =~= seq!['\n']);
    assert(":"@ =~= seq![':']);
}

/// The interval in which occurrences are asked for holds the start of the event, the chosen
/// occurrence, and every instant between them, strictly inside.
pub proof fn law_bounds_of_a_split_hold_what_is_between(
    schedule: ScheduleView,
    identity: RecurrenceIdView,
    v: DateTimeView,
)
    requires
        split_bounds(schedule, identity) is Some,
        schedule matches ScheduleView::Timed { start, .. } ==> start@.nanos < 1000000000,
        identity matches RecurrenceIdView::Timed { date_time, .. } ==> date_time@.nanos < 1000000000,
        ({
            let first = match schedule {
                ScheduleView::AllDay { start_date, .. } => DateTimeView {
                    seconds: (start_date@ - 719163) * 86400,
                    nanos: 0,
                    offset: 0,
                },
                ScheduleView::Timed { start, .. } => start@,
            };
            let target = match identity {
                RecurrenceIdView::AllDay(day) => DateTimeView {
                    seconds: (day@ - 719163) * 86400,
                    nanos: 0,
                    offset: 0,
                },
                RecurrenceIdView::Timed { date_time, .. } => date_time@,
            };
            !v.before(first) && !target.before(v)
        }),
    ensures
        (split_bounds(schedule, identity)->0).0@.before(v),
        v.before((split_bounds(schedule, identity)->0).1@),
{
    let first = start_instant(schedule);
    let target = identity_instant(identity);
    date::lemma_date_time_of(first);
    date::lemma_date_time_of(target);
    date::lemma_later(date::date_time_of(first), minus_one_second());
    date::lemma_later(date::date_time_of(target), one_second());
}

/// Which occurrence an identity means: on whole days the one on its day, without a zone the one at
/// its instant, and in a zone the one at which the clocks show the same day and time.
pub proof fn law_identity_means_one_occurrence(
    occurrence: DateTimeView,
    identity: RecurrenceIdView,
    schedule: ScheduleView,
)
    ensures
        match (schedule, identity) {
            (ScheduleView::AllDay { .. }, RecurrenceIdView::AllDay(day)) => occurrence_is(
                occurrence,
                identity,
                schedule,
            ) <==> occurrence.local_day() == day@,
            (
                ScheduleView::Timed { timezone: None, .. },
                RecurrenceIdView::Timed { date_time, .. },
            ) => occurrence_is(occurrence, identity, schedule) <==> occurrence.seconds
                == date_time@.seconds && occurrence.nanos == date_time@.nanos,
            (
                ScheduleView::Timed { timezone: Some(name), .. },
                RecurrenceIdView::Timed { date_time, .. },
            ) => occurrence_is(occurrence, identity, schedule) <==> zone::zone_known(name) && ({
                let a = zone::shown_in(occurrence, name);
                let b = zone::shown_in(date_time@, name);
                a.seconds + a.offset == b.seconds + b.offset && a.nanos == b.nanos
            }),
            _ => !occurrence_is(occurrence, identity, schedule),
        },
{
}

/// A rule for an event on whole days has the day until which it runs written as midnight in UTC, and
/// is otherwise left as it is.
pub proof fn law_until_of_whole_days_is_midnight(key: Seq<char>, value: Seq<char>)
    requires
        !key.contains('='),
    ensures
        text::lower(key) == "until"@ && text::byte_length(value) == 8 ==> utc_item(
            key + "="@ + value,
        ) == key + "="@ + value + "T000000Z"@,
        text::lower(key) != "until"@ || text::byte_length(value) != 8 ==> utc_item(key + "="@ + value)
            == key + "="@ + value,
{
    reveal_strlit("=");
    reveal_strlit("UNTIL");
    reveal_strlit("until");
    assert("="@ =~= seq!['=']);
    assert(text::lower("UNTIL"@) =~= "until"@);
    let item = key + "="@ + value;
    assert forall|i: int| 0 <= i < key.len() implies item[i] != '=' by {
        assert(item[i] == key[i]);
        assert(key.contains(key[i]));
    }
    text::lemma_index_of_char_unique(item, '=', key.len() as int);
    assert(item.take(key.len() as int) =~= key);
    assert(item.skip(key.len() as int + 1) =~= value);
}

/// A series is split by the dates that its one rule gives between the bounds of the split.
pub proof fn law_dates_that_split(
    master: EventView,
    identity: RecurrenceIdView,
    recurrence: crate::model::RecurrenceView,
    valid_clocks: Seq<char>,
    clocks: Seq<char>,
    source: Seq<char>,
    bounds: (DateTime, DateTime),
    dates: Seq<DateTimeView>,
)
    requires
        master.recurrence == Some(recurrence),
        recurrence.rrule.len() == 1,
        split_source(master.schedule, recurrence.rrule[0]) == Some(source),
        split_bounds(master.schedule, identity) == Some(bounds),
        rules::occurrences_by(source, bounds.0@, bounds.1@, 65535, clocks) == Some(dates),
    ensures
        split_by(master, identity, valid_clocks, clocks) == split_outcome(
            master,
            identity,
            rules::rule_set_valid(source, valid_clocks),
            dates,
        ),
{
}

/// There is nothing to split by without a recurrence or with more than one rule.
pub proof fn law_nothing_to_split_by(master: EventView)
    ensures
        master.recurrence is None ==> event_split_source(master) is None,
        master.recurrence matches Some(recurrence) ==> recurrence.rrule.len() != 1 ==> event_split_source(
            master,
        ) is None,
{
}

/// What is said of a split that is refused.
pub proof fn law_messages_of_refused_splits()
    ensures
        RecurrenceSplitError::MissingRecurrence.message_spec() == "event has no recurrence"@,
        RecurrenceSplitError::UnsupportedRecurrence.message_spec()
            == "recurrence is not a supported simple rule"@,
        RecurrenceSplitError::InvalidRecurrence.message_spec() == "recurrence is invalid"@,
        RecurrenceSplitError::MismatchedIdentity.message_spec()
            == "recurrence identity does not match the event"@,
        RecurrenceSplitError::FirstOccurrence.message_spec()
            == "the first recurrence occurrence cannot be split"@,
        RecurrenceSplitError::NotGenerated.message_spec()
            == "recurrence identity is not a generated occurrence"@,
{
}

/// The bounds of a split are there where the instants around it are representable.
pub proof fn law_bounds_of_a_split_are_there(schedule: ScheduleView, identity: RecurrenceIdView)
    requires
        start_instant(schedule).valid(),
        identity_instant(identity).valid(),
        start_instant(schedule).nanos < 1000000000,
        identity_instant(identity).nanos < 1000000000,
        (DateTimeView {
            seconds: start_instant(schedule).seconds - 1,
            ..start_instant(schedule)
        }).valid(),
        (DateTimeView {
            seconds: identity_instant(identity).seconds + 1,
            ..identity_instant(identity)
        }).valid(),
    ensures
        split_bounds(schedule, identity) is Some,
{
    let first = start_instant(schedule);
    let target = identity_instant(identity);
    date::lemma_date_time_of(first);
    date::lemma_date_time_of(target);
    date::lemma_later(date::date_time_of(first), minus_one_second());
    date::lemma_later(date::date_time_of(target), one_second());
}

} // verus!
