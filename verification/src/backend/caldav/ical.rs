//! What iCalendar texts hold, as plain values.
use chrono::{Datelike, Timelike};
use icalendar::{CalendarDateTime, Component, DatePerhapsTime};
use vstd::prelude::*;

use crate::date;
use crate::lists;
use crate::model;
use crate::text;

verus! {

/// A property of a component: its key, its value without escapes, and its parameters.
#[derive(Debug)]
pub struct IcalProperty {
    pub key: String,
    pub value: String,
    pub params: Vec<(String, String)>,
}

/// The values of an [`IcalProperty`].
pub struct PropertyView {
    pub key: Seq<char>,
    pub value: Seq<char>,
    pub params: Seq<(Seq<char>, Seq<char>)>,
}

/// The values of a list of parameters.
pub open spec fn param_views(params: Seq<(String, String)>) -> Seq<(Seq<char>, Seq<char>)> {
    Seq::new(params.len(), |i: int| (params[i].0@, params[i].1@))
}

impl View for IcalProperty {
    type V = PropertyView;

    open spec fn view(&self) -> PropertyView {
        PropertyView {
            key: self.key@,
            value: self.value@,
            params: param_views(self.params@),
        }
    }
}

/// A date, or a date and time, as it stands in a property.
#[derive(Debug)]
pub enum IcalDate {
    /// The day with a number.
    Date(i32),
    /// A date and time in no zone.
    Floating,
    /// Seconds and nanoseconds since the epoch.
    Utc(i64, u32),
    /// A day, seconds since midnight and nanoseconds, in a zone.
    Zoned(i32, u32, u32, String),
}

/// The values of an [`IcalDate`].
pub enum DateView {
    Date(i32),
    Floating,
    Utc(i64, u32),
    Zoned(i32, u32, u32, Seq<char>),
}

impl View for IcalDate {
    type V = DateView;

    open spec fn view(&self) -> DateView {
        match *self {
            IcalDate::Date(day) => DateView::Date(day),
            IcalDate::Floating => DateView::Floating,
            IcalDate::Utc(seconds, nanos) => DateView::Utc(seconds, nanos),
            IcalDate::Zoned(day, second, nanos, zone) => DateView::Zoned(day, second, nanos, zone@),
        }
    }
}

impl DateView {
    /// Whether the values are those of a date or a time of day.
    pub open spec fn valid(self) -> bool {
        match self {
            DateView::Date(day) => date::is_day(day as int),
            DateView::Floating => true,
            DateView::Utc(_, nanos) => nanos < 2000000000,
            DateView::Zoned(day, second, nanos, _) => date::is_day(day as int) && second < 86400 && nanos
                < 2000000000,
        }
    }
}

// ---------------------------------------------------------------------------------------------
// What the parser finds
// ---------------------------------------------------------------------------------------------

/// A text with its folded lines made whole, as `icalendar::parser::unfold` does it.
pub uninterp spec fn unfolded(resource: Seq<char>) -> Seq<char>;

/// The names of the outermost components that `icalendar::parser::read_calendar_simple` finds in a
/// text, or the message of its error.
pub uninterp spec fn root_names(content: Seq<char>) -> Result<Seq<Seq<char>>, Seq<char>>;

/// For each component of the calendar that `icalendar::parser::read_calendar` finds in a text,
/// whether it is an event; or the message of its error.
pub uninterp spec fn component_kinds(content: Seq<char>) -> Result<Seq<bool>, Seq<char>>;

/// The single properties of the event that is component `i` of a calendar; none where that is no
/// event.
pub uninterp spec fn event_properties(content: Seq<char>, i: usize) -> Seq<PropertyView>;

/// The keys under which the event that is component `i` of a calendar has a list of properties.
pub uninterp spec fn event_lists(content: Seq<char>, i: usize) -> Seq<Seq<char>>;

/// The date in a single property of the event that is component `i` of a calendar.
pub uninterp spec fn event_date(content: Seq<char>, i: usize, key: Seq<char>) -> Option<DateView>;

/// The kinds of the components in the event that is component `i` of a calendar.
pub uninterp spec fn part_kinds(content: Seq<char>, i: usize) -> Seq<Seq<char>>;

/// The single properties of component `k` in the event that is component `i` of a calendar.
pub uninterp spec fn part_properties(content: Seq<char>, i: usize, k: usize) -> Seq<PropertyView>;

/// The keys under which component `k` in the event that is component `i` of a calendar has a list of
/// properties.
pub uninterp spec fn part_lists(content: Seq<char>, i: usize, k: usize) -> Seq<Seq<char>>;

/// Whether component `k` in the event that is component `i` of a calendar holds components.
pub uninterp spec fn part_has_parts(content: Seq<char>, i: usize, k: usize) -> bool;

/// `icalendar::parser::unfold`: named by [`unfolded`].
#[verifier::external_body]
fn icalendar_unfold(resource: &str) -> (r: String)
    ensures
        r@ == unfolded(resource@),
{
    icalendar::parser::unfold(resource)
}

/// The values of a list of texts, or of a message.
pub open spec fn texts_result(r: Result<Vec<String>, String>) -> Result<Seq<Seq<char>>, Seq<char>> {
    match r {
        Ok(texts) => Ok(text::views(texts@)),
        Err(message) => Err(message@),
    }
}

/// `icalendar::parser::read_calendar_simple`: named by [`root_names`]. It calls itself for each
/// component in a component, so it takes stack in proportion to how deep they are nested.
#[verifier::external_body]
fn icalendar_roots(content: &str) -> (r: Result<Vec<String>, String>)
    ensures
        texts_result(r) == root_names(content@),
{
    match icalendar::parser::read_calendar_simple(content) {
        Ok(roots) => Ok(roots.iter().map(|root| root.name.to_string()).collect()),
        Err(error) => Err(error.to_string()),
    }
}

/// The values of a list of marks, or of a message.
pub open spec fn kinds_result(r: Result<Vec<bool>, String>) -> Result<Seq<bool>, Seq<char>> {
    match r {
        Ok(kinds) => Ok(kinds@),
        Err(message) => Err(message@),
    }
}

/// The components of the `icalendar::Calendar` that `icalendar::parser::read_calendar` reads: named
/// by [`component_kinds`]. It reads by the grammar of `read_calendar_simple`. Where that fails, the
/// message is laid out by the column of the error, and a column that is too wide panics: so here and
/// below, only texts that were read before are read again.
#[verifier::external_body]
fn icalendar_kinds(content: &str) -> (r: Result<Vec<bool>, String>)
    requires
        root_names(content@) is Ok,
    ensures
        kinds_result(r) == component_kinds(content@),
{
    let calendar = icalendar::Calendar::from(icalendar::parser::read_calendar(content)?);
    Ok(calendar.components.iter().map(|component| component.as_event().is_some()).collect())
}

/// `icalendar::Component::properties` of an event: named by [`event_properties`].
#[verifier::external_body]
fn icalendar_event_properties(content: &str, i: usize) -> (r: Vec<IcalProperty>)
    requires
        root_names(content@) is Ok,
    ensures
        lists::views_of(r@) == event_properties(content@, i),
{
    let calendar = icalendar::parser::read_calendar(content).map(icalendar::Calendar::from);
    let components = calendar.map(|calendar| calendar.components).unwrap_or_default();
    let event = components.get(i).and_then(|component| component.as_event());
    let properties = event.map(|event| event.properties().clone()).unwrap_or_default();
    let plain = properties.values().map(|property| IcalProperty {
        key: property.key().to_owned(),
        value: property.value().to_owned(),
        params: property.params().values().map(|p| (p.key().into(), p.value().into())).collect(),
    });
    plain.collect()
}

/// The keys of `icalendar::Component::multi_properties` of an event: named by [`event_lists`].
#[verifier::external_body]
fn icalendar_event_lists(content: &str, i: usize) -> (r: Vec<String>)
    requires
        root_names(content@) is Ok,
    ensures
        text::views(r@) == event_lists(content@, i),
{
    let calendar = icalendar::parser::read_calendar(content).map(icalendar::Calendar::from);
    let components = calendar.map(|calendar| calendar.components).unwrap_or_default();
    let event = components.get(i).and_then(|component| component.as_event());
    event.map(|event| event.multi_properties().keys().cloned().collect()).unwrap_or_default()
}

/// `icalendar::DatePerhapsTime::from_property` of a single property of an event, which is what
/// `get_start` and `get_end` return of theirs: named by [`event_date`]. A date is representable, and
/// a time is one of day.
#[verifier::external_body]
fn icalendar_event_date(content: &str, i: usize, key: &str) -> (r: Option<IcalDate>)
    requires
        root_names(content@) is Ok,
    ensures
        lists::view_of(r) == event_date(content@, i, key@),
        r matches Some(found) ==> found@.valid(),
{
    let calendar = icalendar::Calendar::from(icalendar::parser::read_calendar(content).ok()?);
    let event = calendar.components.get(i)?.as_event()?;
    Some(match DatePerhapsTime::from_property(event.properties().get(key)?)? {
        DatePerhapsTime::Date(day) => IcalDate::Date(day.num_days_from_ce()),
        DatePerhapsTime::DateTime(CalendarDateTime::Floating(_)) => IcalDate::Floating,
        DatePerhapsTime::DateTime(CalendarDateTime::Utc(at)) => {
            IcalDate::Utc(at.timestamp(), at.timestamp_subsec_nanos())
        },
        DatePerhapsTime::DateTime(CalendarDateTime::WithTimezone { date_time: at, tzid }) => {
            let second = at.num_seconds_from_midnight();
            IcalDate::Zoned(at.num_days_from_ce(), second, at.nanosecond(), tzid)
        },
    })
}

/// `icalendar::Component::component_kind` of the `components` of an event: named by [`part_kinds`].
#[verifier::external_body]
fn icalendar_part_kinds(content: &str, i: usize) -> (r: Vec<String>)
    requires
        root_names(content@) is Ok,
    ensures
        text::views(r@) == part_kinds(content@, i),
{
    let calendar = icalendar::parser::read_calendar(content).map(icalendar::Calendar::from);
    let components = calendar.map(|calendar| calendar.components).unwrap_or_default();
    let event = components.get(i).and_then(|component| component.as_event());
    let parts = event.map(|event| event.components().to_vec()).unwrap_or_default();
    parts.iter().map(|part| part.component_kind()).collect()
}

/// `icalendar::Component::properties` of a component in an event: named by [`part_properties`].
#[verifier::external_body]
fn icalendar_part_properties(content: &str, i: usize, k: usize) -> (r: Vec<IcalProperty>)
    requires
        root_names(content@) is Ok,
    ensures
        lists::views_of(r@) == part_properties(content@, i, k),
{
    let calendar = icalendar::parser::read_calendar(content).map(icalendar::Calendar::from);
    let components = calendar.map(|c| c.components).unwrap_or_default();
    let part = components.get(i).and_then(|c| c.as_event()?.components().get(k));
    let properties = part.map(|part| part.properties().clone()).unwrap_or_default();
    let plain = properties.values().map(|property| IcalProperty {
        key: property.key().into(),
        value: property.value().into(),
        params: property.params().values().map(|p| (p.key().into(), p.value().into())).collect(),
    });
    plain.collect()
}

/// The keys of `icalendar::Component::multi_properties` of a component in an event: named by
/// [`part_lists`].
#[verifier::external_body]
fn icalendar_part_lists(content: &str, i: usize, k: usize) -> (r: Vec<String>)
    requires
        root_names(content@) is Ok,
    ensures
        text::views(r@) == part_lists(content@, i, k),
{
    let calendar = icalendar::parser::read_calendar(content).map(icalendar::Calendar::from);
    let components = calendar.map(|calendar| calendar.components).unwrap_or_default();
    let event = components.get(i).and_then(|component| component.as_event());
    let part = event.and_then(|event| event.components().get(k));
    part.map(|part| part.multi_properties().keys().cloned().collect()).unwrap_or_default()
}

/// Whether `icalendar::Component::components` of a component in an event holds any: named by
/// [`part_has_parts`].
#[verifier::external_body]
fn icalendar_part_has_parts(content: &str, i: usize, k: usize) -> (r: bool)
    requires
        root_names(content@) is Ok,
    ensures
        r == part_has_parts(content@, i, k),
{
    let calendar = icalendar::parser::read_calendar(content).map(icalendar::Calendar::from);
    let components = calendar.map(|calendar| calendar.components).unwrap_or_default();
    let event = components.get(i).and_then(|component| component.as_event());
    let part = event.and_then(|event| event.components().get(k));
    part.is_some_and(|part| !part.components().is_empty())
}

// ---------------------------------------------------------------------------------------------
// Facts about a resource
// ---------------------------------------------------------------------------------------------

/// A component in an event.
#[derive(Debug)]
pub struct IcalPart {
    pub kind: String,
    pub properties: Vec<IcalProperty>,
    /// The keys of properties that may occur more than once.
    pub lists: Vec<String>,
    pub has_parts: bool,
}

/// The values of an [`IcalPart`].
pub struct PartView {
    pub kind: Seq<char>,
    pub properties: Seq<PropertyView>,
    pub lists: Seq<Seq<char>>,
    pub has_parts: bool,
}

impl View for IcalPart {
    type V = PartView;

    open spec fn view(&self) -> PartView {
        PartView {
            kind: self.kind@,
            properties: lists::views_of(self.properties@),
            lists: text::views(self.lists@),
            has_parts: self.has_parts,
        }
    }
}

/// An event.
#[derive(Debug)]
pub struct IcalEvent {
    pub properties: Vec<IcalProperty>,
    /// The keys of properties that may occur more than once.
    pub lists: Vec<String>,
    pub parts: Vec<IcalPart>,
    pub start: Option<IcalDate>,
    pub end: Option<IcalDate>,
}

/// The values of an [`IcalEvent`].
#[verifier::ext_equal]
pub struct IcalEventView {
    pub properties: Seq<PropertyView>,
    pub lists: Seq<Seq<char>>,
    pub parts: Seq<PartView>,
    pub start: Option<DateView>,
    pub end: Option<DateView>,
}

impl View for IcalEvent {
    type V = IcalEventView;

    open spec fn view(&self) -> IcalEventView {
        IcalEventView {
            properties: lists::views_of(self.properties@),
            lists: text::views(self.lists@),
            parts: lists::views_of(self.parts@),
            start: lists::view_of(self.start),
            end: lists::view_of(self.end),
        }
    }
}

impl IcalEventView {
    /// Whether the dates of an event are dates.
    pub open spec fn valid(self) -> bool {
        (self.start matches Some(start) ==> start.valid()) && (self.end matches Some(end)
            ==> end.valid())
    }
}

/// What a calendar text holds: its root components, whether each component of the calendar is an
/// event, and the first event.
#[derive(Debug)]
pub struct IcalCalendar {
    pub roots: Result<Vec<String>, String>,
    pub kinds: Result<Vec<bool>, String>,
    pub event: Option<IcalEvent>,
}

/// The values of an [`IcalCalendar`].
#[verifier::ext_equal]
pub struct IcalCalendarView {
    pub roots: Result<Seq<Seq<char>>, Seq<char>>,
    pub kinds: Result<Seq<bool>, Seq<char>>,
    pub event: Option<IcalEventView>,
}

impl View for IcalCalendar {
    type V = IcalCalendarView;

    open spec fn view(&self) -> IcalCalendarView {
        IcalCalendarView {
            roots: texts_result(self.roots),
            kinds: kinds_result(self.kinds),
            event: lists::view_of(self.event),
        }
    }
}

/// Component `k` in the event that is component `i` of a calendar.
pub open spec fn part_facts(content: Seq<char>, i: usize, k: usize) -> PartView {
    PartView {
        kind: part_kinds(content, i)[k as int],
        properties: part_properties(content, i, k),
        lists: part_lists(content, i, k),
        has_parts: part_has_parts(content, i, k),
    }
}

/// The event that is component `i` of a calendar.
pub open spec fn event_facts(content: Seq<char>, i: usize) -> IcalEventView {
    IcalEventView {
        properties: event_properties(content, i),
        lists: event_lists(content, i),
        parts: Seq::new(
            part_kinds(content, i).len(),
            |k: int| part_facts(content, i, k as usize),
        ),
        start: event_date(content, i, "DTSTART"@),
        end: event_date(content, i, "DTEND"@),
    }
}

/// Position of the first mark that is set, or the number of marks.
pub open spec fn first_set(marks: Seq<bool>) -> int
    decreases marks.len(),
{
    if marks.len() == 0 || marks[0] {
        0
    } else {
        1 + first_set(marks.drop_first())
    }
}

/// For each component of the calendar in a text, whether it is an event. Where the text was not read,
/// the message that says so stands in their place.
pub open spec fn found_kinds(content: Seq<char>) -> Result<Seq<bool>, Seq<char>> {
    match root_names(content) {
        Ok(_) => component_kinds(content),
        Err(message) => Err(message),
    }
}

/// What a calendar text holds. Where its roots are not read, nothing else of it is.
pub open spec fn calendar_facts(content: Seq<char>) -> IcalCalendarView {
    IcalCalendarView {
        roots: root_names(content),
        kinds: found_kinds(content),
        event: match found_kinds(content) {
            Ok(kinds) => if first_set(kinds) < kinds.len() {
                Some(event_facts(content, first_set(kinds) as usize))
            } else {
                None
            },
            Err(_) => None,
        },
    }
}

/// The event that is component `i` of a calendar.
fn read_event(content: &str, i: usize) -> (r: IcalEvent)
    requires
        root_names(content@) is Ok,
    ensures
        r@ == event_facts(content@, i),
        r@.valid(),
{
    let kinds = icalendar_part_kinds(content, i);
    let mut parts: Vec<IcalPart> = Vec::new();
    for k in 0..kinds.len()
        invariant
            root_names(content@) is Ok,
            text::views(kinds@) == part_kinds(content@, i),
            parts@.len() == k,
            forall|n: int|
                0 <= n < k ==> (#[trigger] parts@[n])@ == part_facts(content@, i, n as usize),
    {
        let part = IcalPart {
            kind: kinds[k].clone(),
            properties: icalendar_part_properties(content, i, k),
            lists: icalendar_part_lists(content, i, k),
            has_parts: icalendar_part_has_parts(content, i, k),
        };
        assert(part_kinds(content@, i)[k as int] == kinds@[k as int]@);
        parts.push(part);
    }
    let event = IcalEvent {
        properties: icalendar_event_properties(content, i),
        lists: icalendar_event_lists(content, i),
        parts,
        start: icalendar_event_date(content, i, "DTSTART"),
        end: icalendar_event_date(content, i, "DTEND"),
    };
    assert(text::views(kinds@).len() == kinds@.len());
    assert(event@.parts =~= event_facts(content@, i).parts);
    event
}

/// Position of the first mark that is set, or the number of marks.
fn find_set(marks: &Vec<bool>) -> (r: usize)
    ensures
        r == first_set(marks@),
        r <= marks@.len(),
{
    let mut i: usize = 0;
    assert(marks@.skip(0) =~= marks@);
    while i < marks.len() && !marks[i]
        invariant
            i <= marks@.len(),
            first_set(marks@) == i + first_set(marks@.skip(i as int)),
        decreases marks@.len() - i,
    {
        assert(marks@.skip(i as int).drop_first() =~= marks@.skip(i + 1));
        i += 1;
    }
    i
}

/// What a calendar text holds.
pub fn read_calendar(content: &str) -> (r: IcalCalendar)
    ensures
        r@ == calendar_facts(content@),
        r@.event matches Some(event) ==> event.valid(),
{
    let roots = icalendar_roots(content);
    let kinds = match &roots {
        Ok(_) => icalendar_kinds(content),
        Err(message) => Err(message.clone()),
    };
    let event = match &kinds {
        Ok(kinds) => {
            let at: usize = find_set(kinds);
            if at < kinds.len() {
                Some(read_event(content, at))
            } else {
                None
            }
        },
        Err(_) => None,
    };
    IcalCalendar { roots, kinds, event }
}

/// A text with its folded lines made whole.
pub fn unfold(resource: &str) -> (r: String)
    ensures
        r@ == unfolded(resource@),
{
    icalendar_unfold(resource)
}

// ---------------------------------------------------------------------------------------------
// Looking at properties
// ---------------------------------------------------------------------------------------------

/// The first property of a list with a key.
pub open spec fn property_named(properties: Seq<PropertyView>, key: Seq<char>) -> Option<PropertyView>
    decreases properties.len(),
{
    if properties.len() == 0 {
        None
    } else if properties[0].key == key {
        Some(properties[0])
    } else {
        property_named(properties.drop_first(), key)
    }
}

/// The value of the first property of a list with a key.
pub open spec fn value_named(properties: Seq<PropertyView>, key: Seq<char>) -> Option<Seq<char>> {
    match property_named(properties, key) {
        Some(property) => Some(property.value),
        None => None,
    }
}

/// The value of the first parameter of a list with a key.
pub open spec fn param_named(params: Seq<(Seq<char>, Seq<char>)>, key: Seq<char>) -> Option<Seq<char>>
    decreases params.len(),
{
    if params.len() == 0 {
        None
    } else if params[0].0 == key {
        Some(params[0].1)
    } else {
        param_named(params.drop_first(), key)
    }
}

/// The values of an optional reference to a property.
pub open spec fn property_ref(r: Option<&IcalProperty>) -> Option<PropertyView> {
    match r {
        Some(property) => Some(property@),
        None => None,
    }
}

/// The first property of a list with a key.
pub fn find_property<'a>(properties: &'a Vec<IcalProperty>, key: &str) -> (r: Option<&'a IcalProperty>)
    ensures
        property_ref(r) == property_named(lists::views_of(properties@), key@),
{
    let ghost all = lists::views_of(properties@);
    assert(all.skip(0) =~= all);
    for i in 0..properties.len()
        invariant
            all == lists::views_of(properties@),
            property_named(all, key@) == property_named(all.skip(i as int), key@),
    {
        assert(all.skip(i as int)[0] == properties@[i as int]@);
        assert(all.skip(i as int).drop_first() =~= all.skip(i + 1));
        if text::same_text(properties[i].key.as_str(), key) {
            return Some(&properties[i]);
        }
    }
    None
}

/// The value of the first property of a list with a key.
pub fn find_value(properties: &Vec<IcalProperty>, key: &str) -> (r: Option<String>)
    ensures
        model::text_view(r) == value_named(lists::views_of(properties@), key@),
{
    match find_property(properties, key) {
        Some(property) => Some(property.value.clone()),
        None => None,
    }
}

/// The value of the first parameter of a list with a key.
pub fn find_param(params: &Vec<(String, String)>, key: &str) -> (r: Option<String>)
    ensures
        model::text_view(r) == param_named(param_views(params@), key@),
{
    let ghost all = param_views(params@);
    assert(all.skip(0) =~= all);
    for i in 0..params.len()
        invariant
            all == param_views(params@),
            param_named(all, key@) == param_named(all.skip(i as int), key@),
    {
        assert(all.skip(i as int)[0] == (params@[i as int].0@, params@[i as int].1@));
        assert(all.skip(i as int).drop_first() =~= all.skip(i + 1));
        if text::same_text(params[i].0.as_str(), key) {
            return Some(params[i].1.clone());
        }
    }
    None
}

/// Whether a list of keys holds a key.
pub fn has_key(keys: &Vec<String>, key: &str) -> (r: bool)
    ensures
        r == text::views(keys@).contains(key@),
{
    let ghost all = text::views(keys@);
    for i in 0..keys.len()
        invariant
            all == text::views(keys@),
            forall|k: int| 0 <= k < i ==> #[trigger] all[k] != key@,
    {
        assert(all[i as int] == keys@[i as int]@);
        if text::same_text(keys[i].as_str(), key) {
            return true;
        }
    }
    false
}

/// Whether an event has a property with a key.
pub open spec fn has_property_spec(event: IcalEventView, key: Seq<char>) -> bool {
    property_named(event.properties, key) is Some || event.lists.contains(key)
}

/// Whether an event has a property with a key.
pub fn has_property(event: &IcalEvent, key: &str) -> (r: bool)
    ensures
        r == has_property_spec(event@, key@),
{
    find_property(&event.properties, key).is_some() || has_key(&event.lists, key)
}

/// A property is found by its key, and of several the first.
pub proof fn law_property_of_a_key(properties: Seq<PropertyView>, key: Seq<char>, i: int)
    requires
        0 <= i < properties.len(),
        properties[i].key == key,
        forall|k: int| 0 <= k < i ==> (#[trigger] properties[k]).key != key,
    ensures
        property_named(properties, key) == Some(properties[i]),
        value_named(properties, key) == Some(properties[i].value),
    decreases properties.len(),
{
    if i > 0 {
        let rest = properties.drop_first();
        assert(properties[0].key != key);
        assert(rest[i - 1] == properties[i]);
        assert forall|k: int| 0 <= k < i - 1 implies (#[trigger] rest[k]).key != key by {
            assert(rest[k] == properties[k + 1]);
        }
        law_property_of_a_key(rest, key, i - 1);
    }
}

/// A property is not found where none has its key; one that may occur more than once is found among
/// those.
pub proof fn law_property_that_is_not_there(event: IcalEventView, key: Seq<char>)
    requires
        forall|k: int| 0 <= k < event.properties.len() ==> (#[trigger] event.properties[k]).key != key,
    ensures
        property_named(event.properties, key) is None,
        value_named(event.properties, key) is None,
        has_property_spec(event, key) <==> event.lists.contains(key),
{
    lemma_no_property(event.properties, key);
}

/// None with the key is found where there is none.
proof fn lemma_no_property(properties: Seq<PropertyView>, key: Seq<char>)
    requires
        forall|k: int| 0 <= k < properties.len() ==> (#[trigger] properties[k]).key != key,
    ensures
        property_named(properties, key) is None,
    decreases properties.len(),
{
    if properties.len() > 0 {
        let rest = properties.drop_first();
        assert(properties[0].key != key);
        assert forall|k: int| 0 <= k < rest.len() implies (#[trigger] rest[k]).key != key by {
            assert(rest[k] == properties[k + 1]);
        }
        lemma_no_property(rest, key);
    }
}

/// A parameter is found by its key, and of several the first.
pub proof fn law_parameter_of_a_key(params: Seq<(Seq<char>, Seq<char>)>, key: Seq<char>)
    ensures
        param_named(params, key) matches Some(value) ==> exists|i: int|
            0 <= i < params.len() && #[trigger] params[i] == (key, value) && forall|k: int|
                0 <= k < i ==> (#[trigger] params[k]).0 != key,
        param_named(params, key) is None ==> forall|k: int|
            0 <= k < params.len() ==> (#[trigger] params[k]).0 != key,
    decreases params.len(),
{
    if params.len() > 0 {
        let rest = params.drop_first();
        law_parameter_of_a_key(rest, key);
        if params[0].0 == key {
            assert(params[0] == (key, params[0].1));
        } else if let Some(value) = param_named(rest, key) {
            let i = choose|i: int|
                0 <= i < rest.len() && #[trigger] rest[i] == (key, value) && forall|k: int|
                    0 <= k < i ==> (#[trigger] rest[k]).0 != key;
            assert(params[i + 1] == (key, value));
            assert forall|k: int| 0 <= k < i + 1 implies (#[trigger] params[k]).0 != key by {
                if k > 0 {
                    assert(rest[k - 1] == params[k]);
                }
            }
        } else {
            assert forall|k: int| 0 <= k < params.len() implies (#[trigger] params[k]).0 != key by {
                if k > 0 {
                    assert(rest[k - 1] == params[k]);
                }
            }
        }
    }
}

/// The event of a calendar is its first component that is one.
pub proof fn law_first_event_of_a_calendar(marks: Seq<bool>)
    ensures
        0 <= first_set(marks) <= marks.len(),
        first_set(marks) < marks.len() ==> marks[first_set(marks)],
        forall|k: int| 0 <= k < first_set(marks) ==> !(#[trigger] marks[k]),
    decreases marks.len(),
{
    if marks.len() > 0 && !marks[0] {
        let rest = marks.drop_first();
        law_first_event_of_a_calendar(rest);
        assert forall|k: int| 0 <= k < first_set(marks) implies !(#[trigger] marks[k]) by {
            if k > 0 {
                assert(rest[k - 1] == marks[k]);
            }
        }
    }
}

/// What is read of an event: its properties, its parts, its start and its end.
pub proof fn law_what_is_read_of_an_event(content: Seq<char>, i: usize, k: usize)
    requires
        k < part_kinds(content, i).len(),
    ensures
        event_facts(content, i).start == event_date(content, i, "DTSTART"@),
        event_facts(content, i).end == event_date(content, i, "DTEND"@),
        event_facts(content, i).properties == event_properties(content, i),
        event_facts(content, i).lists == event_lists(content, i),
        event_facts(content, i).parts.len() == part_kinds(content, i).len(),
        event_facts(content, i).parts[k as int].kind == part_kinds(content, i)[k as int],
        event_facts(content, i).parts[k as int].properties == part_properties(content, i, k),
        event_facts(content, i).parts[k as int].lists == part_lists(content, i, k),
        event_facts(content, i).parts[k as int].has_parts == part_has_parts(content, i, k),
{
}

} // verus!
