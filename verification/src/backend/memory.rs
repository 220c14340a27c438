//! Calendars and events that are kept in memory.
use std::collections::HashMap;
use vstd::prelude::*;

use crate::backend::changes;
use crate::backend::changes::{DeletionView, EventDeletionUndo};
use crate::backend::RepositoryError;
use crate::model;
use crate::model::{Calendar, CalendarView, DateTimeRange, Event, EventSchedule, EventView, RangeOverlap, ScheduleView, Uuid};

verus! {

broadcast use vstd::std_specs::hash::group_hash_axioms;

/// Whether a list holds the values of a map that fit, each once, in some order.
pub open spec fn lists_values<V>(list: Seq<V>, map: Map<Uuid, V>, id: spec_fn(V) -> Uuid, fits: spec_fn(V) -> bool) -> bool {
    &&& forall|i: int|
        0 <= i < list.len() ==> map.contains_key(id(#[trigger] list[i])) && map[id(list[i])] == list[i]
            && fits(list[i])
    &&& forall|i: int, j: int|
        0 <= i < j < list.len() ==> id(#[trigger] list[i]) != id(#[trigger] list[j])
    &&& forall|k: Uuid|
        #[trigger] map.contains_key(k) && fits(map[k]) ==> exists|i: int|
            0 <= i < list.len() && #[trigger] list[i] == map[k]
}

/// The identifier of a calendar.
pub open spec fn calendar_id() -> spec_fn(CalendarView) -> Uuid {
    |calendar: CalendarView| calendar.id
}

/// The identifier of an event.
pub open spec fn event_id() -> spec_fn(EventView) -> Uuid {
    |event: EventView| event.id
}

/// Whether an event is in a calendar.
pub open spec fn is_in(calendar_id: Uuid) -> spec_fn(EventView) -> bool {
    |event: EventView| event.calendar_id == calendar_id
}

/// Whether an event has a start and an end that overlap a range; one on whole days does not.
pub open spec fn overlaps(range: DateTimeRange) -> spec_fn(EventView) -> bool {
    |event: EventView|
        match event.schedule {
            ScheduleView::Timed { start, end, .. } => range.overlap_spec(DateTimeRange { start, end })
                != RangeOverlap::Disjoint,
            ScheduleView::AllDay { .. } => false,
        }
}

/// Whether one event comes before another: it starts earlier, or at the same instant with a smaller
/// identifier.
pub open spec fn comes_before(a: EventView, b: EventView) -> bool {
    match (a.schedule, b.schedule) {
        (
            ScheduleView::Timed { start: first, .. },
            ScheduleView::Timed { start: second, .. },
        ) => first@.before(second@) || (first@.same_instant(second@) && a.id < b.id),
        _ => false,
    }
}

/// Whether events stand in order of their starts.
pub open spec fn in_order(events: Seq<EventView>) -> bool {
    forall|i: int, j: int|
        0 <= i < j < events.len() ==> comes_before(#[trigger] events[i], #[trigger] events[j])
}

/// Calendars that are kept.
pub trait CalendarRepository {
    /// The calendars, by identifier.
    spec fn calendars(&self) -> Map<Uuid, CalendarView>;

    /// Keep a calendar, in place of one with its identifier.
    fn save_calendar(&mut self, calendar: &Calendar) -> (r: Result<(), RepositoryError>)
        ensures
            match r {
                Ok(_) => final(self).calendars() == old(self).calendars().insert(
                    calendar.id,
                    calendar@,
                ),
                Err(_) => final(self).calendars() == old(self).calendars(),
            },
    ;

    /// All calendars, in no particular order.
    fn list_calendars(&self) -> (r: Vec<Calendar>)
        ensures
            lists_values(
                model::calendar_views(r@),
                self.calendars(),
                calendar_id(),
                |calendar: CalendarView| true,
            ),
    ;

    /// The calendar with an identifier.
    fn get_calendar(&self, id: Uuid) -> (r: Option<Calendar>)
        ensures
            changes::calendar_view(r) == crate::backend::store::stored(self.calendars(), id),
            r matches Some(calendar) ==> calendar.id == id,
    ;

    /// Drop a calendar; true where there was one.
    fn delete_calendar(&mut self, id: Uuid) -> (r: bool)
        ensures
            r == old(self).calendars().contains_key(id),
            final(self).calendars() == old(self).calendars().remove(id),
    ;
}

/// Events that are kept.
pub trait EventRepository {
    /// The events, by identifier.
    spec fn events(&self) -> Map<Uuid, EventView>;

    /// Keep a new event; refused where there is one with its identifier.
    fn save_event(&mut self, event: &Event) -> (r: Result<(), RepositoryError>)
        ensures
            old(self).events().contains_key(event.id) ==> r is Err,
            match r {
                Ok(_) => final(self).events() == old(self).events().insert(event.id, event@),
                Err(_) => final(self).events() == old(self).events(),
            },
    ;

    /// Replace an event; refused where there is none with its identifier.
    fn update_event(&mut self, event: &Event) -> (r: Result<(), RepositoryError>)
        ensures
            !old(self).events().contains_key(event.id) ==> r is Err,
            match r {
                Ok(_) => final(self).events() == old(self).events().insert(event.id, event@),
                Err(_) => final(self).events() == old(self).events(),
            },
    ;

    /// The event with an identifier.
    fn get_event(&self, id: Uuid) -> (r: Option<Event>)
        ensures
            changes::event_view(r) == crate::backend::store::stored(self.events(), id),
            r matches Some(event) ==> event.id == id,
    ;

    /// Drop an event; true where there was one.
    fn delete_event(&mut self, id: Uuid) -> (r: bool)
        ensures
            r == old(self).events().contains_key(id),
            final(self).events() == old(self).events().remove(id),
    ;

    /// Drop an event and hand it out with what is needed to restore it once.
    fn delete_event_with_undo(&mut self, id: Uuid) -> (r: Option<EventDeletionUndo>)
        ensures
            final(self).events() == old(self).events().remove(id),
            match r {
                Some(undo) => old(self).events().contains_key(id) && undo@.event
                    == old(self).events()[id] && undo@.event.id == id && !undo@.restored,
                None => !old(self).events().contains_key(id),
            },
    ;

    /// Restore a deleted event, once, and never in place of another.
    fn undo_delete_event(&mut self, undo: &mut EventDeletionUndo) -> (r: Result<(), RepositoryError>)
        ensures
            old(undo)@.restored || old(self).events().contains_key(old(undo)@.event.id) ==> r is Err,
            match r {
                Ok(_) => final(self).events() == old(self).events().insert(
                    old(undo)@.event.id,
                    old(undo)@.event,
                ) && final(undo)@ == (DeletionView { restored: true, ..old(undo)@ }),
                Err(_) => final(self).events() == old(self).events() && final(undo)@ == old(undo)@,
            },
    ;

    /// The events of a calendar, in no particular order.
    fn list_events_for_calendar(&self, calendar_id: Uuid) -> (r: Vec<Event>)
        ensures
            lists_values(
                model::event_views(r@),
                self.events(),
                event_id(),
                is_in(calendar_id),
            ),
    ;

    /// The events with a start and an end that overlap a range, by start.
    fn timed_events_in_range(&self, range: &DateTimeRange) -> (r: Vec<Event>)
        ensures
            lists_values(model::event_views(r@), self.events(), event_id(), overlaps(*range)),
            in_order(model::event_views(r@)),
    ;
}

/// Calendars and events that are kept in memory.
pub struct InMemoryRepository {
    calendars: HashMap<Uuid, Calendar>,
    events: HashMap<Uuid, Event>,
}

impl InMemoryRepository {
    /// Each value is kept under its identifier.
    #[verifier::type_invariant]
    closed spec fn is_keyed(self) -> bool {
        &&& forall|k: Uuid| #[trigger] self.calendars@.contains_key(k) ==> self.calendars@[k].id == k
        &&& forall|k: Uuid| #[trigger] self.events@.contains_key(k) ==> self.events@[k].id == k
    }

    /// The calendars, by identifier.
    pub closed spec fn kept_calendars(&self) -> Map<Uuid, CalendarView> {
        self.calendars@.map_values(|calendar: Calendar| calendar@)
    }

    /// The events, by identifier.
    pub closed spec fn kept_events(&self) -> Map<Uuid, EventView> {
        self.events@.map_values(|event: Event| event@)
    }

    /// A repository that holds nothing.
    pub fn new() -> (r: InMemoryRepository)
        ensures
            r.kept_calendars() == Map::<Uuid, CalendarView>::empty(),
            r.kept_events() == Map::<Uuid, EventView>::empty(),
    {
        let r = InMemoryRepository { calendars: HashMap::new(), events: HashMap::new() };
        assert(r.kept_calendars() =~= Map::empty());
        assert(r.kept_events() =~= Map::empty());
        r
    }
}

/// The keys of a map, each once.
fn keys_of<V>(map: &HashMap<Uuid, V>) -> (r: Vec<Uuid>)
    ensures
        r@.to_set() == map@.dom(),
        r@.no_duplicates(),
{
    let mut out: Vec<Uuid> = Vec::new();
    for key in it: map.keys()
        invariant
            out@ == it.seq().unref().take(it.index() as int),
            it.seq() == vstd::std_specs::iter::IteratorSpec::remaining(
                &vstd::std_specs::hash::spec_keys_iter(map),
            ),
    {
        out.push(*key);
        assert(out@ =~= it.seq().unref().take(it.index() as int + 1));
    }
    proof {
        let all = vstd::std_specs::iter::IteratorSpec::remaining(
                &vstd::std_specs::hash::spec_keys_iter(map),
            );
        assert(out@ =~= all.unref());
        assert forall|i: int, j: int| 0 <= i < out@.len() && 0 <= j < out@.len() && i != j implies out@[i]
            != out@[j] by {
            assert(all[i] != all[j]);
        }
    }
    out
}

impl CalendarRepository for InMemoryRepository {
    open spec fn calendars(&self) -> Map<Uuid, CalendarView> {
        self.kept_calendars()
    }

    fn save_calendar(&mut self, calendar: &Calendar) -> (r: Result<(), RepositoryError>)
        ensures
            r is Ok,
            final(self).kept_events() == old(self).kept_events(),
    {
        proof {
            use_type_invariant(&*self);
        }
        let mut calendars: HashMap<Uuid, Calendar> = HashMap::new();
        std::mem::swap(&mut calendars, &mut self.calendars);
        calendars.insert(calendar.id, calendar.clone());
        self.calendars = calendars;
        assert(self.kept_calendars() =~= old(self).kept_calendars().insert(calendar.id, calendar@));
        Ok(())
    }

    fn list_calendars(&self) -> (r: Vec<Calendar>) {
        proof {
            use_type_invariant(self);
        }
        let keys = keys_of(&self.calendars);
        let mut out: Vec<Calendar> = Vec::new();
        for i in 0..keys.len()
            invariant
                keys@.to_set() == self.calendars@.dom(),
                out@.len() == i,
                forall|k: int| 0 <= k < i ==> (#[trigger] out@[k])@ == self.calendars@[keys@[k]]@,
        {
            assert(keys@.to_set().contains(keys@[i as int]));
            match self.calendars.get(&keys[i]) {
                Some(calendar) => {
                    out.push(calendar.clone());
                },
                None => {
                    assert(false);
                },
            }
        }
        proof {
            let views = model::calendar_views(out@);
            let fits = |calendar: CalendarView| true;
            assert forall|i: int| 0 <= i < views.len() implies self.kept_calendars().contains_key(
                calendar_id()(#[trigger] views[i]),
            ) && self.kept_calendars()[calendar_id()(views[i])] == views[i] && fits(views[i]) by {
                assert(keys@.to_set().contains(keys@[i]));
                assert(out@[i]@ == self.calendars@[keys@[i]]@);
            }
            assert forall|i: int, j: int| 0 <= i < j < views.len() implies calendar_id()(
                #[trigger] views[i],
            ) != calendar_id()(#[trigger] views[j]) by {
                assert(keys@.to_set().contains(keys@[i]));
                assert(keys@.to_set().contains(keys@[j]));
                assert(out@[i]@ == self.calendars@[keys@[i]]@);
                assert(out@[j]@ == self.calendars@[keys@[j]]@);
            }
            assert forall|k: Uuid| #[trigger]
                self.kept_calendars().contains_key(k) && fits(self.kept_calendars()[k]) implies exists|i: int|
                0 <= i < views.len() && #[trigger] views[i] == self.kept_calendars()[k] by {
                assert(keys@.to_set().contains(k));
                let i = choose|i: int| 0 <= i < keys@.len() && keys@[i] == k;
                assert(out@[i]@ == self.calendars@[keys@[i]]@);
                assert(views[i] == self.kept_calendars()[k]);
            }
        }
        out
    }

    fn get_calendar(&self, id: Uuid) -> (r: Option<Calendar>) {
        proof {
            use_type_invariant(self);
        }
        match self.calendars.get(&id) {
            Some(calendar) => Some(calendar.clone()),
            None => None,
        }
    }

    fn delete_calendar(&mut self, id: Uuid) -> (r: bool)
        ensures
            final(self).kept_events() == old(self).kept_events(),
    {
        proof {
            use_type_invariant(&*self);
        }
        let mut calendars: HashMap<Uuid, Calendar> = HashMap::new();
        std::mem::swap(&mut calendars, &mut self.calendars);
        let removed = calendars.remove(&id);
        self.calendars = calendars;
        assert(self.kept_calendars() =~= old(self).kept_calendars().remove(id));
        removed.is_some()
    }
}

/// Where an event goes in a list in order: before the first event that does not come before it.
fn place_of(list: &Vec<Event>, event: &Event) -> (r: usize)
    requires
        in_order(model::event_views(list@)),
        event@.schedule is Timed,
        forall|k: int|
            0 <= k < list@.len() ==> (#[trigger] list@[k])@.schedule is Timed && list@[k].id
                != event.id,
    ensures
        r <= list@.len(),
        forall|k: int| 0 <= k < r ==> comes_before(#[trigger] list@[k]@, event@),
        forall|k: int| r <= k < list@.len() ==> comes_before(event@, #[trigger] list@[k]@),
{
    let mut place: usize = list.len();
    while place > 0
        invariant
            place <= list@.len(),
            in_order(model::event_views(list@)),
            event@.schedule is Timed,
            forall|k: int|
                0 <= k < list@.len() ==> (#[trigger] list@[k])@.schedule is Timed && list@[k].id
                    != event.id,
            forall|k: int| place <= k < list@.len() ==> comes_before(event@, #[trigger] list@[k]@),
        decreases place,
    {
        let before = match (&list[place - 1].schedule, &event.schedule) {
            (
                EventSchedule::Timed { start: first, .. },
                EventSchedule::Timed { start: second, .. },
            ) => first.before(second) || (first.same_instant(second) && list[place - 1].id < event.id),
            _ => false,
        };
        assert(before == comes_before(list@[place - 1]@, event@));
        if before {
            assert forall|k: int| 0 <= k < place implies comes_before(
                #[trigger] list@[k]@,
                event@,
            ) by {
                if k < place - 1 {
                    let views = model::event_views(list@);
                    assert(comes_before(views[k], views[place - 1]));
                }
            }
            return place;
        }
        assert(comes_before(event@, list@[place - 1]@));
        place -= 1;
    }
    place
}

/// Put an event at its place in a list in order.
fn put_in_order(list: &mut Vec<Event>, event: Event) -> (r: usize)
    requires
        in_order(model::event_views(old(list)@)),
        event@.schedule is Timed,
        forall|k: int|
            0 <= k < old(list)@.len() ==> (#[trigger] old(list)@[k])@.schedule is Timed && old(
                list,
            )@[k].id != event.id,
    ensures
        r <= old(list)@.len(),
        model::event_views(final(list)@) == model::event_views(old(list)@).insert(r as int, event@),
        in_order(model::event_views(final(list)@)),
{
    let ghost given = list@;
    let ghost before = model::event_views(list@);
    let place = place_of(list, &event);
    let ghost views = before.insert(place as int, event@);
    list.insert(place, event);
    proof {
        assert(model::event_views(list@) =~= views);
        assert forall|a: int, b: int| 0 <= a < b < views.len() implies comes_before(
            #[trigger] views[a],
            #[trigger] views[b],
        ) by {
            if a < place {
                assert(views[a] == given[a]@);
                if b > place {
                    assert(views[b] == before[b - 1]);
                    assert(views[a] == before[a]);
                } else if b < place {
                    assert(views[b] == before[b]);
                    assert(views[a] == before[a]);
                }
            } else if a == place {
                assert(views[b] == given[b - 1]@);
            } else {
                assert(views[a] == before[a - 1]);
                assert(views[b] == before[b - 1]);
            }
        }
    }
    place
}

/// Whether an event has a start and an end that overlap a range.
fn does_overlap(event: &Event, range: &DateTimeRange) -> (r: bool)
    ensures
        r == overlaps(*range)(event@),
{
    match &event.schedule {
        EventSchedule::Timed { start, end, .. } => {
            match range.overlap(&DateTimeRange { start: *start, end: *end }) {
                RangeOverlap::Disjoint => false,
                _ => true,
            }
        },
        _ => false,
    }
}

/// The events of a list with a start and an end that overlap a range, by start. No two events of the
/// list have the same identifier.
pub fn overlapping_events(events: &Vec<Event>, range: &DateTimeRange) -> (r: Vec<Event>)
    requires
        forall|i: int, j: int|
            0 <= i < j < events@.len() ==> (#[trigger] events@[i]).id != (#[trigger] events@[j]).id,
    ensures
        in_order(model::event_views(r@)),
        model::event_views(r@).to_multiset() == model::event_views(events@).filter(
            overlaps(*range),
        ).to_multiset(),
{
    let ghost all = model::event_views(events@);
    let ghost fits = overlaps(*range);
    let mut out: Vec<Event> = Vec::new();
    proof {
        assert(all.take(0) =~= seq![]);
        assert(model::event_views(out@) =~= seq![]);
        reveal(Seq::filter);
    }
    for i in 0..events.len()
        invariant
            all == model::event_views(events@),
            fits == overlaps(*range),
            forall|i: int, j: int|
                0 <= i < j < events@.len() ==> (#[trigger] events@[i]).id != (
                #[trigger] events@[j]).id,
            in_order(model::event_views(out@)),
            model::event_views(out@).to_multiset() == all.take(i as int).filter(fits).to_multiset(),
    {
        let ghost before = model::event_views(out@);
        proof {
            assert(all.take(i + 1) =~= all.take(i as int).push(all[i as int]));
            crate::lines::lemma_filter_push(all.take(i as int), all[i as int], fits);
        }
        if does_overlap(&events[i], range) {
            let copy = events[i].clone();
            assert forall|k: int| 0 <= k < out@.len() implies (#[trigger] out@[k])@.schedule is Timed
                && out@[k].id != copy.id by {
                lemma_kept_is_listed(before, all.take(i as int), fits, k);
                let n = choose|n: int| 0 <= n < i && all.take(i as int)[n] == before[k];
                assert(events@[n].id != events@[i as int].id);
                assert(all[n].id == events@[n].id);
            }
            let place = put_in_order(&mut out, copy);
            proof {
                lemma_insert_multiset(before, place as int, copy@);
                broadcast use vstd::seq_lib::group_to_multiset_ensures;
                assert(all.take(i + 1).filter(fits) == all.take(i as int).filter(fits).push(
                    all[i as int],
                ));
            }
        }
    }
    assert(all.take(all.len() as int) =~= all);
    out
}

/// What is put into a list is one more of its items.
proof fn lemma_insert_multiset<A>(list: Seq<A>, place: int, item: A)
    requires
        0 <= place <= list.len(),
    ensures
        list.insert(place, item).to_multiset() == list.to_multiset().insert(item),
{
    broadcast use vstd::seq_lib::group_to_multiset_ensures;

    let after = list.insert(place, item);
    assert(after.remove(place) =~= list);
    assert(after[place] == item);
    assert(after.contains(item));
    assert(after.to_multiset() =~= list.to_multiset().insert(item));
}

/// An item of a list that holds what fits of another is an item of the other, and fits.
proof fn lemma_kept_is_listed<A>(list: Seq<A>, all: Seq<A>, fits: spec_fn(A) -> bool, k: int)
    requires
        list.to_multiset() == all.filter(fits).to_multiset(),
        0 <= k < list.len(),
    ensures
        fits(list[k]),
        exists|n: int| 0 <= n < all.len() && all[n] == list[k],
{
    broadcast use vstd::seq_lib::group_to_multiset_ensures;

    assert(list.contains(list[k]));
    assert(list.to_multiset().count(list[k]) > 0);
    assert(all.filter(fits).contains(list[k]));
    all.lemma_filter_contains_rev(fits, list[k]);
}

impl EventRepository for InMemoryRepository {
    open spec fn events(&self) -> Map<Uuid, EventView> {
        self.kept_events()
    }

    fn save_event(&mut self, event: &Event) -> (r: Result<(), RepositoryError>)
        ensures
            r is Ok <==> !old(self).kept_events().contains_key(event.id),
            final(self).kept_calendars() == old(self).kept_calendars(),
    {
        proof {
            use_type_invariant(&*self);
        }
        if self.events.contains_key(&event.id) {
            return Err(RepositoryError);
        }
        let mut events: HashMap<Uuid, Event> = HashMap::new();
        std::mem::swap(&mut events, &mut self.events);
        events.insert(event.id, event.clone());
        self.events = events;
        assert(self.kept_events() =~= old(self).kept_events().insert(event.id, event@));
        Ok(())
    }

    fn update_event(&mut self, event: &Event) -> (r: Result<(), RepositoryError>)
        ensures
            r is Ok <==> old(self).kept_events().contains_key(event.id),
            final(self).kept_calendars() == old(self).kept_calendars(),
    {
        proof {
            use_type_invariant(&*self);
        }
        if !self.events.contains_key(&event.id) {
            return Err(RepositoryError);
        }
        let mut events: HashMap<Uuid, Event> = HashMap::new();
        std::mem::swap(&mut events, &mut self.events);
        events.insert(event.id, event.clone());
        self.events = events;
        assert(self.kept_events() =~= old(self).kept_events().insert(event.id, event@));
        Ok(())
    }

    fn get_event(&self, id: Uuid) -> (r: Option<Event>) {
        proof {
            use_type_invariant(self);
        }
        match self.events.get(&id) {
            Some(event) => Some(event.clone()),
            None => None,
        }
    }

    fn delete_event(&mut self, id: Uuid) -> (r: bool)
        ensures
            final(self).kept_calendars() == old(self).kept_calendars(),
    {
        proof {
            use_type_invariant(&*self);
        }
        let mut events: HashMap<Uuid, Event> = HashMap::new();
        std::mem::swap(&mut events, &mut self.events);
        let removed = events.remove(&id);
        self.events = events;
        assert(self.kept_events() =~= old(self).kept_events().remove(id));
        removed.is_some()
    }

    fn delete_event_with_undo(&mut self, id: Uuid) -> (r: Option<EventDeletionUndo>)
        ensures
            final(self).kept_calendars() == old(self).kept_calendars(),
    {
        proof {
            use_type_invariant(&*self);
        }
        let mut events: HashMap<Uuid, Event> = HashMap::new();
        std::mem::swap(&mut events, &mut self.events);
        let removed = events.remove(&id);
        self.events = events;
        assert(self.kept_events() =~= old(self).kept_events().remove(id));
        match removed {
            Some(event) => Some(
                EventDeletionUndo {
                    event,
                    restored: false,
                    event_sync_state: None,
                    prior_pending_operation: None,
                    sync_undo: false,
                    delete_tombstone: false,
                },
            ),
            None => None,
        }
    }

    fn undo_delete_event(&mut self, undo: &mut EventDeletionUndo) -> (r: Result<(), RepositoryError>)
        ensures
            r is Ok <==> !old(undo)@.restored && !old(self).kept_events().contains_key(
                old(undo)@.event.id,
            ),
            final(self).kept_calendars() == old(self).kept_calendars(),
    {
        proof {
            use_type_invariant(&*self);
        }
        if undo.restored || self.events.contains_key(&undo.event.id) {
            return Err(RepositoryError);
        }
        let mut events: HashMap<Uuid, Event> = HashMap::new();
        std::mem::swap(&mut events, &mut self.events);
        events.insert(undo.event.id, undo.event.clone());
        self.events = events;
        assert(self.kept_events() =~= old(self).kept_events().insert(undo.event.id, undo.event@));
        undo.mark_restored();
        Ok(())
    }

    fn list_events_for_calendar(&self, calendar_id: Uuid) -> (r: Vec<Event>) {
        proof {
            use_type_invariant(self);
        }
        let keys = keys_of(&self.events);
        let ghost all = self.kept_events();
        let ghost fits = is_in(calendar_id);
        let mut out: Vec<Event> = Vec::new();
        for i in 0..keys.len()
            invariant
                keys@.to_set() == self.events@.dom(),
                keys@.no_duplicates(),
                all == self.kept_events(),
                fits == is_in(calendar_id),
                forall|k: Uuid| #[trigger] self.events@.contains_key(k) ==> self.events@[k].id == k,
                is_listed(model::event_views(out@), all, keys@.take(i as int), fits),
        {
            proof {
                assert(keys@.to_set().contains(keys@[i as int]));
                assert(keys@.take(i + 1) =~= keys@.take(i as int).push(keys@[i as int]));
                assert forall|k: int| 0 <= k < i implies keys@.take(i as int)[k] != keys@[i as int] by {}
            }
            let ghost before = model::event_views(out@);
            match self.events.get(&keys[i]) {
                Some(event) => {
                    assert(event@ == all[keys@[i as int]]);
                    if event.calendar_id == calendar_id {
                        let copy = event.clone();
                        out.push(copy);
                        proof {
                            assert(model::event_views(out@) =~= before.push(copy@));
                            assert(before.push(copy@) =~= before.insert(before.len() as int, copy@));
                            lemma_list_one(
                                before,
                                all,
                                keys@.take(i as int),
                                fits,
                                keys@[i as int],
                                before.len() as int,
                            );
                        }
                    } else {
                        proof {
                            lemma_skip_one(before, all, keys@.take(i as int), fits, keys@[i as int]);
                        }
                    }
                },
                None => {
                    assert(false);
                },
            }
        }
        proof {
            assert(keys@.take(keys@.len() as int) =~= keys@);
            assert(all.dom() =~= self.events@.dom());
            lemma_listed_all(model::event_views(out@), all, keys@, fits);
        }
        out
    }

    fn timed_events_in_range(&self, range: &DateTimeRange) -> (r: Vec<Event>) {
        proof {
            use_type_invariant(self);
        }
        let keys = keys_of(&self.events);
        let ghost all = self.kept_events();
        let ghost fits = overlaps(*range);
        let mut out: Vec<Event> = Vec::new();
        for i in 0..keys.len()
            invariant
                keys@.to_set() == self.events@.dom(),
                keys@.no_duplicates(),
                all == self.kept_events(),
                fits == overlaps(*range),
                forall|k: Uuid| #[trigger] self.events@.contains_key(k) ==> self.events@[k].id == k,
                is_listed(model::event_views(out@), all, keys@.take(i as int), fits),
                in_order(model::event_views(out@)),
        {
            proof {
                assert(keys@.to_set().contains(keys@[i as int]));
                assert(keys@.take(i + 1) =~= keys@.take(i as int).push(keys@[i as int]));
                assert forall|k: int| 0 <= k < i implies keys@.take(i as int)[k] != keys@[i as int] by {}
            }
            let ghost before = model::event_views(out@);
            match self.events.get(&keys[i]) {
                Some(event) => {
                    assert(event@ == all[keys@[i as int]]);
                    if does_overlap(event, range) {
                        let copy = event.clone();
                        assert forall|k: int| 0 <= k < out@.len() implies (
                        #[trigger] out@[k])@.schedule is Timed && out@[k].id != copy.id by {
                            assert(before[k] == out@[k]@);
                            assert(fits(before[k]));
                            assert(keys@.take(i as int).contains(before[k].id));
                        }
                        let place = put_in_order(&mut out, copy);
                        proof {
                            lemma_list_one(
                                before,
                                all,
                                keys@.take(i as int),
                                fits,
                                keys@[i as int],
                                place as int,
                            );
                        }
                    } else {
                        proof {
                            lemma_skip_one(before, all, keys@.take(i as int), fits, keys@[i as int]);
                        }
                    }
                },
                None => {
                    assert(false);
                },
            }
        }
        proof {
            assert(keys@.take(keys@.len() as int) =~= keys@);
            assert(all.dom() =~= self.events@.dom());
            lemma_listed_all(model::event_views(out@), all, keys@, fits);
        }
        out
    }
}

/// Whether a list holds the events that fit under some keys, each once.
spec fn is_listed(list: Seq<EventView>, all: Map<Uuid, EventView>, keys: Seq<Uuid>, fits: spec_fn(EventView) -> bool) -> bool {
    &&& forall|i: int|
        0 <= i < list.len() ==> keys.contains((#[trigger] list[i]).id) && all[list[i].id] == list[i]
            && fits(list[i])
    &&& forall|i: int, j: int| 0 <= i < j < list.len() ==> (#[trigger] list[i]).id != (#[trigger] list[j]).id
    &&& forall|k: int|
        0 <= k < keys.len() && fits(all[#[trigger] keys[k]]) ==> list.contains(all[keys[k]])
}

proof fn lemma_list_one(
    list: Seq<EventView>,
    all: Map<Uuid, EventView>,
    keys: Seq<Uuid>,
    fits: spec_fn(EventView) -> bool,
    key: Uuid,
    place: int,
)
    requires
        is_listed(list, all, keys, fits),
        !keys.contains(key),
        all[key].id == key,
        fits(all[key]),
        0 <= place <= list.len(),
    ensures
        is_listed(list.insert(place, all[key]), all, keys.push(key), fits),
{
    let after = list.insert(place, all[key]);
    let more = keys.push(key);
    assert(more[keys.len() as int] == key);
    assert forall|x: Uuid| keys.contains(x) implies more.contains(x) by {
        let i = choose|i: int| 0 <= i < keys.len() && keys[i] == x;
        assert(more[i] == x);
    }
    assert forall|i: int| 0 <= i < after.len() implies more.contains((#[trigger] after[i]).id)
        && all[after[i].id] == after[i] && fits(after[i]) by {
        if i < place {
            assert(after[i] == list[i]);
        } else if i > place {
            assert(after[i] == list[i - 1]);
        } else {
            assert(after[i] == all[key]);
        }
    }
    assert forall|i: int, j: int| 0 <= i < j < after.len() implies (#[trigger] after[i]).id != (
    #[trigger] after[j]).id by {
        let a = if i < place {
            i
        } else {
            i - 1
        };
        let b = if j < place {
            j
        } else {
            j - 1
        };
        if i == place {
            assert(after[j] == list[b]);
            assert(keys.contains(list[b].id));
        } else if j == place {
            assert(after[i] == list[a]);
            assert(keys.contains(list[a].id));
        } else {
            assert(after[i] == list[a] && after[j] == list[b]);
        }
    }
    assert forall|k: int| 0 <= k < more.len() && fits(all[#[trigger] more[k]]) implies after.contains(
        all[more[k]],
    ) by {
        if k < keys.len() {
            assert(keys[k] == more[k]);
            let i = choose|i: int| 0 <= i < list.len() && list[i] == all[keys[k]];
            if i < place {
                assert(after[i] == list[i]);
            } else {
                assert(after[i + 1] == list[i]);
            }
        } else {
            assert(after[place] == all[key]);
        }
    }
}

proof fn lemma_skip_one(
    list: Seq<EventView>,
    all: Map<Uuid, EventView>,
    keys: Seq<Uuid>,
    fits: spec_fn(EventView) -> bool,
    key: Uuid,
)
    requires
        is_listed(list, all, keys, fits),
        !fits(all[key]),
    ensures
        is_listed(list, all, keys.push(key), fits),
{
    let more = keys.push(key);
    assert forall|x: Uuid| keys.contains(x) implies more.contains(x) by {
        let i = choose|i: int| 0 <= i < keys.len() && keys[i] == x;
        assert(more[i] == x);
    }
    assert forall|k: int| 0 <= k < more.len() && fits(all[#[trigger] more[k]]) implies list.contains(
        all[more[k]],
    ) by {
        assert(keys[k] == more[k]);
    }
}

proof fn lemma_listed_all(
    list: Seq<EventView>,
    all: Map<Uuid, EventView>,
    keys: Seq<Uuid>,
    fits: spec_fn(EventView) -> bool,
)
    requires
        is_listed(list, all, keys, fits),
        keys.to_set() == all.dom(),
    ensures
        lists_values(list, all, event_id(), fits),
{
    assert forall|i: int| 0 <= i < list.len() implies all.contains_key(
        event_id()(#[trigger] list[i]),
    ) && all[event_id()(list[i])] == list[i] && fits(list[i]) by {
        assert(keys.to_set().contains(list[i].id));
    }
    assert forall|i: int, j: int| 0 <= i < j < list.len() implies event_id()(#[trigger] list[i])
        != event_id()(#[trigger] list[j]) by {
        assert(list[i].id != list[j].id);
    }
    assert forall|k: Uuid| #[trigger] all.contains_key(k) && fits(all[k]) implies exists|i: int|
        0 <= i < list.len() && #[trigger] list[i] == all[k] by {
        assert(keys.to_set().contains(k));
        let i = choose|i: int| 0 <= i < keys.len() && keys[i] == k;
        assert(fits(all[keys[i]]));
        assert(list.contains(all[keys[i]]));
    }
}

/// A deletion that is taken back leaves the event under its own identifier again, and every other
/// event as it is. Where nothing was changed since the deletion, all events are as before it.
pub proof fn law_deletion_is_taken_back(
    before: Map<Uuid, EventView>,
    id: Uuid,
    undo: DeletionView,
    later: Map<Uuid, EventView>,
)
    requires
        before.contains_key(id),
        undo.event == before[id],
        undo.event.id == id,
        !later.contains_key(id),
    ensures
        ({
            let restored = later.insert(undo.event.id, undo.event);
            &&& crate::backend::store::stored(restored, id) == Some(before[id])
            &&& forall|other: Uuid|
                other != id ==> crate::backend::store::stored(restored, other)
                    == #[trigger] crate::backend::store::stored(later, other)
            &&& later == before.remove(id) ==> restored == before
        }),
{
    let restored = later.insert(undo.event.id, undo.event);
    if later == before.remove(id) {
        assert(restored =~= before);
    }
}

/// Two lists of the same events in order are one list: the order leaves nothing open.
pub proof fn law_order_is_determined(a: Seq<EventView>, b: Seq<EventView>, all: Map<Uuid, EventView>, range: DateTimeRange)
    requires
        lists_values(a, all, event_id(), overlaps(range)),
        lists_values(b, all, event_id(), overlaps(range)),
        in_order(a),
        in_order(b),
    ensures
        a == b,
{
    lemma_order_is_determined(a, b, all, range, 0);
    lemma_order_is_determined(b, a, all, range, 0);
    if a.len() < b.len() {
        lemma_same_place(a, b, all, range, a.len() as int);
    } else if b.len() < a.len() {
        lemma_same_place(b, a, all, range, b.len() as int);
    }
    assert(a =~= b);
}

/// Where two lists agree on their first events, an event of the second beyond the first's end cannot
/// be.
proof fn lemma_same_place(a: Seq<EventView>, b: Seq<EventView>, all: Map<Uuid, EventView>, range: DateTimeRange, n: int)
    requires
        lists_values(a, all, event_id(), overlaps(range)),
        lists_values(b, all, event_id(), overlaps(range)),
        n == a.len(),
        forall|i: int| 0 <= i < n && i < b.len() ==> a[i] == b[i],
    ensures
        b.len() <= n,
{
    if n < b.len() {
        let x = b[n];
        assert(all.contains_key(event_id()(x)));
        let i = choose|i: int| 0 <= i < a.len() && #[trigger] a[i] == all[event_id()(x)];
        assert(a[i] == b[i]);
        assert(event_id()(b[i]) != event_id()(b[n]));
    }
}

proof fn lemma_order_is_determined(a: Seq<EventView>, b: Seq<EventView>, all: Map<Uuid, EventView>, range: DateTimeRange, n: int)
    requires
        lists_values(a, all, event_id(), overlaps(range)),
        lists_values(b, all, event_id(), overlaps(range)),
        in_order(a),
        in_order(b),
        0 <= n,
        forall|i: int| 0 <= i < n && i < a.len() && i < b.len() ==> a[i] == b[i],
    ensures
        forall|i: int| 0 <= i < a.len() && i < b.len() ==> a[i] == b[i],
    decreases a.len() - n,
{
    if n < a.len() && n < b.len() {
        if a[n] != b[n] {
            let x = a[n];
            let y = b[n];
            assert(all.contains_key(event_id()(x)));
            assert(all.contains_key(event_id()(y)));
            let i = choose|i: int| 0 <= i < b.len() && #[trigger] b[i] == all[event_id()(x)];
            let j = choose|j: int| 0 <= j < a.len() && #[trigger] a[j] == all[event_id()(y)];
            assert(b[i] == x);
            assert(a[j] == y);
            if i < n {
                assert(a[i] == b[i]);
                assert(event_id()(a[i]) != event_id()(a[n]));
            }
            if j < n {
                assert(a[j] == b[j]);
                assert(event_id()(b[j]) != event_id()(b[n]));
            }
            assert(comes_before(b[n], b[i]));
            assert(comes_before(a[n], a[j]));
            assert(false);
        }
        lemma_order_is_determined(a, b, all, range, n + 1);
    }
}

/// An event is listed for a range where it has times and shares an instant with the range; one on
/// whole days is not.
pub proof fn law_events_in_a_range(range: DateTimeRange, event: EventView)
    requires
        range.wf(),
        event.schedule.runs_forward(),
    ensures
        event.schedule is AllDay ==> !(overlaps(range))(event),
        event.schedule matches ScheduleView::Timed { start, end, .. } ==> ((overlaps(range))(event)
            <==> start@.before(range.end@) && range.start@.before(end@)),
{
}

/// Events are listed by their start, and those with one start by their identifiers.
pub proof fn law_order_of_listed_events(a: EventView, b: EventView)
    ensures
        a.schedule matches ScheduleView::Timed { start: first, .. } ==> b.schedule matches ScheduleView::Timed {
            start: second,
            ..
        } ==> {
            &&& first@.before(second@) ==> comes_before(a, b) && !comes_before(b, a)
            &&& first@.same_instant(second@) && a.id < b.id ==> comes_before(a, b) && !comes_before(b, a)
            &&& first@.same_instant(second@) && a.id == b.id ==> !comes_before(a, b)
        },
        (is_in(a.calendar_id))(a),
        a.calendar_id != b.calendar_id ==> !(is_in(a.calendar_id))(b),
{
}

/// A list of what is kept holds each value that fits once, and nothing else.
pub proof fn law_lists_of_what_is_kept<V>(
    list: Seq<V>,
    map: Map<Uuid, V>,
    id: spec_fn(V) -> Uuid,
    fits: spec_fn(V) -> bool,
    value: V,
)
    requires
        lists_values(list, map, id, fits),
    ensures
        list.no_duplicates(),
        list.contains(value) ==> fits(value) && map.contains_value(value),
        map.contains_value(value) && fits(value) ==> list.contains(value),
{
    if list.contains(value) {
        let i = choose|i: int| 0 <= i < list.len() && list[i] == value;
        assert(map.contains_key(id(list[i])) && map[id(list[i])] == list[i]);
    }
    if map.contains_value(value) && fits(value) {
        let k = choose|k: Uuid| #[trigger] map.dom().contains(k) && map[k] == value;
        assert(map.contains_key(k));
        let i = choose|i: int| 0 <= i < list.len() && #[trigger] list[i] == map[k];
        assert(list[i] == value);
    }
    assert forall|i: int, j: int| 0 <= i < list.len() && 0 <= j < list.len() && i != j implies list[i]
        != list[j] by {
        if i < j {
            assert(id(list[i]) != id(list[j]));
        } else {
            assert(id(list[j]) != id(list[i]));
        }
    }
}

} // verus!
