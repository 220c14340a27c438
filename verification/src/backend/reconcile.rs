//! Taking over what a server says of a calendar.
use vstd::prelude::*;

use crate::backend::caldav::{MappedEvent, MappedView, RecordView, ResourceRecord};
use crate::backend::exceptions;
use crate::backend::exceptions::Child;
use crate::backend::occurrences;
use crate::backend::series;
use crate::backend::store;
use crate::backend::store::{StoreView, StoreWrite, WriteView};
use crate::backend::RepositoryError;
use crate::lists;
use crate::model;
use crate::model::{Calendar, CalendarSource, CalendarSyncState, DetachedEvent, DetachedView, Event, EventSyncState, EventSyncView, EventView, PendingSyncOperation, PendingView, Uuid};
use crate::text;

verus! {

/// What a reconciliation changed.
#[derive(Clone, Copy, Debug, PartialEq, Eq, Structural)]
pub struct RemoteSnapshotSummary {
    pub added: usize,
    pub updated: usize,
    pub deleted: usize,
    pub skipped: usize,
}

/// What became of one resource, or of one event that the server no longer lists.
#[derive(Clone, Copy, Debug, PartialEq, Eq, Structural)]
pub enum Outcome {
    Added,
    Updated,
    Deleted,
    Skipped,
}

/// How many outcomes of a list are `wanted`.
pub open spec fn count(outcomes: Seq<Outcome>, wanted: Outcome) -> int
    decreases outcomes.len(),
{
    if outcomes.len() == 0 {
        0
    } else {
        count(outcomes.drop_last(), wanted) + if outcomes.last() == wanted {
            1int
        } else {
            0int
        }
    }
}

/// Every outcome is counted once.
pub proof fn lemma_counts(outcomes: Seq<Outcome>)
    ensures
        count(outcomes, Outcome::Added) >= 0,
        count(outcomes, Outcome::Updated) >= 0,
        count(outcomes, Outcome::Deleted) >= 0,
        count(outcomes, Outcome::Skipped) >= 0,
        count(outcomes, Outcome::Added) + count(outcomes, Outcome::Updated) + count(
            outcomes,
            Outcome::Deleted,
        ) + count(outcomes, Outcome::Skipped) == outcomes.len(),
    decreases outcomes.len(),
{
    if outcomes.len() > 0 {
        lemma_counts(outcomes.drop_last());
    }
}

/// One more outcome.
proof fn lemma_count_push(outcomes: Seq<Outcome>, outcome: Outcome, wanted: Outcome)
    ensures
        count(outcomes.push(outcome), wanted) == count(outcomes, wanted) + if outcome == wanted {
            1int
        } else {
            0int
        },
{
    assert(outcomes.push(outcome).drop_last() =~= outcomes);
}

impl RemoteSnapshotSummary {
    /// Whether the summary counts a list of outcomes.
    pub open spec fn counts(self, outcomes: Seq<Outcome>) -> bool {
        &&& self.added == count(outcomes, Outcome::Added)
        &&& self.updated == count(outcomes, Outcome::Updated)
        &&& self.deleted == count(outcomes, Outcome::Deleted)
        &&& self.skipped == count(outcomes, Outcome::Skipped)
    }

    /// A summary of nothing.
    pub fn empty() -> (r: RemoteSnapshotSummary)
        ensures
            r.counts(seq![]),
    {
        RemoteSnapshotSummary { added: 0, updated: 0, deleted: 0, skipped: 0 }
    }

    /// The summary with one more outcome.
    fn with(self, outcome: Outcome, Ghost(outcomes): Ghost<Seq<Outcome>>) -> (r: RemoteSnapshotSummary)
        requires
            self.counts(outcomes),
            outcomes.len() < usize::MAX,
        ensures
            r.counts(outcomes.push(outcome)),
    {
        proof {
            lemma_counts(outcomes);
            lemma_count_push(outcomes, outcome, Outcome::Added);
            lemma_count_push(outcomes, outcome, Outcome::Updated);
            lemma_count_push(outcomes, outcome, Outcome::Deleted);
            lemma_count_push(outcomes, outcome, Outcome::Skipped);
        }
        let mut r = self;
        match outcome {
            Outcome::Added => {
                r.added = r.added + 1;
            },
            Outcome::Updated => {
                r.updated = r.updated + 1;
            },
            Outcome::Deleted => {
                r.deleted = r.deleted + 1;
            },
            Outcome::Skipped => {
                r.skipped = r.skipped + 1;
            },
        }
        r
    }
}

// ---------------------------------------------------------------------------------------------
// What is known of the calendar
// ---------------------------------------------------------------------------------------------

/// What is stored of a remote calendar.
pub struct RemoteRecord {
    pub calendar_id: Uuid,
    /// The calendar, where it is there.
    pub calendar: Option<Calendar>,
    /// Where the calendar is on its server.
    pub sync_state: Option<CalendarSyncState>,
    /// The changes of the calendar that wait for their upload.
    pub pending: Vec<PendingSyncOperation>,
    /// The remote identities of the events of the calendar.
    pub states: Vec<EventSyncState>,
}

/// Whether the calendar is there and kept on a server.
pub open spec fn is_remote(record: RemoteRecord) -> bool {
    record.calendar matches Some(calendar) && calendar.source is CalDav
}

/// Whether the calendar is there and kept on a server.
fn check_remote(record: &RemoteRecord) -> (r: bool)
    ensures
        r == is_remote(*record),
{
    match &record.calendar {
        Some(calendar) => match calendar.source {
            CalendarSource::CalDav { .. } => true,
            CalendarSource::Local => false,
        },
        None => false,
    }
}

/// The address that a waiting change was made against: none for an event that is new.
pub open spec fn protected_href(operation: PendingView) -> Option<Seq<char>> {
    match operation {
        PendingView::Create { .. } => None,
        PendingView::Update { remote_href, .. } => Some(remote_href),
        PendingView::Delete { remote_href, .. } => Some(remote_href),
    }
}

/// The event that a waiting change was made to: none for an event that is new.
pub open spec fn protected_event(operation: PendingView) -> Option<Uuid> {
    match operation {
        PendingView::Create { .. } => None,
        PendingView::Update { event_id, .. } => Some(event_id),
        PendingView::Delete { event_id, .. } => Some(event_id),
    }
}

/// Whether a local change of the resource at an address waits for its upload.
pub open spec fn is_protected_href(pending: Seq<PendingView>, href: Seq<char>) -> bool {
    exists|i: int| 0 <= i < pending.len() && protected_href(#[trigger] pending[i]) == Some(href)
}

/// Whether a local change of an event that the server knows waits for its upload.
pub open spec fn is_protected_event(pending: Seq<PendingView>, id: Uuid) -> bool {
    exists|i: int| 0 <= i < pending.len() && protected_event(#[trigger] pending[i]) == Some(id)
}

/// Whether a local change of the resource at an address waits for its upload.
fn check_protected_href(pending: &Vec<PendingSyncOperation>, href: &str) -> (r: bool)
    ensures
        r == is_protected_href(lists::views_of(pending@), href@),
{
    let ghost all = lists::views_of(pending@);
    for i in 0..pending.len()
        invariant
            all == lists::views_of(pending@),
            forall|k: int| 0 <= k < i ==> protected_href(#[trigger] all[k]) != Some(href@),
    {
        assert(all[i as int] == pending@[i as int]@);
        let found = match &pending[i] {
            PendingSyncOperation::Create { .. } => false,
            PendingSyncOperation::Update { remote_href, .. } => text::same_text(
                remote_href.as_str(),
                href,
            ),
            PendingSyncOperation::Delete { remote_href, .. } => text::same_text(
                remote_href.as_str(),
                href,
            ),
        };
        if found {
            return true;
        }
    }
    false
}

/// Whether a local change of an event that the server knows waits for its upload.
fn check_protected_event(pending: &Vec<PendingSyncOperation>, id: Uuid) -> (r: bool)
    ensures
        r == is_protected_event(lists::views_of(pending@), id),
{
    let ghost all = lists::views_of(pending@);
    for i in 0..pending.len()
        invariant
            all == lists::views_of(pending@),
            forall|k: int| 0 <= k < i ==> protected_event(#[trigger] all[k]) != Some(id),
    {
        assert(all[i as int] == pending@[i as int]@);
        let found = match &pending[i] {
            PendingSyncOperation::Create { .. } => false,
            PendingSyncOperation::Update { event_id, .. } => *event_id == id,
            PendingSyncOperation::Delete { event_id, .. } => *event_id == id,
        };
        if found {
            return true;
        }
    }
    false
}

/// The remote identity of the event that was read from an address: the last one that is noted.
pub open spec fn tracked_at(states: Seq<EventSyncView>, href: Seq<char>) -> Option<EventSyncView>
    decreases states.len(),
{
    if states.len() == 0 {
        None
    } else if states.last().remote_href == href {
        Some(states.last())
    } else {
        tracked_at(states.drop_last(), href)
    }
}

/// The remote identity that was found is one that is noted.
proof fn lemma_tracked_at(states: Seq<EventSyncView>, href: Seq<char>)
    ensures
        tracked_at(states, href) matches Some(state) ==> (state.remote_href == href && exists|i: int|
            0 <= i < states.len() && #[trigger] states[i] == state),
    decreases states.len(),
{
    if states.len() > 0 {
        if states.last().remote_href == href {
            assert(states[states.len() - 1] == states.last());
        } else {
            lemma_tracked_at(states.drop_last(), href);
            if tracked_at(states.drop_last(), href) is Some {
                let state = tracked_at(states.drop_last(), href)->0;
                let i = choose|i: int|
                    0 <= i < states.drop_last().len() && #[trigger] states.drop_last()[i] == state;
                assert(states[i] == state);
            }
        }
    }
}

/// The remote identity of the event that was read from an address.
fn find_tracked(states: &Vec<EventSyncState>, href: &str) -> (r: Option<EventSyncState>)
    ensures
        lists::view_of(r) == tracked_at(lists::views_of(states@), href@),
{
    let ghost all = lists::views_of(states@);
    let mut i: usize = states.len();
    assert(all.take(all.len() as int) =~= all);
    while i > 0
        invariant
            i <= states@.len(),
            all == lists::views_of(states@),
            tracked_at(all, href@) == tracked_at(all.take(i as int), href@),
        decreases i,
    {
        i -= 1;
        assert(all.take(i + 1).last() == states@[i as int]@);
        assert(all.take(i + 1).drop_last() =~= all.take(i as int));
        if text::same_text(states[i].remote_href.as_str(), href) {
            return Some(states[i].clone());
        }
    }
    None
}

// ---------------------------------------------------------------------------------------------
// Replacing the exceptions of an event
// ---------------------------------------------------------------------------------------------

/// The writes that give an event new exceptions in place of those that it has.
pub open spec fn replacement_writes(master_id: Uuid, exceptions: Seq<(Uuid, DetachedView)>) -> Seq<
    WriteView,
> {
    seq![WriteView::DeleteDetachedOf { master_id }] + series::child_inserts(exceptions, master_id)
}

/// Put the writes that replace the exceptions of an event at the end of a list.
fn push_replacement(writes: &mut Vec<StoreWrite>, master_id: Uuid, exceptions: &Vec<Child>)
    ensures
        store::write_views(final(writes)@) == store::write_views(old(writes)@) + replacement_writes(
            master_id,
            exceptions::child_views(exceptions@),
        ),
{
    let ghost before = store::write_views(writes@);
    let ghost all = exceptions::child_views(exceptions@);
    let ghost removal = seq![WriteView::DeleteDetachedOf { master_id }];
    proof {
        store::lemma_write_views_push(writes@, StoreWrite::DeleteDetachedOf { master_id });
    }
    writes.push(StoreWrite::DeleteDetachedOf { master_id });
    assert(store::write_views(writes@) =~= before + (removal + series::child_inserts(
        all.take(0),
        master_id,
    )));
    for i in 0..exceptions.len()
        invariant
            all == exceptions::child_views(exceptions@),
            removal == seq![WriteView::DeleteDetachedOf { master_id }],
            store::write_views(writes@) == before + (removal + series::child_inserts(
                all.take(i as int),
                master_id,
            )),
    {
        let write = StoreWrite::InsertDetached {
            id: exceptions[i].0,
            master_id,
            detached: exceptions[i].1.clone(),
        };
        proof {
            store::lemma_write_views_push(writes@, write);
            assert(all[i as int] == (exceptions@[i as int].0, exceptions@[i as int].1@));
            assert(series::child_inserts(all.take(i + 1), master_id) =~= series::child_inserts(
                all.take(i as int),
                master_id,
            ).push(write@));
        }
        writes.push(write);
        assert(store::write_views(writes@) =~= before + (removal + series::child_inserts(
            all.take(i + 1),
            master_id,
        )));
    }
    assert(all.take(all.len() as int) =~= all);
}

/// The exceptions without their identifiers.
fn detached_of(exceptions: &Vec<Child>) -> (r: Vec<DetachedEvent>)
    ensures
        model::detached_views(r@) == series::detached_of(exceptions::child_views(exceptions@)),
{
    let ghost all = exceptions::child_views(exceptions@);
    let mut out: Vec<DetachedEvent> = Vec::new();
    for i in 0..exceptions.len()
        invariant
            all == exceptions::child_views(exceptions@),
            model::detached_views(out@) == series::detached_of(all.take(i as int)),
    {
        let ghost before = out@;
        out.push(exceptions[i].1.clone());
        assert(all[i as int] == (exceptions@[i as int].0, exceptions@[i as int].1@));
        assert(model::detached_views(out@) =~= model::detached_views(before).push(
            exceptions@[i as int].1@,
        ));
        assert(series::detached_of(all.take(i + 1)) =~= series::detached_of(
            all.take(i as int),
        ).push(exceptions@[i as int].1@));
    }
    assert(all.take(all.len() as int) =~= all);
    out
}

/// Give an event new exceptions in place of those that it has: refused where two of them are the
/// same, or the event is missing.
pub fn replace_detached_events(master_exists: bool, master_id: Uuid, exceptions: &Vec<Child>) -> (r:
    Result<Vec<StoreWrite>, RepositoryError>)
    ensures
        match r {
            Ok(writes) => master_exists && occurrences::are_distinct(
                series::detached_of(exceptions::child_views(exceptions@)),
            ) && store::write_views(writes@) == replacement_writes(
                master_id,
                exceptions::child_views(exceptions@),
            ),
            Err(_) => !master_exists || !occurrences::are_distinct(
                series::detached_of(exceptions::child_views(exceptions@)),
            ),
        },
{
    let detached = detached_of(exceptions);
    if !occurrences::detached_events_are_valid(&detached) {
        return Err(RepositoryError);
    }
    if !master_exists {
        return Err(RepositoryError);
    }
    let mut writes: Vec<StoreWrite> = Vec::new();
    push_replacement(&mut writes, master_id, exceptions);
    assert(store::write_views(writes@) =~= replacement_writes(
        master_id,
        exceptions::child_views(exceptions@),
    ));
    Ok(writes)
}

// ---------------------------------------------------------------------------------------------
// One resource
// ---------------------------------------------------------------------------------------------

/// What a resource holds: an event, and its exceptions with identifiers for them.
#[derive(Debug)]
pub struct MappedResource {
    pub master: MappedEvent,
    pub exceptions: Vec<Child>,
}

/// A resource as a server describes it, with what could be read from it.
#[derive(Debug)]
pub struct IncomingResource {
    pub record: ResourceRecord,
    /// The identifier that its event gets where the event is new.
    pub fresh_id: Uuid,
    /// What its calendar data hold, where they can be read.
    pub mapped: Option<MappedResource>,
}

/// The values of a [`MappedResource`].
pub struct ContentView {
    pub master: MappedView,
    pub exceptions: Seq<(Uuid, DetachedView)>,
}

/// The values of an [`IncomingResource`].
pub struct IncomingView {
    pub record: RecordView,
    pub fresh_id: Uuid,
    pub mapped: Option<ContentView>,
}

impl View for MappedResource {
    type V = ContentView;

    open spec fn view(&self) -> ContentView {
        ContentView {
            master: self.master@,
            exceptions: exceptions::child_views(self.exceptions@),
        }
    }
}

impl View for IncomingResource {
    type V = IncomingView;

    open spec fn view(&self) -> IncomingView {
        IncomingView {
            record: self.record@,
            fresh_id: self.fresh_id,
            mapped: lists::view_of(self.mapped),
        }
    }
}

/// Whether a resource was answered with success, or without a status of its own.
pub open spec fn is_success(status: Option<u16>) -> bool {
    status matches Some(status) ==> 200 <= status < 300
}

/// The event of a resource, as it is stored.
pub open spec fn taken_event(calendar_id: Uuid, event_id: Uuid, content: ContentView) -> EventView {
    EventView { id: event_id, calendar_id, ..content.master.event }
}

/// The remote identity of the event of a resource.
pub open spec fn taken_state(
    calendar_id: Uuid,
    event_id: Uuid,
    record: RecordView,
    content: ContentView,
) -> EventSyncView {
    EventSyncView {
        calendar_id,
        event_id,
        remote_href: record.href,
        remote_uid: content.master.remote_uid,
        etag: record.etag,
    }
}

/// The writes that take over the event of a resource.
pub open spec fn taken_writes(
    calendar_id: Uuid,
    states: Option<EventSyncView>,
    incoming: IncomingView,
    content: ContentView,
) -> Seq<WriteView> {
    let event_id = match states {
        Some(state) => state.event_id,
        None => incoming.fresh_id,
    };
    let removal: Seq<WriteView> = match states {
        Some(state) => seq![WriteView::RemoveRemoteEvent { state }],
        None => seq![],
    };
    removal + seq![
        WriteView::InsertEvent { event: taken_event(calendar_id, event_id, content) },
        WriteView::PutEventSync {
            state: taken_state(calendar_id, event_id, incoming.record, content),
        },
    ] + replacement_writes(event_id, content.exceptions)
}

/// What becomes of a resource: one whose local change waits is left alone, one that is gone is
/// removed here too, and one that cannot be read is passed over.
pub open spec fn resource_step(
    calendar_id: Uuid,
    pending: Seq<PendingView>,
    states: Seq<EventSyncView>,
    incoming: IncomingView,
) -> (Outcome, Seq<WriteView>) {
    let known = tracked_at(states, incoming.record.href);
    if is_protected_href(pending, incoming.record.href) {
        (Outcome::Skipped, seq![])
    } else if incoming.record.response_status == Some(404u16) {
        match known {
            Some(state) => (Outcome::Deleted, seq![WriteView::RemoveRemoteEvent { state }]),
            None => (Outcome::Skipped, seq![]),
        }
    } else if !is_success(incoming.record.response_status) || incoming.record.calendar_data is None {
        (Outcome::Skipped, seq![])
    } else {
        match incoming.mapped {
            Some(content) => if occurrences::are_distinct(series::detached_of(content.exceptions)) {
                (
                    if known is Some {
                        Outcome::Updated
                    } else {
                        Outcome::Added
                    },
                    taken_writes(calendar_id, known, incoming, content),
                )
            } else {
                (Outcome::Skipped, seq![])
            },
            None => (Outcome::Skipped, seq![]),
        }
    }
}

/// Put the writes that take over the event of a resource at the end of a list.
fn push_taken(
    writes: &mut Vec<StoreWrite>,
    calendar_id: Uuid,
    known: &Option<EventSyncState>,
    incoming: &IncomingResource,
    content: &MappedResource,
)
    ensures
        store::write_views(final(writes)@) == store::write_views(old(writes)@) + taken_writes(
            calendar_id,
            lists::view_of(*known),
            incoming@,
            content@,
        ),
{
    let ghost before = store::write_views(writes@);
    let event_id = match known {
        Some(state) => state.event_id,
        None => incoming.fresh_id,
    };
    let ghost removal: Seq<WriteView> = match lists::view_of(*known) {
        Some(state) => seq![WriteView::RemoveRemoteEvent { state }],
        None => seq![],
    };
    if let Some(state) = known {
        let write = StoreWrite::RemoveRemoteEvent { state: state.clone() };
        proof {
            store::lemma_write_views_push(writes@, write);
        }
        writes.push(write);
    }
    assert(store::write_views(writes@) =~= before + removal);
    let mapped = &content.master.event;
    let event = Event {
        id: event_id,
        calendar_id,
        title: mapped.title.clone(),
        location: mapped.location.clone(),
        description: mapped.description.clone(),
        schedule: mapped.schedule.clone(),
        recurrence: model::copy_recurrence(&mapped.recurrence),
        reminders: model::copy_reminders(&mapped.reminders),
    };
    let state = EventSyncState {
        calendar_id,
        event_id,
        remote_href: incoming.record.href.clone(),
        remote_uid: content.master.remote_uid.clone(),
        etag: model::copy_text(&incoming.record.etag),
    };
    let ghost inserted = WriteView::InsertEvent { event: event@ };
    let ghost noted = WriteView::PutEventSync { state: state@ };
    let write = StoreWrite::InsertEvent { event };
    proof {
        store::lemma_write_views_push(writes@, write);
    }
    writes.push(write);
    let write = StoreWrite::PutEventSync { state };
    proof {
        store::lemma_write_views_push(writes@, write);
    }
    writes.push(write);
    assert(store::write_views(writes@) =~= before + removal + seq![inserted, noted]);
    push_replacement(writes, event_id, &content.exceptions);
    assert(store::write_views(writes@) =~= before + taken_writes(
        calendar_id,
        lists::view_of(*known),
        incoming@,
        content@,
    ));
}

/// What becomes of a resource. Its writes go to the end of a list.
fn take_resource(writes: &mut Vec<StoreWrite>, record: &RemoteRecord, incoming: &IncomingResource) -> (r:
    Outcome)
    ensures
        ({
            let step = resource_step(
                record.calendar_id,
                lists::views_of(record.pending@),
                lists::views_of(record.states@),
                incoming@,
            );
            r == step.0 && store::write_views(final(writes)@) == store::write_views(old(writes)@)
                + step.1
        }),
{
    assert(store::write_views(writes@) + seq![] =~= store::write_views(writes@));
    let href = incoming.record.href.as_str();
    if check_protected_href(&record.pending, href) {
        return Outcome::Skipped;
    }
    let known = find_tracked(&record.states, href);
    if let Some(status) = incoming.record.response_status {
        if status == 404 {
            return match known {
                Some(state) => {
                    let write = StoreWrite::RemoveRemoteEvent { state };
                    proof {
                        store::lemma_write_views_push(writes@, write);
                    }
                    writes.push(write);
                    assert(store::write_views(writes@) =~= store::write_views(old(writes)@)
                        + seq![write@]);
                    Outcome::Deleted
                },
                None => Outcome::Skipped,
            };
        }
        if status < 200 || status >= 300 {
            return Outcome::Skipped;
        }
    }
    if incoming.record.calendar_data.is_none() {
        return Outcome::Skipped;
    }
    match &incoming.mapped {
        Some(content) => {
            let detached = detached_of(&content.exceptions);
            if !occurrences::detached_events_are_valid(&detached) {
                return Outcome::Skipped;
            }
            push_taken(writes, record.calendar_id, &known, incoming, content);
            if known.is_some() {
                Outcome::Updated
            } else {
                Outcome::Added
            }
        },
        None => Outcome::Skipped,
    }
}

// ---------------------------------------------------------------------------------------------
// All the resources
// ---------------------------------------------------------------------------------------------

/// What becomes of each resource of a list.
pub open spec fn resource_outcomes(
    calendar_id: Uuid,
    pending: Seq<PendingView>,
    states: Seq<EventSyncView>,
    resources: Seq<IncomingView>,
) -> Seq<Outcome> {
    Seq::new(
        resources.len(),
        |i: int| resource_step(calendar_id, pending, states, resources[i]).0,
    )
}

/// The writes for each resource of a list, one after the other.
pub open spec fn resource_writes(
    calendar_id: Uuid,
    pending: Seq<PendingView>,
    states: Seq<EventSyncView>,
    resources: Seq<IncomingView>,
) -> Seq<WriteView>
    decreases resources.len(),
{
    if resources.len() == 0 {
        seq![]
    } else {
        resource_writes(calendar_id, pending, states, resources.drop_last()) + resource_step(
            calendar_id,
            pending,
            states,
            resources.last(),
        ).1
    }
}

/// What becomes of each resource of a list, and the writes for them.
fn take_resources(record: &RemoteRecord, resources: &Vec<IncomingResource>) -> (r: (
    Vec<StoreWrite>,
    RemoteSnapshotSummary,
))
    ensures
        store::write_views(r.0@) == resource_writes(
            record.calendar_id,
            lists::views_of(record.pending@),
            lists::views_of(record.states@),
            lists::views_of(resources@),
        ),
        r.1.counts(
            resource_outcomes(
                record.calendar_id,
                lists::views_of(record.pending@),
                lists::views_of(record.states@),
                lists::views_of(resources@),
            ),
        ),
{
    let ghost all = lists::views_of(resources@);
    let ghost pending = lists::views_of(record.pending@);
    let ghost states = lists::views_of(record.states@);
    let ghost id = record.calendar_id;
    let mut writes: Vec<StoreWrite> = Vec::new();
    let mut summary = RemoteSnapshotSummary::empty();
    assert(store::write_views(writes@) =~= seq![]);
    assert(resource_outcomes(id, pending, states, all.take(0)) =~= seq![]);
    for i in 0..resources.len()
        invariant
            all == lists::views_of(resources@),
            pending == lists::views_of(record.pending@),
            states == lists::views_of(record.states@),
            id == record.calendar_id,
            store::write_views(writes@) == resource_writes(id, pending, states, all.take(i as int)),
            summary.counts(resource_outcomes(id, pending, states, all.take(i as int))),
    {
        let outcome = take_resource(&mut writes, record, &resources[i]);
        summary = summary.with(
            outcome,
            Ghost(resource_outcomes(id, pending, states, all.take(i as int))),
        );
        proof {
            assert(all[i as int] == resources@[i as int]@);
            assert(all.take(i + 1).drop_last() =~= all.take(i as int));
            assert(resource_outcomes(id, pending, states, all.take(i + 1)) =~= resource_outcomes(
                id,
                pending,
                states,
                all.take(i as int),
            ).push(outcome));
        }
    }
    assert(all.take(all.len() as int) =~= all);
    (writes, summary)
}

// ---------------------------------------------------------------------------------------------
// Events that the server no longer lists
// ---------------------------------------------------------------------------------------------

/// Whether a list of resources names an address.
pub open spec fn is_listed(resources: Seq<IncomingView>, href: Seq<char>) -> bool {
    exists|i: int| 0 <= i < resources.len() && (#[trigger] resources[i]).record.href == href
}

/// Whether a list of resources names an address.
fn check_listed(resources: &Vec<IncomingResource>, href: &str) -> (r: bool)
    ensures
        r == is_listed(lists::views_of(resources@), href@),
{
    let ghost all = lists::views_of(resources@);
    for i in 0..resources.len()
        invariant
            all == lists::views_of(resources@),
            forall|k: int| 0 <= k < i ==> (#[trigger] all[k]).record.href != href@,
    {
        assert(all[i as int] == resources@[i as int]@);
        if text::same_text(resources[i].record.href.as_str(), href) {
            return true;
        }
    }
    false
}

/// Whether a local change of an event waits for its upload.
pub open spec fn is_protected(pending: Seq<PendingView>, state: EventSyncView) -> bool {
    is_protected_href(pending, state.remote_href) || is_protected_event(pending, state.event_id)
}

/// What becomes of the events that the server no longer lists: each is removed, unless a local
/// change of it waits.
pub open spec fn unlisted_outcomes(
    pending: Seq<PendingView>,
    resources: Seq<IncomingView>,
    states: Seq<EventSyncView>,
) -> Seq<Outcome>
    decreases states.len(),
{
    if states.len() == 0 {
        seq![]
    } else {
        let before = unlisted_outcomes(pending, resources, states.drop_last());
        if is_listed(resources, states.last().remote_href) {
            before
        } else if is_protected(pending, states.last()) {
            before.push(Outcome::Skipped)
        } else {
            before.push(Outcome::Deleted)
        }
    }
}

/// The writes that remove the events that the server no longer lists.
pub open spec fn unlisted_writes(
    pending: Seq<PendingView>,
    resources: Seq<IncomingView>,
    states: Seq<EventSyncView>,
) -> Seq<WriteView>
    decreases states.len(),
{
    if states.len() == 0 {
        seq![]
    } else {
        let before = unlisted_writes(pending, resources, states.drop_last());
        if is_listed(resources, states.last().remote_href) || is_protected(pending, states.last()) {
            before
        } else {
            before.push(WriteView::RemoveRemoteEvent { state: states.last() })
        }
    }
}

/// There is at most one outcome for each event.
proof fn lemma_unlisted_length(
    pending: Seq<PendingView>,
    resources: Seq<IncomingView>,
    states: Seq<EventSyncView>,
)
    ensures
        unlisted_outcomes(pending, resources, states).len() <= states.len(),
    decreases states.len(),
{
    if states.len() > 0 {
        lemma_unlisted_length(pending, resources, states.drop_last());
    }
}

/// Put the writes that remove the events that the server no longer lists at the end of a list.
fn drop_unlisted(
    writes: &mut Vec<StoreWrite>,
    summary: RemoteSnapshotSummary,
    record: &RemoteRecord,
    resources: &Vec<IncomingResource>,
    Ghost(outcomes): Ghost<Seq<Outcome>>,
) -> (r: RemoteSnapshotSummary)
    requires
        summary.counts(outcomes),
        outcomes.len() == resources@.len(),
        resources@.len() + record.states@.len() <= usize::MAX,
    ensures
        store::write_views(final(writes)@) == store::write_views(old(writes)@) + unlisted_writes(
            lists::views_of(record.pending@),
            lists::views_of(resources@),
            lists::views_of(record.states@),
        ),
        r.counts(
            outcomes + unlisted_outcomes(
                lists::views_of(record.pending@),
                lists::views_of(resources@),
                lists::views_of(record.states@),
            ),
        ),
{
    let ghost before = store::write_views(writes@);
    let ghost pending = lists::views_of(record.pending@);
    let ghost listed = lists::views_of(resources@);
    let ghost all = lists::views_of(record.states@);
    let mut summary = summary;
    assert(before + unlisted_writes(pending, listed, all.take(0)) =~= before);
    assert(outcomes + unlisted_outcomes(pending, listed, all.take(0)) =~= outcomes);
    for i in 0..record.states.len()
        invariant
            pending == lists::views_of(record.pending@),
            listed == lists::views_of(resources@),
            all == lists::views_of(record.states@),
            outcomes.len() == resources@.len(),
            resources@.len() + record.states@.len() <= usize::MAX,
            store::write_views(writes@) == before + unlisted_writes(
                pending,
                listed,
                all.take(i as int),
            ),
            summary.counts(outcomes + unlisted_outcomes(pending, listed, all.take(i as int))),
    {
        let state = &record.states[i];
        let ghost so_far = unlisted_outcomes(pending, listed, all.take(i as int));
        proof {
            assert(all[i as int] == record.states@[i as int]@);
            assert(all.take(i + 1).drop_last() =~= all.take(i as int));
            lemma_unlisted_length(pending, listed, all.take(i as int));
        }
        let href = state.remote_href.as_str();
        if !check_listed(resources, href) {
            if check_protected_href(&record.pending, href) || check_protected_event(
                &record.pending,
                state.event_id,
            ) {
                summary = summary.with(Outcome::Skipped, Ghost(outcomes + so_far));
                assert((outcomes + so_far).push(Outcome::Skipped) =~= outcomes + so_far.push(
                    Outcome::Skipped,
                ));
            } else {
                summary = summary.with(Outcome::Deleted, Ghost(outcomes + so_far));
                assert((outcomes + so_far).push(Outcome::Deleted) =~= outcomes + so_far.push(
                    Outcome::Deleted,
                ));
                let write = StoreWrite::RemoveRemoteEvent { state: state.clone() };
                proof {
                    store::lemma_write_views_push(writes@, write);
                }
                writes.push(write);
                assert(store::write_views(writes@) =~= before + unlisted_writes(
                    pending,
                    listed,
                    all.take(i + 1),
                ));
            }
        }
    }
    assert(all.take(all.len() as int) =~= all);
    summary
}

// ---------------------------------------------------------------------------------------------
// Whole reconciliations
// ---------------------------------------------------------------------------------------------

/// The writes that make a calendar what a complete list of its resources says.
pub open spec fn snapshot_writes(
    calendar_id: Uuid,
    pending: Seq<PendingView>,
    states: Seq<EventSyncView>,
    resources: Seq<IncomingView>,
    clear_sync_token: bool,
) -> Seq<WriteView> {
    resource_writes(calendar_id, pending, states, resources) + unlisted_writes(
        pending,
        resources,
        states,
    ) + if clear_sync_token {
        seq![WriteView::SetSyncToken { calendar_id, sync_token: None }]
    } else {
        seq![]
    }
}

/// What becomes of each resource of a complete list, and of each event that it does not name.
pub open spec fn snapshot_outcomes(
    calendar_id: Uuid,
    pending: Seq<PendingView>,
    states: Seq<EventSyncView>,
    resources: Seq<IncomingView>,
) -> Seq<Outcome> {
    resource_outcomes(calendar_id, pending, states, resources) + unlisted_outcomes(
        pending,
        resources,
        states,
    )
}

/// Make a calendar what a complete list of its resources says. Where `clear_sync_token` is set, how
/// far its changes were read is forgotten, which is refused where the calendar has no address.
/// Refused for a calendar that is missing or local.
pub fn reconcile_remote_snapshot_inner(
    record: &RemoteRecord,
    resources: &Vec<IncomingResource>,
    clear_sync_token: bool,
) -> (r: Result<(Vec<StoreWrite>, RemoteSnapshotSummary), RepositoryError>)
    requires
        resources@.len() + record.states@.len() <= usize::MAX,
    ensures
        match r {
            Ok((writes, summary)) => is_remote(*record) && (clear_sync_token ==> record.sync_state
                is Some) && store::write_views(writes@) == snapshot_writes(
                record.calendar_id,
                lists::views_of(record.pending@),
                lists::views_of(record.states@),
                lists::views_of(resources@),
                clear_sync_token,
            ) && summary.counts(
                snapshot_outcomes(
                    record.calendar_id,
                    lists::views_of(record.pending@),
                    lists::views_of(record.states@),
                    lists::views_of(resources@),
                ),
            ),
            Err(_) => !is_remote(*record) || (clear_sync_token && record.sync_state is None),
        },
{
    if !check_remote(record) {
        return Err(RepositoryError);
    }
    if clear_sync_token && record.sync_state.is_none() {
        return Err(RepositoryError);
    }
    let ghost pending = lists::views_of(record.pending@);
    let ghost states = lists::views_of(record.states@);
    let ghost listed = lists::views_of(resources@);
    let ghost outcomes = resource_outcomes(record.calendar_id, pending, states, listed);
    let (taken, summary) = take_resources(record, resources);
    let mut writes = taken;
    let summary = drop_unlisted(&mut writes, summary, record, resources, Ghost(outcomes));
    if clear_sync_token {
        let write = StoreWrite::SetSyncToken { calendar_id: record.calendar_id, sync_token: None };
        proof {
            store::lemma_write_views_push(writes@, write);
        }
        writes.push(write);
    }
    assert(store::write_views(writes@) =~= snapshot_writes(
        record.calendar_id,
        pending,
        states,
        listed,
        clear_sync_token,
    ));
    Ok((writes, summary))
}

/// Make a calendar what a complete list of its resources says.
pub fn reconcile_remote_snapshot(record: &RemoteRecord, resources: &Vec<IncomingResource>) -> (r: Result<
    (Vec<StoreWrite>, RemoteSnapshotSummary),
    RepositoryError,
>)
    requires
        resources@.len() + record.states@.len() <= usize::MAX,
    ensures
        match r {
            Ok((writes, summary)) => is_remote(*record) && store::write_views(writes@)
                == snapshot_writes(
                record.calendar_id,
                lists::views_of(record.pending@),
                lists::views_of(record.states@),
                lists::views_of(resources@),
                false,
            ) && summary.counts(
                snapshot_outcomes(
                    record.calendar_id,
                    lists::views_of(record.pending@),
                    lists::views_of(record.states@),
                    lists::views_of(resources@),
                ),
            ),
            Err(_) => !is_remote(*record),
        },
{
    reconcile_remote_snapshot_inner(record, resources, false)
}

/// Make a calendar what a complete list of its resources says, and forget how far its changes were
/// read.
pub fn reconcile_remote_snapshot_clearing_sync_token(
    record: &RemoteRecord,
    resources: &Vec<IncomingResource>,
) -> (r: Result<(Vec<StoreWrite>, RemoteSnapshotSummary), RepositoryError>)
    requires
        resources@.len() + record.states@.len() <= usize::MAX,
    ensures
        match r {
            Ok((writes, summary)) => is_remote(*record) && record.sync_state is Some
                && store::write_views(writes@) == snapshot_writes(
                record.calendar_id,
                lists::views_of(record.pending@),
                lists::views_of(record.states@),
                lists::views_of(resources@),
                true,
            ) && summary.counts(
                snapshot_outcomes(
                    record.calendar_id,
                    lists::views_of(record.pending@),
                    lists::views_of(record.states@),
                    lists::views_of(resources@),
                ),
            ),
            Err(_) => !is_remote(*record) || record.sync_state is None,
        },
{
    reconcile_remote_snapshot_inner(record, resources, true)
}

/// The writes that make the changes of a calendar since the last sync token.
pub open spec fn change_writes(
    calendar_id: Uuid,
    pending: Seq<PendingView>,
    states: Seq<EventSyncView>,
    sync_token: Seq<char>,
    changes: Seq<IncomingView>,
) -> Seq<WriteView> {
    resource_writes(calendar_id, pending, states, changes).push(
        WriteView::SetSyncToken { calendar_id, sync_token: Some(sync_token) },
    )
}

/// Whether changes can be taken over: the calendar is remote and has an address, and the new token
/// is not blank.
pub open spec fn accepts_changes(record: RemoteRecord, sync_token: Seq<char>) -> bool {
    is_remote(record) && record.sync_state is Some && text::trimmed(sync_token).len() > 0
}

/// Make the changes of a calendar since the last sync token, and keep the token to ask with next.
pub fn reconcile_remote_changes(
    record: &RemoteRecord,
    sync_token: &str,
    changes: &Vec<IncomingResource>,
) -> (r: Result<(Vec<StoreWrite>, RemoteSnapshotSummary), RepositoryError>)
    ensures
        match r {
            Ok((writes, summary)) => accepts_changes(*record, sync_token@) && store::write_views(
                writes@,
            ) == change_writes(
                record.calendar_id,
                lists::views_of(record.pending@),
                lists::views_of(record.states@),
                sync_token@,
                lists::views_of(changes@),
            ) && summary.counts(
                resource_outcomes(
                    record.calendar_id,
                    lists::views_of(record.pending@),
                    lists::views_of(record.states@),
                    lists::views_of(changes@),
                ),
            ),
            Err(_) => !accepts_changes(*record, sync_token@),
        },
{
    if !check_remote(record) {
        return Err(RepositoryError);
    }
    let trimmed = text::chars_of(text::trim(sync_token).as_str());
    if record.sync_state.is_none() || trimmed.len() == 0 {
        return Err(RepositoryError);
    }
    let (taken, summary) = take_resources(record, changes);
    let mut writes = taken;
    let write = StoreWrite::SetSyncToken {
        calendar_id: record.calendar_id,
        sync_token: Some(sync_token.to_owned()),
    };
    proof {
        store::lemma_write_views_push(writes@, write);
    }
    writes.push(write);
    Ok((writes, summary))
}

/// The writes after a change of an event was uploaded: its new remote identity, and nothing that
/// waits.
pub open spec fn upload_writes(state: EventSyncView) -> Seq<WriteView> {
    seq![
        WriteView::PutEventSync { state },
        WriteView::DeletePending { event_id: state.event_id },
    ]
}

/// Note that a change of an event was uploaded.
pub fn finalize_event_upload(state: &EventSyncState) -> (r: Vec<StoreWrite>)
    ensures
        store::write_views(r@) == upload_writes(state@),
{
    let mut writes: Vec<StoreWrite> = Vec::new();
    writes.push(StoreWrite::PutEventSync { state: state.clone() });
    writes.push(StoreWrite::DeletePending { event_id: state.event_id });
    assert(store::write_views(writes@) =~= upload_writes(state@));
    writes
}

/// Note that the deletion of an event was uploaded.
pub fn finalize_event_delete(event_id: Uuid) -> (r: Vec<StoreWrite>)
    ensures
        store::write_views(r@) == seq![WriteView::DeletePending { event_id }],
{
    let mut writes: Vec<StoreWrite> = Vec::new();
    writes.push(StoreWrite::DeletePending { event_id });
    assert(store::write_views(writes@) =~= seq![WriteView::DeletePending { event_id }]);
    writes
}

// ---------------------------------------------------------------------------------------------
// Laws
// ---------------------------------------------------------------------------------------------

/// A reconciliation accounts for each resource once, and for each event that the server no longer
/// lists once.
pub proof fn law_every_resource_is_counted(
    summary: RemoteSnapshotSummary,
    calendar_id: Uuid,
    pending: Seq<PendingView>,
    states: Seq<EventSyncView>,
    resources: Seq<IncomingView>,
)
    requires
        summary.counts(snapshot_outcomes(calendar_id, pending, states, resources)),
    ensures
        summary.added + summary.updated + summary.deleted + summary.skipped == resources.len()
            + states.filter(|state: EventSyncView| !is_listed(resources, state.remote_href)).len(),
{
    lemma_counts(snapshot_outcomes(calendar_id, pending, states, resources));
    lemma_unlisted_count(pending, resources, states);
}

proof fn lemma_unlisted_count(
    pending: Seq<PendingView>,
    resources: Seq<IncomingView>,
    states: Seq<EventSyncView>,
)
    ensures
        unlisted_outcomes(pending, resources, states).len() == states.filter(
            |state: EventSyncView| !is_listed(resources, state.remote_href),
        ).len(),
    decreases states.len(),
{
    reveal(Seq::filter);
    if states.len() > 0 {
        lemma_unlisted_count(pending, resources, states.drop_last());
    }
}

/// Whether a write touches an event or its exceptions.
pub open spec fn touches_event(write: WriteView, id: Uuid) -> bool {
    match write {
        WriteView::InsertEvent { event } => event.id == id,
        WriteView::UpdateEvent { event } => event.id == id,
        WriteView::DeleteEvent { id: deleted } => deleted == id,
        WriteView::RemoveRemoteEvent { state } => state.event_id == id,
        _ => false,
    }
}

/// Writes that do not touch an event leave it as it is.
proof fn lemma_untouched(store: StoreView, writes: Seq<WriteView>, id: Uuid)
    requires
        forall|k: int| 0 <= k < writes.len() ==> !touches_event(#[trigger] writes[k], id),
    ensures
        store::stored(store::applied_all(store, writes).events, id) == store::stored(
            store.events,
            id,
        ),
    decreases writes.len(),
{
    if writes.len() > 0 {
        let before = writes.drop_last();
        assert forall|k: int| 0 <= k < before.len() implies !touches_event(
            #[trigger] before[k],
            id,
        ) by {
            assert(before[k] == writes[k]);
        }
        lemma_untouched(store, before, id);
        assert(!touches_event(writes[writes.len() - 1], id));
    }
}

/// Whether the event with an identifier is one that a reconciliation must leave alone: it is not
/// new in it, and wherever the server knows it, a local change of it waits.
pub open spec fn is_left_alone(
    pending: Seq<PendingView>,
    states: Seq<EventSyncView>,
    resources: Seq<IncomingView>,
    id: Uuid,
) -> bool {
    &&& forall|i: int|
        0 <= i < resources.len() ==> (#[trigger] resources[i]).fresh_id != id
    &&& forall|i: int|
        0 <= i < states.len() && (#[trigger] states[i]).event_id == id ==> is_protected_href(
            pending,
            states[i].remote_href,
        )
}

proof fn lemma_step_leaves_alone(
    calendar_id: Uuid,
    pending: Seq<PendingView>,
    states: Seq<EventSyncView>,
    incoming: IncomingView,
    id: Uuid,
)
    requires
        incoming.fresh_id != id,
        forall|i: int|
            0 <= i < states.len() && (#[trigger] states[i]).event_id == id ==> is_protected_href(
                pending,
                states[i].remote_href,
            ),
    ensures
        forall|k: int|
            0 <= k < resource_step(calendar_id, pending, states, incoming).1.len()
                ==> !touches_event(
                #[trigger] resource_step(calendar_id, pending, states, incoming).1[k],
                id,
            ),
{
    lemma_tracked_at(states, incoming.record.href);
    let step = resource_step(calendar_id, pending, states, incoming);
    let known = tracked_at(states, incoming.record.href);
    if !is_protected_href(pending, incoming.record.href) && known is Some {
        let i = choose|i: int| 0 <= i < states.len() && #[trigger] states[i] == known->0;
        assert((known->0).event_id != id);
    }
    if step.1.len() > 1 {
        let content = incoming.mapped->0;
        assert(step.1 == taken_writes(calendar_id, known, incoming, content));
    }
}

proof fn lemma_resources_leave_alone(
    calendar_id: Uuid,
    pending: Seq<PendingView>,
    states: Seq<EventSyncView>,
    resources: Seq<IncomingView>,
    id: Uuid,
)
    requires
        is_left_alone(pending, states, resources, id),
    ensures
        forall|k: int|
            0 <= k < resource_writes(calendar_id, pending, states, resources).len()
                ==> !touches_event(
                #[trigger] resource_writes(calendar_id, pending, states, resources)[k],
                id,
            ),
    decreases resources.len(),
{
    if resources.len() > 0 {
        let before = resources.drop_last();
        assert forall|i: int| 0 <= i < before.len() implies (#[trigger] before[i]).fresh_id != id by {
            assert(before[i] == resources[i]);
        }
        lemma_resources_leave_alone(calendar_id, pending, states, before, id);
        assert(resources[resources.len() - 1].fresh_id != id);
        lemma_step_leaves_alone(calendar_id, pending, states, resources.last(), id);
        let all = resource_writes(calendar_id, pending, states, resources);
        let first = resource_writes(calendar_id, pending, states, before);
        let step = resource_step(calendar_id, pending, states, resources.last()).1;
        assert forall|k: int| 0 <= k < all.len() implies !touches_event(#[trigger] all[k], id) by {
            if k < first.len() {
                assert(all[k] == first[k]);
            } else {
                assert(all[k] == step[k - first.len()]);
            }
        }
    }
}

proof fn lemma_unlisted_leave_alone(
    pending: Seq<PendingView>,
    states: Seq<EventSyncView>,
    resources: Seq<IncomingView>,
    id: Uuid,
)
    requires
        forall|i: int|
            0 <= i < states.len() && (#[trigger] states[i]).event_id == id ==> is_protected_href(
                pending,
                states[i].remote_href,
            ),
    ensures
        forall|k: int|
            0 <= k < unlisted_writes(pending, resources, states).len() ==> !touches_event(
                #[trigger] unlisted_writes(pending, resources, states)[k],
                id,
            ),
    decreases states.len(),
{
    if states.len() > 0 {
        let before = states.drop_last();
        assert forall|i: int|
            0 <= i < before.len() && (#[trigger] before[i]).event_id == id implies is_protected_href(
            pending,
            before[i].remote_href,
        ) by {
            assert(before[i] == states[i]);
        }
        lemma_unlisted_leave_alone(pending, before, resources, id);
        assert(states[states.len() - 1] == states.last());
        let all = unlisted_writes(pending, resources, states);
        let first = unlisted_writes(pending, resources, before);
        assert forall|k: int| 0 <= k < all.len() implies !touches_event(#[trigger] all[k], id) by {
            if k < first.len() {
                assert(all[k] == first[k]);
            }
        }
    }
}

/// A local change that waits for its upload is not overwritten, and events that the server has
/// nothing to do with are not touched: whatever the server lists, such an event stays as it is.
pub proof fn law_waiting_changes_survive(
    store: StoreView,
    calendar_id: Uuid,
    pending: Seq<PendingView>,
    states: Seq<EventSyncView>,
    resources: Seq<IncomingView>,
    clear_sync_token: bool,
    sync_token: Seq<char>,
    id: Uuid,
)
    requires
        is_left_alone(pending, states, resources, id),
    ensures
        store::stored(
            store::applied_all(
                store,
                snapshot_writes(calendar_id, pending, states, resources, clear_sync_token),
            ).events,
            id,
        ) == store::stored(store.events, id),
        store::stored(
            store::applied_all(
                store,
                change_writes(calendar_id, pending, states, sync_token, resources),
            ).events,
            id,
        ) == store::stored(store.events, id),
{
    lemma_resources_leave_alone(calendar_id, pending, states, resources, id);
    lemma_unlisted_leave_alone(pending, states, resources, id);
    let all = snapshot_writes(calendar_id, pending, states, resources, clear_sync_token);
    assert forall|k: int| 0 <= k < all.len() implies !touches_event(#[trigger] all[k], id) by {
        let taken = resource_writes(calendar_id, pending, states, resources);
        let dropped = unlisted_writes(pending, resources, states);
        if k < taken.len() {
            assert(all[k] == taken[k]);
        } else if k < taken.len() + dropped.len() {
            assert(all[k] == dropped[k - taken.len()]);
        }
    }
    lemma_untouched(store, all, id);
    let changed = change_writes(calendar_id, pending, states, sync_token, resources);
    assert forall|k: int| 0 <= k < changed.len() implies !touches_event(#[trigger] changed[k], id) by {
        let taken = resource_writes(calendar_id, pending, states, resources);
        if k < taken.len() {
            assert(changed[k] == taken[k]);
        }
    }
    lemma_untouched(store, changed, id);
}

/// Whether the rows of a calendar and the answer of its server are consistent: no event and no
/// address is noted twice, no address is listed twice, and the new identifiers are new.
pub open spec fn is_consistent(states: Seq<EventSyncView>, resources: Seq<IncomingView>) -> bool {
    &&& forall|i: int, j: int|
        0 <= i < j < states.len() ==> (#[trigger] states[i]).event_id != (
        #[trigger] states[j]).event_id
    &&& forall|i: int, j: int|
        0 <= i < j < resources.len() ==> (#[trigger] resources[i]).record.href != (
        #[trigger] resources[j]).record.href && resources[i].fresh_id != resources[j].fresh_id
    &&& forall|i: int, j: int|
        0 <= i < resources.len() && 0 <= j < states.len() ==> (#[trigger] resources[i]).fresh_id != (
        #[trigger] states[j]).event_id
}

/// The event that a resource is about.
pub open spec fn resource_event(states: Seq<EventSyncView>, incoming: IncomingView) -> Uuid {
    match tracked_at(states, incoming.record.href) {
        Some(state) => state.event_id,
        None => incoming.fresh_id,
    }
}

/// The writes for a resource touch only the event that it is about.
proof fn lemma_step_touches(
    calendar_id: Uuid,
    pending: Seq<PendingView>,
    states: Seq<EventSyncView>,
    incoming: IncomingView,
    id: Uuid,
)
    requires
        resource_event(states, incoming) != id,
    ensures
        forall|k: int|
            0 <= k < resource_step(calendar_id, pending, states, incoming).1.len()
                ==> !touches_event(
                #[trigger] resource_step(calendar_id, pending, states, incoming).1[k],
                id,
            ),
{
    let step = resource_step(calendar_id, pending, states, incoming);
    let known = tracked_at(states, incoming.record.href);
    if step.1.len() > 1 {
        let content = incoming.mapped->0;
        assert(step.1 == taken_writes(calendar_id, known, incoming, content));
    }
}

/// Two resources of a consistent list are about different events.
proof fn lemma_different_events(
    states: Seq<EventSyncView>,
    resources: Seq<IncomingView>,
    i: int,
    j: int,
)
    requires
        is_consistent(states, resources),
        0 <= i < resources.len(),
        0 <= j < resources.len(),
        i != j,
    ensures
        resource_event(states, resources[i]) != resource_event(states, resources[j]),
{
    lemma_tracked_at(states, resources[i].record.href);
    lemma_tracked_at(states, resources[j].record.href);
    assert(resources[i].record.href != resources[j].record.href && resources[i].fresh_id
        != resources[j].fresh_id) by {
        if i < j {
            assert(resources[i].record.href != resources[j].record.href);
        } else {
            assert(resources[j].record.href != resources[i].record.href);
        }
    }
    let a = tracked_at(states, resources[i].record.href);
    let b = tracked_at(states, resources[j].record.href);
    if a is Some {
        let n = choose|n: int| 0 <= n < states.len() && #[trigger] states[n] == a->0;
        assert(resources[j].fresh_id != states[n].event_id);
        if b is Some {
            let m = choose|m: int| 0 <= m < states.len() && #[trigger] states[m] == b->0;
            if n < m {
                assert(states[n].event_id != states[m].event_id);
            } else if m < n {
                assert(states[m].event_id != states[n].event_id);
            }
        }
    } else if b is Some {
        let m = choose|m: int| 0 <= m < states.len() && #[trigger] states[m] == b->0;
        assert(resources[i].fresh_id != states[m].event_id);
    }
}

/// The writes for the first resources of a list, then those for one resource, then the rest.
proof fn lemma_resource_writes_reach(
    store: StoreView,
    calendar_id: Uuid,
    pending: Seq<PendingView>,
    states: Seq<EventSyncView>,
    resources: Seq<IncomingView>,
    n: int,
    i: int,
)
    requires
        is_consistent(states, resources),
        0 <= i < n <= resources.len(),
    ensures
        ({
            let id = resource_event(states, resources[i]);
            let reached = store::applied_all(
                store,
                resource_writes(calendar_id, pending, states, resources.take(i + 1)),
            );
            let after = store::applied_all(
                store,
                resource_writes(calendar_id, pending, states, resources.take(n)),
            );
            store::stored(after.events, id) == store::stored(reached.events, id)
        }),
    decreases n,
{
    let id = resource_event(states, resources[i]);
    if n > i + 1 {
        lemma_resource_writes_reach(store, calendar_id, pending, states, resources, n - 1, i);
        assert(resources.take(n).drop_last() =~= resources.take(n - 1));
        let before = resource_writes(calendar_id, pending, states, resources.take(n - 1));
        let step = resource_step(calendar_id, pending, states, resources[n - 1]).1;
        store::lemma_applied_all_concat(store, before, step);
        lemma_different_events(states, resources, i, n - 1);
        lemma_step_touches(calendar_id, pending, states, resources[n - 1], id);
        lemma_untouched(store::applied_all(store, before), step, id);
    }
}

/// The event that was read from a resource, and nothing else, is stored after its writes.
proof fn lemma_taken_is_stored(
    store: StoreView,
    calendar_id: Uuid,
    known: Option<EventSyncView>,
    incoming: IncomingView,
    content: ContentView,
)
    ensures
        ({
            let id = match known {
                Some(state) => state.event_id,
                None => incoming.fresh_id,
            };
            store::stored(
                store::applied_all(
                    store,
                    taken_writes(calendar_id, known, incoming, content),
                ).events,
                id,
            ) == Some(taken_event(calendar_id, id, content))
        }),
{
    let id = match known {
        Some(state) => state.event_id,
        None => incoming.fresh_id,
    };
    let removal: Seq<WriteView> = match known {
        Some(state) => seq![WriteView::RemoveRemoteEvent { state }],
        None => seq![],
    };
    let insert = WriteView::InsertEvent { event: taken_event(calendar_id, id, content) };
    let note = WriteView::PutEventSync {
        state: taken_state(calendar_id, id, incoming.record, content),
    };
    let rest = replacement_writes(id, content.exceptions);
    assert(removal + seq![insert, note] =~= removal.push(insert).push(note));
    store::lemma_applied_all_concat(store, removal + seq![insert, note], rest);
    store::lemma_applied_push(store, removal.push(insert), note);
    store::lemma_applied_push(store, removal, insert);
    assert forall|k: int| 0 <= k < rest.len() implies !touches_event(#[trigger] rest[k], id) by {
        if k > 0 {
            assert(rest[k] == series::child_inserts(content.exceptions, id)[k - 1]);
        }
    }
    lemma_untouched(store::applied_all(store, removal + seq![insert, note]), rest, id);
}

/// After a calendar was made what its server lists, each resource that was taken over is stored:
/// under the identifier that its event had, or under its new one.
pub proof fn law_listed_events_are_stored(
    store: StoreView,
    calendar_id: Uuid,
    pending: Seq<PendingView>,
    states: Seq<EventSyncView>,
    resources: Seq<IncomingView>,
    clear_sync_token: bool,
    i: int,
)
    requires
        is_consistent(states, resources),
        0 <= i < resources.len(),
    ensures
        ({
            let outcome = resource_step(calendar_id, pending, states, resources[i]).0;
            let id = resource_event(states, resources[i]);
            let after = store::applied_all(
                store,
                snapshot_writes(calendar_id, pending, states, resources, clear_sync_token),
            );
            &&& outcome == Outcome::Added || outcome == Outcome::Updated ==> resources[i].mapped
                is Some && store::stored(after.events, id) == Some(
                taken_event(calendar_id, id, resources[i].mapped->0),
            )
            &&& outcome == Outcome::Deleted ==> store::stored(after.events, id) is None
        }),
{
    let outcome = resource_step(calendar_id, pending, states, resources[i]).0;
    let id = resource_event(states, resources[i]);
    let known = tracked_at(states, resources[i].record.href);
    let all = resource_writes(calendar_id, pending, states, resources);
    let dropped = unlisted_writes(pending, resources, states);
    let cleared: Seq<WriteView> = if clear_sync_token {
        seq![WriteView::SetSyncToken { calendar_id, sync_token: None }]
    } else {
        seq![]
    };
    let before = resource_writes(calendar_id, pending, states, resources.take(i));
    let step = resource_step(calendar_id, pending, states, resources[i]).1;
    assert(resources.take(i + 1).drop_last() =~= resources.take(i));
    assert(resources.take(resources.len() as int) =~= resources);
    store::lemma_applied_all_concat(store, before, step);
    let reached = store::applied_all(store, before + step);
    if outcome == Outcome::Added || outcome == Outcome::Updated {
        lemma_taken_is_stored(
            store::applied_all(store, before),
            calendar_id,
            known,
            resources[i],
            resources[i].mapped->0,
        );
    } else if outcome == Outcome::Deleted {
        store::lemma_applied_one(store::applied_all(store, before), step[0]);
        assert(step =~= seq![step[0]]);
    }
    lemma_resource_writes_reach(
        store,
        calendar_id,
        pending,
        states,
        resources,
        resources.len() as int,
        i,
    );
    store::lemma_applied_all_concat(store, all, dropped);
    store::lemma_applied_all_concat(store, all + dropped, cleared);
    assert(states.take(states.len() as int) =~= states);
    lemma_unlisted_touches(pending, resources, states, states, id, i);
    lemma_untouched(store::applied_all(store, all), dropped, id);
    lemma_untouched(store::applied_all(store, all + dropped), cleared, id);
}

/// After changes of a calendar were taken over, each that was taken is stored, each event that was
/// deleted is gone, and how far the changes were read is noted.
pub proof fn law_changed_events_are_stored(
    store: StoreView,
    calendar_id: Uuid,
    pending: Seq<PendingView>,
    states: Seq<EventSyncView>,
    sync_token: Seq<char>,
    changes: Seq<IncomingView>,
    i: int,
)
    requires
        is_consistent(states, changes),
        0 <= i < changes.len(),
    ensures
        ({
            let outcome = resource_step(calendar_id, pending, states, changes[i]).0;
            let id = resource_event(states, changes[i]);
            let after = store::applied_all(
                store,
                change_writes(calendar_id, pending, states, sync_token, changes),
            );
            &&& outcome == Outcome::Added || outcome == Outcome::Updated ==> changes[i].mapped is Some
                && store::stored(after.events, id) == Some(
                taken_event(calendar_id, id, changes[i].mapped->0),
            )
            &&& outcome == Outcome::Deleted ==> store::stored(after.events, id) is None
            &&& store.calendar_sync.dom().contains(calendar_id)
                ==> after.calendar_sync[calendar_id].sync_token == Some(sync_token)
        }),
{
    let outcome = resource_step(calendar_id, pending, states, changes[i]).0;
    let known = tracked_at(states, changes[i].record.href);
    let all = resource_writes(calendar_id, pending, states, changes);
    let before = resource_writes(calendar_id, pending, states, changes.take(i));
    let step = resource_step(calendar_id, pending, states, changes[i]).1;
    assert(changes.take(i + 1).drop_last() =~= changes.take(i));
    assert(changes.take(changes.len() as int) =~= changes);
    store::lemma_applied_all_concat(store, before, step);
    if outcome == Outcome::Added || outcome == Outcome::Updated {
        lemma_taken_is_stored(
            store::applied_all(store, before),
            calendar_id,
            known,
            changes[i],
            changes[i].mapped->0,
        );
    } else if outcome == Outcome::Deleted {
        store::lemma_applied_one(store::applied_all(store, before), step[0]);
        assert(step =~= seq![step[0]]);
    }
    lemma_resource_writes_reach(
        store,
        calendar_id,
        pending,
        states,
        changes,
        changes.len() as int,
        i,
    );
    lemma_resources_keep_calendars(store, calendar_id, pending, states, changes);
    let token = WriteView::SetSyncToken { calendar_id, sync_token: Some(sync_token) };
    store::lemma_applied_push(store, all, token);
    assert(change_writes(calendar_id, pending, states, sync_token, changes) =~= all.push(token));
}

/// The writes for resources leave what is noted of calendars as it is.
proof fn lemma_resources_keep_calendars(
    store: StoreView,
    calendar_id: Uuid,
    pending: Seq<PendingView>,
    states: Seq<EventSyncView>,
    resources: Seq<IncomingView>,
)
    ensures
        store::applied_all(
            store,
            resource_writes(calendar_id, pending, states, resources),
        ).calendar_sync == store.calendar_sync,
    decreases resources.len(),
{
    if resources.len() > 0 {
        let before = resources.drop_last();
        lemma_resources_keep_calendars(store, calendar_id, pending, states, before);
        let first = resource_writes(calendar_id, pending, states, before);
        let step = resource_step(calendar_id, pending, states, resources.last()).1;
        store::lemma_applied_all_concat(store, first, step);
        assert forall|k: int| 0 <= k < step.len() implies !notes_calendar(#[trigger] step[k]) by {
            if step.len() > 1 {
                let known = tracked_at(states, resources.last().record.href);
                let content = resources.last().mapped->0;
                let rest = replacement_writes(resource_event(states, resources.last()), content.exceptions);
                assert(step == taken_writes(calendar_id, known, resources.last(), content));
                let head = step.len() - rest.len();
                if k >= head {
                    assert(step[k] == rest[k - head]);
                    if k > head {
                        assert(rest[k - head] == series::child_inserts(
                            content.exceptions,
                            resource_event(states, resources.last()),
                        )[k - head - 1]);
                    }
                }
            }
        }
        lemma_calendars_kept(store::applied_all(store, first), step);
    }
}

/// Whether a write notes something of a calendar.
pub open spec fn notes_calendar(write: WriteView) -> bool {
    write is PutCalendarSync || write is SetSyncToken
}

proof fn lemma_calendars_kept(store: StoreView, writes: Seq<WriteView>)
    requires
        forall|k: int| 0 <= k < writes.len() ==> !notes_calendar(#[trigger] writes[k]),
    ensures
        store::applied_all(store, writes).calendar_sync == store.calendar_sync,
    decreases writes.len(),
{
    if writes.len() > 0 {
        let before = writes.drop_last();
        assert forall|k: int| 0 <= k < before.len() implies !notes_calendar(#[trigger] before[k]) by {
            assert(before[k] == writes[k]);
        }
        lemma_calendars_kept(store, before);
        assert(!notes_calendar(writes[writes.len() - 1]));
    }
}

proof fn lemma_unlisted_are_removed(
    store: StoreView,
    pending: Seq<PendingView>,
    resources: Seq<IncomingView>,
    states: Seq<EventSyncView>,
    j: int,
)
    requires
        0 <= j < states.len(),
        !is_listed(resources, states[j].remote_href),
        !is_protected(pending, states[j]),
    ensures
        ({
            let after = store::applied_all(store, unlisted_writes(pending, resources, states));
            &&& store::stored(after.events, states[j].event_id) is None
            &&& store::stored(after.event_sync, states[j].event_id) is None
        }),
    decreases states.len(),
{
    let before = states.drop_last();
    let first = unlisted_writes(pending, resources, before);
    if j < before.len() {
        assert(before[j] == states[j]);
        lemma_unlisted_are_removed(store, pending, resources, before, j);
    }
    let last = states.last();
    if !is_listed(resources, last.remote_href) && !is_protected(pending, last) {
        store::lemma_applied_push(store, first, WriteView::RemoveRemoteEvent { state: last });
    }
}

/// After a calendar was made what its server lists, an event that the server no longer lists is
/// gone, and so is its remote identity, unless a local change of it waits.
pub proof fn law_unlisted_events_are_gone(
    store: StoreView,
    calendar_id: Uuid,
    pending: Seq<PendingView>,
    states: Seq<EventSyncView>,
    resources: Seq<IncomingView>,
    clear_sync_token: bool,
    j: int,
)
    requires
        0 <= j < states.len(),
        !is_listed(resources, states[j].remote_href),
        !is_protected(pending, states[j]),
    ensures
        ({
            let after = store::applied_all(
                store,
                snapshot_writes(calendar_id, pending, states, resources, clear_sync_token),
            );
            &&& store::stored(after.events, states[j].event_id) is None
            &&& store::stored(after.event_sync, states[j].event_id) is None
        }),
{
    let all = resource_writes(calendar_id, pending, states, resources);
    let dropped = unlisted_writes(pending, resources, states);
    let cleared: Seq<WriteView> = if clear_sync_token {
        seq![WriteView::SetSyncToken { calendar_id, sync_token: None }]
    } else {
        seq![]
    };
    store::lemma_applied_all_concat(store, all, dropped);
    store::lemma_applied_all_concat(store, all + dropped, cleared);
    lemma_unlisted_are_removed(store::applied_all(store, all), pending, resources, states, j);
    if clear_sync_token {
        store::lemma_applied_one(store::applied_all(store, all + dropped), cleared[0]);
    }
}

/// The removal of what is no longer listed does not touch what is.
proof fn lemma_unlisted_touches(
    pending: Seq<PendingView>,
    resources: Seq<IncomingView>,
    all: Seq<EventSyncView>,
    states: Seq<EventSyncView>,
    id: Uuid,
    i: int,
)
    requires
        is_consistent(all, resources),
        0 <= i < resources.len(),
        id == resource_event(all, resources[i]),
        states.len() <= all.len(),
        states == all.take(states.len() as int),
    ensures
        forall|k: int|
            0 <= k < unlisted_writes(pending, resources, states).len() ==> !touches_event(
                #[trigger] unlisted_writes(pending, resources, states)[k],
                id,
            ),
    decreases states.len(),
{
    if states.len() > 0 {
        let before = states.drop_last();
        assert(before =~= all.take(before.len() as int));
        lemma_unlisted_touches(pending, resources, all, before, id, i);
        let last = states.len() - 1;
        assert(all[last] == states.last());
        if !is_listed(resources, states.last().remote_href) {
            lemma_tracked_at(all, resources[i].record.href);
            let known = tracked_at(all, resources[i].record.href);
            assert(resources[i].record.href != states.last().remote_href);
            if known is Some {
                let n = choose|n: int| 0 <= n < all.len() && #[trigger] all[n] == known->0;
                if n < last {
                    assert(all[n].event_id != all[last].event_id);
                } else if last < n {
                    assert(all[last].event_id != all[n].event_id);
                }
            } else {
                assert(resources[i].fresh_id != all[last].event_id);
            }
        }
        let writes = unlisted_writes(pending, resources, states);
        let first = unlisted_writes(pending, resources, before);
        assert forall|k: int| 0 <= k < writes.len() implies !touches_event(#[trigger] writes[k], id) by {
            if k < first.len() {
                assert(writes[k] == first[k]);
            }
        }
    }
}

/// While a change or a deletion of the resource at an address waits for its upload, what the server
/// says of that resource is passed over, and nothing is written for it.
pub proof fn law_resource_of_a_waiting_change_is_skipped(
    calendar_id: Uuid,
    pending: Seq<PendingView>,
    states: Seq<EventSyncView>,
    incoming: IncomingView,
    k: int,
)
    requires
        0 <= k < pending.len(),
        (pending[k] matches PendingView::Update { remote_href, .. } && remote_href
            == incoming.record.href) || (pending[k] matches PendingView::Delete { remote_href, .. }
            && remote_href == incoming.record.href),
    ensures
        resource_step(calendar_id, pending, states, incoming) == (
            Outcome::Skipped,
            Seq::<WriteView>::empty(),
        ),
{
    assert(protected_href(pending[k]) == Some(incoming.record.href));
    assert(is_protected_href(pending, incoming.record.href));
}

/// While a change or a deletion of a resource waits for its upload, the writes are those that would
/// be made if the server had not mentioned the resource, and one resource more is skipped.
pub proof fn law_waiting_change_hides_its_resource(
    calendar_id: Uuid,
    pending: Seq<PendingView>,
    states: Seq<EventSyncView>,
    sync_token: Seq<char>,
    changes: Seq<IncomingView>,
    i: int,
    k: int,
)
    requires
        0 <= i < changes.len(),
        0 <= k < pending.len(),
        (pending[k] matches PendingView::Update { remote_href, .. } && remote_href
            == changes[i].record.href) || (pending[k] matches PendingView::Delete { remote_href, .. }
            && remote_href == changes[i].record.href),
    ensures
        change_writes(calendar_id, pending, states, sync_token, changes) == change_writes(
            calendar_id,
            pending,
            states,
            sync_token,
            changes.remove(i),
        ),
        count(resource_outcomes(calendar_id, pending, states, changes), Outcome::Skipped) == count(
            resource_outcomes(calendar_id, pending, states, changes.remove(i)),
            Outcome::Skipped,
        ) + 1,
        forall|wanted: Outcome|
            wanted != Outcome::Skipped ==> #[trigger] count(
                resource_outcomes(calendar_id, pending, states, changes),
                wanted,
            ) == count(
                resource_outcomes(calendar_id, pending, states, changes.remove(i)),
                wanted,
            ),
{
    lemma_hidden_resource(calendar_id, pending, states, changes, i, k);
}

proof fn lemma_hidden_resource(
    calendar_id: Uuid,
    pending: Seq<PendingView>,
    states: Seq<EventSyncView>,
    changes: Seq<IncomingView>,
    i: int,
    k: int,
)
    requires
        0 <= i < changes.len(),
        0 <= k < pending.len(),
        (pending[k] matches PendingView::Update { remote_href, .. } && remote_href
            == changes[i].record.href) || (pending[k] matches PendingView::Delete { remote_href, .. }
            && remote_href == changes[i].record.href),
    ensures
        resource_writes(calendar_id, pending, states, changes) == resource_writes(
            calendar_id,
            pending,
            states,
            changes.remove(i),
        ),
        forall|wanted: Outcome| #[trigger]
            count(resource_outcomes(calendar_id, pending, states, changes), wanted) == count(
                resource_outcomes(calendar_id, pending, states, changes.remove(i)),
                wanted,
            ) + if wanted == Outcome::Skipped {
                1int
            } else {
                0int
            },
    decreases changes.len(),
{
    let before = changes.drop_last();
    let without = changes.remove(i);
    let all = resource_outcomes(calendar_id, pending, states, changes);
    let rest = resource_outcomes(calendar_id, pending, states, without);
    let outcome = resource_step(calendar_id, pending, states, changes.last()).0;
    let first = resource_outcomes(calendar_id, pending, states, before);
    assert(all =~= first.push(outcome));
    assert forall|wanted: Outcome| #[trigger] count(all, wanted) == count(first, wanted) + if outcome
        == wanted {
        1int
    } else {
        0int
    } by {
        lemma_count_push(first, outcome, wanted);
    }
    if i == changes.len() - 1 {
        assert(without =~= before);
        law_resource_of_a_waiting_change_is_skipped(calendar_id, pending, states, changes[i], k);
        assert(resource_writes(calendar_id, pending, states, changes) =~= resource_writes(
            calendar_id,
            pending,
            states,
            before,
        ));
    } else {
        assert(before[i] == changes[i]);
        lemma_hidden_resource(calendar_id, pending, states, before, i, k);
        let shorter = resource_outcomes(calendar_id, pending, states, before.remove(i));
        assert(without.drop_last() =~= before.remove(i));
        assert(without.last() == changes.last());
        assert(rest =~= shorter.push(outcome));
        assert forall|wanted: Outcome| #[trigger] count(rest, wanted) == count(shorter, wanted)
            + if outcome == wanted {
            1int
        } else {
            0int
        } by {
            lemma_count_push(shorter, outcome, wanted);
        }
        assert forall|wanted: Outcome| #[trigger] count(all, wanted) == count(rest, wanted) + if wanted
            == Outcome::Skipped {
            1int
        } else {
            0int
        } by {
            assert(count(first, wanted) == count(shorter, wanted) + if wanted == Outcome::Skipped {
                1int
            } else {
                0int
            });
            assert(count(rest, wanted) == count(shorter, wanted) + if outcome == wanted {
                1int
            } else {
                0int
            });
        }
    }
}

/// An event whose change or deletion waits for its upload stays as it is, whatever the server lists:
/// where the server lists its resource, and where it no longer does.
pub proof fn law_event_of_a_waiting_change_stays(
    store: StoreView,
    calendar_id: Uuid,
    pending: Seq<PendingView>,
    states: Seq<EventSyncView>,
    resources: Seq<IncomingView>,
    clear_sync_token: bool,
    sync_token: Seq<char>,
    j: int,
    k: int,
)
    requires
        is_consistent(states, resources),
        0 <= j < states.len(),
        0 <= k < pending.len(),
        (pending[k] matches PendingView::Update { remote_href, .. } && remote_href
            == states[j].remote_href) || (pending[k] matches PendingView::Delete { remote_href, .. }
            && remote_href == states[j].remote_href),
    ensures
        store::stored(
            store::applied_all(
                store,
                snapshot_writes(calendar_id, pending, states, resources, clear_sync_token),
            ).events,
            states[j].event_id,
        ) == store::stored(store.events, states[j].event_id),
        store::stored(
            store::applied_all(
                store,
                change_writes(calendar_id, pending, states, sync_token, resources),
            ).events,
            states[j].event_id,
        ) == store::stored(store.events, states[j].event_id),
{
    let id = states[j].event_id;
    assert(protected_href(pending[k]) == Some(states[j].remote_href));
    assert forall|i: int| 0 <= i < states.len() && (#[trigger] states[i]).event_id == id implies
        is_protected_href(pending, states[i].remote_href) by {
        if i < j {
            assert(states[i].event_id != states[j].event_id);
        } else if j < i {
            assert(states[j].event_id != states[i].event_id);
        }
    }
    assert forall|i: int| 0 <= i < resources.len() implies (#[trigger] resources[i]).fresh_id != id by {
        assert(resources[i].fresh_id != states[j].event_id);
    }
    law_waiting_changes_survive(
        store,
        calendar_id,
        pending,
        states,
        resources,
        clear_sync_token,
        sync_token,
        id,
    );
}

/// An event whose change or deletion waits for its upload is not removed because the server no
/// longer lists it, also where the change was made against another address.
pub proof fn law_unlisted_event_of_a_waiting_change_stays(
    store: StoreView,
    pending: Seq<PendingView>,
    states: Seq<EventSyncView>,
    resources: Seq<IncomingView>,
    k: int,
    id: Uuid,
)
    requires
        0 <= k < pending.len(),
        (pending[k] matches PendingView::Update { event_id, .. } && event_id == id) || (
        pending[k] matches PendingView::Delete { event_id, .. } && event_id == id),
    ensures
        store::stored(
            store::applied_all(store, unlisted_writes(pending, resources, states)).events,
            id,
        ) == store::stored(store.events, id),
    decreases states.len(),
{
    assert(protected_event(pending[k]) == Some(id));
    if states.len() > 0 {
        let before = states.drop_last();
        law_unlisted_event_of_a_waiting_change_stays(store, pending, before, resources, k, id);
        let first = unlisted_writes(pending, resources, before);
        let last = states.last();
        if !is_listed(resources, last.remote_href) && !is_protected(pending, last) {
            assert(last.event_id != id);
            store::lemma_applied_push(store, first, WriteView::RemoveRemoteEvent { state: last });
        }
    }
}

/// A resource that was answered with its data, that can be read and whose change waits nowhere is
/// taken over whole. The event keeps the identifier under which its address is noted, or gets the
/// new one; it is counted as updated or added by that. Its text, times, rule and reminders, its
/// address, name and version, and its exceptions are then those of the resource, and no others.
pub proof fn law_readable_resource_is_taken_over(
    store: StoreView,
    calendar_id: Uuid,
    pending: Seq<PendingView>,
    states: Seq<EventSyncView>,
    incoming: IncomingView,
)
    requires
        forall|k: int|
            0 <= k < pending.len() ==> !((#[trigger] pending[k] matches PendingView::Update {
                remote_href,
                ..
            } && remote_href == incoming.record.href) || (pending[k] matches PendingView::Delete {
                remote_href,
                ..
            } && remote_href == incoming.record.href)),
        incoming.record.response_status is None || 200 <= incoming.record.response_status->0 <= 299,
        incoming.record.calendar_data is Some,
        incoming.mapped is Some,
        occurrences::are_distinct(series::detached_of((incoming.mapped->0).exceptions)),
    ensures
        ({
            let step = resource_step(calendar_id, pending, states, incoming);
            let after = store::applied_all(store, step.1);
            let content = incoming.mapped->0;
            exists|id: Uuid|
                {
                    &&& #[trigger] is_identifier_for(states, incoming, id)
                    &&& step.0 == if exists|j: int|
                        0 <= j < states.len() && (#[trigger] states[j]).remote_href
                            == incoming.record.href {
                        Outcome::Updated
                    } else {
                        Outcome::Added
                    }
                    &&& store::stored(after.events, id) == Some(
                        EventView {
                            id,
                            calendar_id,
                            title: content.master.event.title,
                            location: content.master.event.location,
                            description: content.master.event.description,
                            schedule: content.master.event.schedule,
                            recurrence: content.master.event.recurrence,
                            reminders: content.master.event.reminders,
                        },
                    )
                    &&& store::stored(after.event_sync, id) == Some(
                        EventSyncView {
                            calendar_id,
                            event_id: id,
                            remote_href: incoming.record.href,
                            remote_uid: content.master.remote_uid,
                            etag: incoming.record.etag,
                        },
                    )
                    &&& forall|c: Uuid| #[trigger]
                        after.detached.dom().contains(c) && after.detached[c].master_id == id
                            ==> exists|n: int|
                            0 <= n < content.exceptions.len() && (#[trigger] content.exceptions[n]).0
                                == c && content.exceptions[n].1 == after.detached[c].detached
                    &&& forall|n: int|
                        0 <= n < content.exceptions.len() ==> after.detached.dom().contains(
                            (#[trigger] content.exceptions[n]).0,
                        ) && after.detached[content.exceptions[n].0].master_id == id
                    &&& after.pending == store.pending
                }
        }),
{
    let href = incoming.record.href;
    let content = incoming.mapped->0;
    let known = tracked_at(states, href);
    let id = match known {
        Some(state) => state.event_id,
        None => incoming.fresh_id,
    };
    if is_protected_href(pending, href) {
        let k = choose|k: int|
            0 <= k < pending.len() && protected_href(#[trigger] pending[k]) == Some(href);
        assert(false);
    }
    lemma_tracked_at(states, href);
    lemma_tracked_where_noted(states, href);
    lemma_taken_is_stored(store, calendar_id, known, incoming, content);
    lemma_taken_rows(store, calendar_id, known, incoming, content);
    assert(is_identifier_for(states, incoming, id));
}

/// Whether an identifier is the one for the event of a resource: one under which its address is
/// noted, or the new one where its address is not.
pub open spec fn is_identifier_for(
    states: Seq<EventSyncView>,
    incoming: IncomingView,
    id: Uuid,
) -> bool {
    if exists|j: int|
        0 <= j < states.len() && (#[trigger] states[j]).remote_href == incoming.record.href {
        exists|j: int|
            0 <= j < states.len() && (#[trigger] states[j]).remote_href == incoming.record.href
                && states[j].event_id == id
    } else {
        id == incoming.fresh_id
    }
}

proof fn lemma_tracked_where_noted(states: Seq<EventSyncView>, href: Seq<char>)
    ensures
        tracked_at(states, href) is Some <==> exists|j: int|
            0 <= j < states.len() && (#[trigger] states[j]).remote_href == href,
    decreases states.len(),
{
    if states.len() > 0 {
        let before = states.drop_last();
        lemma_tracked_where_noted(before, href);
        if exists|j: int| 0 <= j < states.len() && (#[trigger] states[j]).remote_href == href {
            let j = choose|j: int| 0 <= j < states.len() && (#[trigger] states[j]).remote_href == href;
            if j < before.len() {
                assert(before[j].remote_href == href);
            }
        }
        if tracked_at(states, href) is Some {
            if states.last().remote_href == href {
                assert(states[states.len() - 1].remote_href == href);
            } else {
                let j = choose|j: int|
                    0 <= j < before.len() && (#[trigger] before[j]).remote_href == href;
                assert(states[j].remote_href == href);
            }
        }
    }
}

/// The remote identity and the exceptions of an event after it was taken over.
proof fn lemma_taken_rows(
    store: StoreView,
    calendar_id: Uuid,
    known: Option<EventSyncView>,
    incoming: IncomingView,
    content: ContentView,
)
    ensures
        ({
            let id = match known {
                Some(state) => state.event_id,
                None => incoming.fresh_id,
            };
            let after = store::applied_all(
                store,
                taken_writes(calendar_id, known, incoming, content),
            );
            &&& store::stored(after.event_sync, id) == Some(
                taken_state(calendar_id, id, incoming.record, content),
            )
            &&& are_children_of(after, id, content.exceptions)
            &&& after.pending == store.pending
        }),
{
    let id = match known {
        Some(state) => state.event_id,
        None => incoming.fresh_id,
    };
    let removal: Seq<WriteView> = match known {
        Some(state) => seq![WriteView::RemoveRemoteEvent { state }],
        None => seq![],
    };
    let insert = WriteView::InsertEvent { event: taken_event(calendar_id, id, content) };
    let note = WriteView::PutEventSync {
        state: taken_state(calendar_id, id, incoming.record, content),
    };
    let drop = WriteView::DeleteDetachedOf { master_id: id };
    let rest = replacement_writes(id, content.exceptions);
    let inserts = series::child_inserts(content.exceptions, id);
    assert(removal + seq![insert, note] =~= removal.push(insert).push(note));
    store::lemma_applied_all_concat(store, removal + seq![insert, note], rest);
    store::lemma_applied_push(store, removal.push(insert), note);
    store::lemma_applied_push(store, removal, insert);
    if known is Some {
        store::lemma_applied_one(store, removal[0]);
    }
    let noted = store::applied_all(store, removal + seq![insert, note]);
    store::lemma_applied_all_concat(noted, seq![drop], inserts);
    store::lemma_applied_one(noted, drop);
    lemma_children_inserted(store::applied(noted, drop), id, content.exceptions);
}

/// Whether the exceptions that are stored of an event are those of a list.
pub open spec fn are_children_of(
    store: StoreView,
    id: Uuid,
    exceptions: Seq<(Uuid, DetachedView)>,
) -> bool {
    &&& forall|c: Uuid| #[trigger]
        store.detached.dom().contains(c) && store.detached[c].master_id == id ==> exists|n: int|
            0 <= n < exceptions.len() && (#[trigger] exceptions[n]).0 == c && exceptions[n].1
                == store.detached[c].detached
    &&& forall|n: int|
        0 <= n < exceptions.len() ==> store.detached.dom().contains((#[trigger] exceptions[n]).0)
            && store.detached[exceptions[n].0].master_id == id
}

proof fn lemma_children_inserted(store: StoreView, id: Uuid, exceptions: Seq<(Uuid, DetachedView)>)
    requires
        forall|c: Uuid| #[trigger]
            store.detached.dom().contains(c) ==> store.detached[c].master_id != id,
    ensures
        ({
            let after = store::applied_all(store, series::child_inserts(exceptions, id));
            &&& are_children_of(after, id, exceptions)
            &&& after.event_sync == store.event_sync
            &&& after.pending == store.pending
        }),
    decreases exceptions.len(),
{
    let after = store::applied_all(store, series::child_inserts(exceptions, id));
    if exceptions.len() > 0 {
        let before = exceptions.drop_last();
        lemma_children_inserted(store, id, before);
        let earlier = store::applied_all(store, series::child_inserts(before, id));
        assert(series::child_inserts(exceptions, id).drop_last() =~= series::child_inserts(before, id));
        assert(series::child_inserts(exceptions, id).last() == WriteView::InsertDetached {
            id: exceptions.last().0,
            master_id: id,
            detached: exceptions.last().1,
        });
        assert(after.detached == earlier.detached.insert(
            exceptions.last().0,
            store::DetachedRow { master_id: id, detached: exceptions.last().1 },
        ));
        assert forall|c: Uuid| #[trigger]
            after.detached.dom().contains(c) && after.detached[c].master_id == id implies exists|n: int|
            0 <= n < exceptions.len() && (#[trigger] exceptions[n]).0 == c && exceptions[n].1
                == after.detached[c].detached by {
            if c == exceptions.last().0 {
                assert(exceptions[exceptions.len() - 1].0 == c);
            } else {
                assert(earlier.detached.dom().contains(c));
                let n = choose|n: int|
                    0 <= n < before.len() && (#[trigger] before[n]).0 == c && before[n].1
                        == earlier.detached[c].detached;
                assert(exceptions[n] == before[n]);
            }
        }
        assert forall|n: int| 0 <= n < exceptions.len() implies after.detached.dom().contains(
            (#[trigger] exceptions[n]).0,
        ) && after.detached[exceptions[n].0].master_id == id by {
            if n < before.len() {
                assert(exceptions[n] == before[n]);
            }
        }
    }
}

/// A resource that its server no longer has is removed here too, with its remote identity, unless a
/// change of it waits; where it is not known here, nothing is written.
pub proof fn law_missing_resource_is_removed(
    store: StoreView,
    calendar_id: Uuid,
    pending: Seq<PendingView>,
    states: Seq<EventSyncView>,
    incoming: IncomingView,
)
    requires
        forall|k: int|
            0 <= k < pending.len() ==> !((#[trigger] pending[k] matches PendingView::Update {
                remote_href,
                ..
            } && remote_href == incoming.record.href) || (pending[k] matches PendingView::Delete {
                remote_href,
                ..
            } && remote_href == incoming.record.href)),
        incoming.record.response_status == Some(404u16),
    ensures
        ({
            let step = resource_step(calendar_id, pending, states, incoming);
            let after = store::applied_all(store, step.1);
            if exists|j: int|
                0 <= j < states.len() && (#[trigger] states[j]).remote_href == incoming.record.href {
                &&& step.0 == Outcome::Deleted
                &&& exists|j: int|
                    0 <= j < states.len() && (#[trigger] states[j]).remote_href
                        == incoming.record.href && store::stored(after.events, states[j].event_id)
                        is None && store::stored(after.event_sync, states[j].event_id) is None
            } else {
                step.0 == Outcome::Skipped && after == store
            }
        }),
{
    let href = incoming.record.href;
    if is_protected_href(pending, href) {
        let k = choose|k: int|
            0 <= k < pending.len() && protected_href(#[trigger] pending[k]) == Some(href);
        assert(false);
    }
    lemma_tracked_at(states, href);
    lemma_tracked_where_noted(states, href);
    if tracked_at(states, href) is Some {
        let state = tracked_at(states, href)->0;
        store::lemma_applied_one(store, WriteView::RemoveRemoteEvent { state });
        let j = choose|j: int| 0 <= j < states.len() && #[trigger] states[j] == state;
        assert(states[j].remote_href == href);
    }
}

/// A resource that was answered with any other failure, or without its data, or that cannot be
/// read, is passed over, and nothing is written for it.
pub proof fn law_failed_resource_is_skipped(
    calendar_id: Uuid,
    pending: Seq<PendingView>,
    states: Seq<EventSyncView>,
    incoming: IncomingView,
)
    requires
        incoming.record.response_status != Some(404u16),
        (incoming.record.response_status is Some && (incoming.record.response_status->0 < 200
            || incoming.record.response_status->0 >= 300)) || incoming.record.calendar_data is None
            || incoming.mapped is None,
    ensures
        resource_step(calendar_id, pending, states, incoming) == (
            Outcome::Skipped,
            Seq::<WriteView>::empty(),
        ),
{
}

/// After a calendar was made what its server lists, an event of it that the server does not list,
/// and that no change or deletion waits for, is gone together with its remote identity.
pub proof fn law_event_that_is_not_listed_is_gone(
    store: StoreView,
    calendar_id: Uuid,
    pending: Seq<PendingView>,
    states: Seq<EventSyncView>,
    resources: Seq<IncomingView>,
    clear_sync_token: bool,
    j: int,
)
    requires
        0 <= j < states.len(),
        forall|i: int|
            0 <= i < resources.len() ==> (#[trigger] resources[i]).record.href
                != states[j].remote_href,
        forall|k: int|
            0 <= k < pending.len() ==> !((#[trigger] pending[k] matches PendingView::Update {
                remote_href,
                event_id,
                ..
            } && (remote_href == states[j].remote_href || event_id == states[j].event_id)) || (
            pending[k] matches PendingView::Delete { remote_href, event_id, .. } && (remote_href
                == states[j].remote_href || event_id == states[j].event_id))),
    ensures
        ({
            let after = store::applied_all(
                store,
                snapshot_writes(calendar_id, pending, states, resources, clear_sync_token),
            );
            &&& store::stored(after.events, states[j].event_id) is None
            &&& store::stored(after.event_sync, states[j].event_id) is None
        }),
{
    law_unlisted_events_are_gone(
        store,
        calendar_id,
        pending,
        states,
        resources,
        clear_sync_token,
        j,
    );
}

/// Making a calendar what its server lists forgets how far changes were read where that is asked
/// for, and leaves it as it is otherwise.
pub proof fn law_snapshot_forgets_the_token_where_asked(
    store: StoreView,
    calendar_id: Uuid,
    pending: Seq<PendingView>,
    states: Seq<EventSyncView>,
    resources: Seq<IncomingView>,
    clear_sync_token: bool,
)
    requires
        store.calendar_sync.dom().contains(calendar_id),
    ensures
        ({
            let after = store::applied_all(
                store,
                snapshot_writes(calendar_id, pending, states, resources, clear_sync_token),
            );
            &&& after.calendar_sync.dom() == store.calendar_sync.dom()
            &&& after.calendar_sync[calendar_id].sync_token == if clear_sync_token {
                None
            } else {
                store.calendar_sync[calendar_id].sync_token
            }
            &&& after.calendar_sync[calendar_id].remote_url == store.calendar_sync[calendar_id].remote_url
        }),
{
    let all = resource_writes(calendar_id, pending, states, resources);
    let dropped = unlisted_writes(pending, resources, states);
    let cleared: Seq<WriteView> = if clear_sync_token {
        seq![WriteView::SetSyncToken { calendar_id, sync_token: None }]
    } else {
        seq![]
    };
    store::lemma_applied_all_concat(store, all, dropped);
    store::lemma_applied_all_concat(store, all + dropped, cleared);
    lemma_resources_keep_calendars(store, calendar_id, pending, states, resources);
    lemma_unlisted_keep_calendars(store::applied_all(store, all), pending, resources, states);
    if clear_sync_token {
        store::lemma_applied_one(store::applied_all(store, all + dropped), cleared[0]);
        assert(store.calendar_sync.insert(
            calendar_id,
            store.calendar_sync[calendar_id],
        ).dom() =~= store.calendar_sync.dom());
    }
    let after = store::applied_all(
        store,
        snapshot_writes(calendar_id, pending, states, resources, clear_sync_token),
    );
    assert(after.calendar_sync.dom() =~= store.calendar_sync.dom());
}

proof fn lemma_unlisted_keep_calendars(
    store: StoreView,
    pending: Seq<PendingView>,
    resources: Seq<IncomingView>,
    states: Seq<EventSyncView>,
)
    ensures
        store::applied_all(store, unlisted_writes(pending, resources, states)).calendar_sync
            == store.calendar_sync,
    decreases states.len(),
{
    if states.len() > 0 {
        let before = states.drop_last();
        lemma_unlisted_keep_calendars(store, pending, resources, before);
        let last = states.last();
        if !is_listed(resources, last.remote_href) && !is_protected(pending, last) {
            store::lemma_applied_push(
                store,
                unlisted_writes(pending, resources, before),
                WriteView::RemoveRemoteEvent { state: last },
            );
        }
    }
}

/// Changes are taken over only for a calendar of an account that has been read before, and with a mark
/// to go on from.
pub proof fn law_changes_that_are_taken(record: RemoteRecord, sync_token: Seq<char>)
    ensures
        accepts_changes(record, sync_token) ==> record.sync_state is Some && text::trimmed(sync_token)
            != Seq::<char>::empty() && (record.calendar matches Some(calendar) && calendar.source is CalDav),
        record.calendar is None ==> !is_remote(record),
        record.calendar matches Some(calendar) ==> (is_remote(record) <==> !(calendar.source is Local)),
        record.sync_state is Some && is_remote(record) && text::trimmed(sync_token) != Seq::<char>::empty()
            ==> accepts_changes(record, sync_token),
{
    assert(text::trimmed(sync_token).len() == 0 ==> text::trimmed(sync_token) =~= Seq::empty());
}

/// A summary tells how many resources were added, updated, deleted and skipped.
pub proof fn law_summary_counts_each_kind(summary: RemoteSnapshotSummary, outcomes: Seq<Outcome>)
    requires
        summary.counts(outcomes),
    ensures
        summary.added == outcomes.filter(|outcome: Outcome| outcome == Outcome::Added).len(),
        summary.updated == outcomes.filter(|outcome: Outcome| outcome == Outcome::Updated).len(),
        summary.deleted == outcomes.filter(|outcome: Outcome| outcome == Outcome::Deleted).len(),
        summary.skipped == outcomes.filter(|outcome: Outcome| outcome == Outcome::Skipped).len(),
{
    lemma_count_is_number(outcomes, Outcome::Added, |outcome: Outcome| outcome == Outcome::Added);
    lemma_count_is_number(outcomes, Outcome::Updated, |outcome: Outcome| outcome == Outcome::Updated);
    lemma_count_is_number(outcomes, Outcome::Deleted, |outcome: Outcome| outcome == Outcome::Deleted);
    lemma_count_is_number(outcomes, Outcome::Skipped, |outcome: Outcome| outcome == Outcome::Skipped);
}

/// The count of an outcome is the number of its occurrences.
proof fn lemma_count_is_number(outcomes: Seq<Outcome>, wanted: Outcome, is_wanted: spec_fn(Outcome) -> bool)
    requires
        forall|outcome: Outcome| #[trigger] is_wanted(outcome) <==> outcome == wanted,
    ensures
        count(outcomes, wanted) == outcomes.filter(is_wanted).len(),
    decreases outcomes.len(),
{
    reveal(Seq::filter);
    if outcomes.len() > 0 {
        lemma_count_is_number(outcomes.drop_last(), wanted, is_wanted);
        assert(is_wanted(outcomes.last()) <==> outcomes.last() == wanted);
    }
}

/// Of the events that the server no longer lists, those with a waiting change are skipped and the others
/// are deleted, one for each; and they follow what became of the resources that it lists.
pub proof fn law_what_becomes_of_the_unlisted(
    calendar_id: Uuid,
    pending: Seq<PendingView>,
    states: Seq<EventSyncView>,
    resources: Seq<IncomingView>,
)
    ensures
        unlisted_outcomes(pending, resources, states).filter(
            |outcome: Outcome| outcome == Outcome::Deleted,
        ).len() == states.filter(
            |state: EventSyncView|
                !is_listed(resources, state.remote_href) && !is_protected(pending, state),
        ).len(),
        unlisted_outcomes(pending, resources, states).filter(
            |outcome: Outcome| outcome == Outcome::Skipped,
        ).len() == states.filter(
            |state: EventSyncView|
                !is_listed(resources, state.remote_href) && is_protected(pending, state),
        ).len(),
        forall|i: int|
            0 <= i < resources.len() ==> #[trigger] snapshot_outcomes(
                calendar_id,
                pending,
                states,
                resources,
            )[i] == resource_step(calendar_id, pending, states, resources[i]).0,
        snapshot_outcomes(calendar_id, pending, states, resources).skip(resources.len() as int)
            == unlisted_outcomes(pending, resources, states),
    decreases states.len(),
{
    reveal(Seq::filter);
    if states.len() > 0 {
        law_what_becomes_of_the_unlisted(calendar_id, pending, states.drop_last(), resources);
        let before = unlisted_outcomes(pending, resources, states.drop_last());
        let out = unlisted_outcomes(pending, resources, states);
        if out.len() > before.len() {
            assert(out.drop_last() =~= before);
        }
    }
    assert(snapshot_outcomes(calendar_id, pending, states, resources).skip(resources.len() as int)
        =~= unlisted_outcomes(pending, resources, states));
}

} // verus!
