//! What is stored, and the changes that storage operations make to it.
//!
//! An operation reads the rows that it needs, decides, and hands back the writes to make in the
//! same transaction. What those writes do is said over the contents of the store.
use vstd::prelude::*;

use crate::model;
use crate::model::{Account, AccountView, Calendar, CalendarSyncState, CalendarSyncView, CalendarView, DetachedEvent, DetachedView, Event, EventSyncState, EventSyncView, EventView, PendingSyncOperation, PendingView, Uuid};

verus! {

/// One change of the store.
#[derive(Debug)]
pub enum StoreWrite {
    /// Add an event that is not there yet.
    InsertEvent { event: Event },
    /// Replace an event that is there.
    UpdateEvent { event: Event },
    /// Remove an event with its exceptions and its remote identity.
    DeleteEvent { id: Uuid },
    /// Add an exception of an event.
    InsertDetached { id: Uuid, master_id: Uuid, detached: DetachedEvent },
    /// Remove an exception.
    DeleteDetached { id: Uuid },
    /// Remove all the exceptions of an event.
    DeleteDetachedOf { master_id: Uuid },
    /// Let a change of an event wait for its upload, in place of any other that waits.
    PutPending { operation: PendingSyncOperation },
    /// Let no change of an event wait for its upload.
    DeletePending { event_id: Uuid },
    /// Note the remote identity of an event.
    PutEventSync { state: EventSyncState },
    /// Remove an event that is gone from the server, with its remote identity.
    RemoveRemoteEvent { state: EventSyncState },
    /// Note the remote identity of a calendar.
    PutCalendarSync { calendar_state: CalendarSyncState },
    /// Note how far the changes of a calendar have been read.
    SetSyncToken { calendar_id: Uuid, sync_token: Option<String> },
    /// Add a calendar or replace it.
    PutCalendar { calendar: Calendar },
    /// Add an account or replace it.
    PutAccount { account: Account },
}

/// The values of a [`StoreWrite`].
pub enum WriteView {
    InsertEvent { event: EventView },
    UpdateEvent { event: EventView },
    DeleteEvent { id: Uuid },
    InsertDetached { id: Uuid, master_id: Uuid, detached: DetachedView },
    DeleteDetached { id: Uuid },
    DeleteDetachedOf { master_id: Uuid },
    PutPending { operation: PendingView },
    DeletePending { event_id: Uuid },
    PutEventSync { state: EventSyncView },
    RemoveRemoteEvent { state: EventSyncView },
    PutCalendarSync { calendar_state: CalendarSyncView },
    SetSyncToken { calendar_id: Uuid, sync_token: Option<Seq<char>> },
    PutCalendar { calendar: CalendarView },
    PutAccount { account: AccountView },
}

impl View for StoreWrite {
    type V = WriteView;

    open spec fn view(&self) -> WriteView {
        match *self {
            StoreWrite::InsertEvent { event } => WriteView::InsertEvent { event: event@ },
            StoreWrite::UpdateEvent { event } => WriteView::UpdateEvent { event: event@ },
            StoreWrite::DeleteEvent { id } => WriteView::DeleteEvent { id },
            StoreWrite::InsertDetached { id, master_id, detached } => WriteView::InsertDetached {
                id,
                master_id,
                detached: detached@,
            },
            StoreWrite::DeleteDetached { id } => WriteView::DeleteDetached { id },
            StoreWrite::DeleteDetachedOf { master_id } => WriteView::DeleteDetachedOf { master_id },
            StoreWrite::PutPending { operation } => WriteView::PutPending { operation: operation@ },
            StoreWrite::DeletePending { event_id } => WriteView::DeletePending { event_id },
            StoreWrite::PutEventSync { state } => WriteView::PutEventSync { state: state@ },
            StoreWrite::RemoveRemoteEvent { state } => WriteView::RemoveRemoteEvent { state: state@ },
            StoreWrite::PutCalendarSync { calendar_state } => WriteView::PutCalendarSync {
                calendar_state: calendar_state@,
            },
            StoreWrite::SetSyncToken { calendar_id, sync_token } => WriteView::SetSyncToken {
                calendar_id,
                sync_token: model::text_view(sync_token),
            },
            StoreWrite::PutCalendar { calendar } => WriteView::PutCalendar { calendar: calendar@ },
            StoreWrite::PutAccount { account } => WriteView::PutAccount { account: account@ },
        }
    }
}

/// The values of a list of writes.
pub open spec fn write_views(writes: Seq<StoreWrite>) -> Seq<WriteView> {
    Seq::new(writes.len(), |i: int| writes[i]@)
}

/// One more write at the end of a list.
pub proof fn lemma_write_views_push(writes: Seq<StoreWrite>, write: StoreWrite)
    ensures
        write_views(writes.push(write)) == write_views(writes).push(write@),
{
    assert(write_views(writes.push(write)) =~= write_views(writes).push(write@));
}

/// An exception and the event that it belongs to.
pub struct DetachedRow {
    pub master_id: Uuid,
    pub detached: DetachedView,
}

/// The contents of the store.
#[verifier::ext_equal]
pub struct StoreView {
    pub accounts: Map<Uuid, AccountView>,
    pub calendars: Map<Uuid, CalendarView>,
    pub events: Map<Uuid, EventView>,
    pub detached: Map<Uuid, DetachedRow>,
    pub pending: Map<Uuid, PendingView>,
    pub event_sync: Map<Uuid, EventSyncView>,
    pub calendar_sync: Map<Uuid, CalendarSyncView>,
}

/// The event that a waiting change is about.
pub open spec fn pending_event(operation: PendingView) -> Uuid {
    match operation {
        PendingView::Create { event_id, .. } => event_id,
        PendingView::Update { event_id, .. } => event_id,
        PendingView::Delete { event_id, .. } => event_id,
    }
}

/// The exceptions that belong to other events.
pub open spec fn detached_of_others(detached: Map<Uuid, DetachedRow>, master_id: Uuid) -> Map<
    Uuid,
    DetachedRow,
> {
    detached.restrict(Set::new(|id: Uuid| detached.dom().contains(id) && detached[id].master_id != master_id))
}

/// The contents of the store after a write.
pub open spec fn applied(store: StoreView, write: WriteView) -> StoreView {
    match write {
        WriteView::InsertEvent { event } => StoreView {
            events: store.events.insert(event.id, event),
            ..store
        },
        WriteView::UpdateEvent { event } => StoreView {
            events: store.events.insert(event.id, event),
            ..store
        },
        WriteView::DeleteEvent { id } => StoreView {
            events: store.events.remove(id),
            detached: detached_of_others(store.detached, id),
            event_sync: store.event_sync.remove(id),
            ..store
        },
        WriteView::InsertDetached { id, master_id, detached } => StoreView {
            detached: store.detached.insert(id, DetachedRow { master_id, detached }),
            ..store
        },
        WriteView::DeleteDetached { id } => StoreView {
            detached: store.detached.remove(id),
            ..store
        },
        WriteView::DeleteDetachedOf { master_id } => StoreView {
            detached: detached_of_others(store.detached, master_id),
            ..store
        },
        WriteView::PutPending { operation } => StoreView {
            pending: store.pending.insert(pending_event(operation), operation),
            ..store
        },
        WriteView::DeletePending { event_id } => StoreView {
            pending: store.pending.remove(event_id),
            ..store
        },
        WriteView::PutEventSync { state } => StoreView {
            event_sync: store.event_sync.insert(state.event_id, state),
            ..store
        },
        WriteView::RemoveRemoteEvent { state } => StoreView {
            events: store.events.remove(state.event_id),
            detached: detached_of_others(store.detached, state.event_id),
            event_sync: store.event_sync.remove(state.event_id),
            ..store
        },
        WriteView::PutCalendarSync { calendar_state } => StoreView {
            calendar_sync: store.calendar_sync.insert(calendar_state.calendar_id, calendar_state),
            ..store
        },
        WriteView::SetSyncToken { calendar_id, sync_token } => if store.calendar_sync.dom().contains(
            calendar_id,
        ) {
            StoreView {
                calendar_sync: store.calendar_sync.insert(
                    calendar_id,
                    CalendarSyncView { sync_token, ..store.calendar_sync[calendar_id] },
                ),
                ..store
            }
        } else {
            store
        },
        WriteView::PutCalendar { calendar } => StoreView {
            calendars: store.calendars.insert(calendar.id, calendar),
            ..store
        },
        WriteView::PutAccount { account } => StoreView {
            accounts: store.accounts.insert(account.id, account),
            ..store
        },
    }
}

/// The contents of the store after a list of writes.
pub open spec fn applied_all(store: StoreView, writes: Seq<WriteView>) -> StoreView
    decreases writes.len(),
{
    if writes.len() == 0 {
        store
    } else {
        applied(applied_all(store, writes.drop_last()), writes.last())
    }
}

/// Writes made one list after the other.
pub proof fn lemma_applied_all_concat(store: StoreView, first: Seq<WriteView>, second: Seq<WriteView>)
    ensures
        applied_all(store, first + second) == applied_all(applied_all(store, first), second),
    decreases second.len(),
{
    if second.len() == 0 {
        assert(first + second =~= first);
    } else {
        assert((first + second).drop_last() =~= first + second.drop_last());
        lemma_applied_all_concat(store, first, second.drop_last());
    }
}

/// A list of one write.
pub proof fn lemma_applied_one(store: StoreView, write: WriteView)
    ensures
        applied_all(store, seq![write]) == applied(store, write),
{
    assert(seq![write].drop_last() =~= seq![]);
    assert(applied_all(store, seq![write].drop_last()) == store);
}

/// One more write at the end.
pub proof fn lemma_applied_push(store: StoreView, writes: Seq<WriteView>, write: WriteView)
    ensures
        applied_all(store, writes.push(write)) == applied(applied_all(store, writes), write),
{
    assert(writes.push(write).drop_last() =~= writes);
}

/// What is stored under a key, where there is anything.
pub open spec fn stored<V>(map: Map<Uuid, V>, id: Uuid) -> Option<V> {
    if map.dom().contains(id) {
        Some(map[id])
    } else {
        None
    }
}

/// The values of an optional waiting change.
pub open spec fn pending_view(operation: Option<PendingSyncOperation>) -> Option<PendingView> {
    match operation {
        Some(operation) => Some(operation@),
        None => None,
    }
}

/// The values of an optional remote identity.
pub open spec fn sync_view(state: Option<EventSyncState>) -> Option<EventSyncView> {
    match state {
        Some(state) => Some(state@),
        None => None,
    }
}

/// A copy of an optional waiting change.
pub fn copy_pending(operation: &Option<PendingSyncOperation>) -> (r: Option<PendingSyncOperation>)
    ensures
        pending_view(r) == pending_view(*operation),
{
    match operation {
        Some(operation) => Some(operation.clone()),
        None => None,
    }
}

/// A copy of an optional remote identity.
pub fn copy_sync(state: &Option<EventSyncState>) -> (r: Option<EventSyncState>)
    ensures
        sync_view(r) == sync_view(*state),
{
    match state {
        Some(state) => Some(state.clone()),
        None => None,
    }
}

} // verus!
