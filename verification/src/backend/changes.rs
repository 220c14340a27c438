//! Changes of single events, with what they leave to upload and how they are undone.
use vstd::prelude::*;

use crate::backend::ids;
use crate::backend::store;
use crate::backend::store::{StoreView, StoreWrite, WriteView};
use crate::backend::RepositoryError;
use crate::model;
use crate::model::{Calendar, CalendarSource, CalendarView, Event, EventSyncState, EventSyncView, EventView, PendingSyncOperation, PendingView, Uuid};

verus! {

/// The values of an optional calendar.
pub open spec fn calendar_view(calendar: Option<Calendar>) -> Option<CalendarView> {
    match calendar {
        Some(calendar) => Some(calendar@),
        None => None,
    }
}

/// Whether a calendar is there and can be written to.
pub open spec fn is_writable(calendar: Option<CalendarView>) -> bool {
    calendar matches Some(calendar) && !calendar.read_only
}

/// The values of an optional event.
pub open spec fn event_view(event: Option<Event>) -> Option<EventView> {
    match event {
        Some(event) => Some(event@),
        None => None,
    }
}

// ---------------------------------------------------------------------------------------------
// Creating
// ---------------------------------------------------------------------------------------------

/// The upload of a new event, under the identifier that the event has here.
pub open spec fn create_operation(calendar_id: Uuid, event_id: Uuid) -> PendingView {
    PendingView::Create { calendar_id, event_id, remote_uid: ids::uuid_chars(event_id) }
}

/// The upload of a new event, under the identifier that the event has here.
pub fn make_create_operation(calendar_id: Uuid, event_id: Uuid) -> (r: PendingSyncOperation)
    ensures
        r@ == create_operation(calendar_id, event_id),
{
    PendingSyncOperation::Create { calendar_id, event_id, remote_uid: ids::uuid_text(event_id) }
}

/// The writes that create an event in a writable calendar.
pub open spec fn create_writes(event: EventView, calendar: CalendarView) -> Seq<WriteView> {
    if calendar.source is CalDav {
        seq![
            WriteView::InsertEvent { event },
            WriteView::PutPending { operation: create_operation(event.calendar_id, event.id) },
        ]
    } else {
        seq![WriteView::InsertEvent { event }]
    }
}

/// Create an event: refused where its calendar is missing or read-only. In a remote calendar its
/// upload waits.
pub fn create_event_with_sync(event: &Event, calendar: &Option<Calendar>) -> (r: Result<
    Vec<StoreWrite>,
    RepositoryError,
>)
    ensures
        match r {
            Ok(writes) => is_writable(calendar_view(*calendar)) && store::write_views(writes@)
                == create_writes(event@, calendar->0@),
            Err(_) => !is_writable(calendar_view(*calendar)),
        },
{
    let calendar = match calendar {
        Some(calendar) => calendar,
        None => {
            return Err(RepositoryError);
        },
    };
    if calendar.read_only {
        return Err(RepositoryError);
    }
    let mut writes: Vec<StoreWrite> = Vec::new();
    writes.push(StoreWrite::InsertEvent { event: event.clone() });
    if let CalendarSource::CalDav { .. } = calendar.source {
        writes.push(
            StoreWrite::PutPending { operation: make_create_operation(event.calendar_id, event.id) },
        );
    }
    assert(store::write_views(writes@) =~= create_writes(event@, calendar@));
    Ok(writes)
}

/// The uploads of events that are stored in a remote calendar and were never queued.
pub open spec fn orphan_writes(calendar_id: Uuid, event_ids: Seq<Uuid>) -> Seq<WriteView> {
    Seq::new(
        event_ids.len(),
        |i: int| WriteView::PutPending { operation: create_operation(calendar_id, event_ids[i]) },
    )
}

/// Let the uploads of events wait that are stored in a remote calendar and were never queued.
pub fn queue_orphan_event_creates(calendar_id: Uuid, event_ids: &Vec<Uuid>) -> (r: Vec<StoreWrite>)
    ensures
        store::write_views(r@) == orphan_writes(calendar_id, event_ids@),
{
    let mut writes: Vec<StoreWrite> = Vec::new();
    for i in 0..event_ids.len()
        invariant
            store::write_views(writes@) == orphan_writes(calendar_id, event_ids@.take(i as int)),
    {
        let ghost before = writes@;
        let operation = make_create_operation(calendar_id, event_ids[i]);
        writes.push(StoreWrite::PutPending { operation });
        proof {
            store::lemma_write_views_push(before, writes@.last());
            assert(orphan_writes(calendar_id, event_ids@.take(i + 1)) =~= orphan_writes(
                calendar_id,
                event_ids@.take(i as int),
            ).push(writes@.last()@));
        }
    }
    assert(event_ids@.take(event_ids@.len() as int) =~= event_ids@);
    writes
}

// ---------------------------------------------------------------------------------------------
// Updating
// ---------------------------------------------------------------------------------------------

/// What is stored of an event before it changes.
pub struct StoredEvent {
    /// The calendar that holds the event.
    pub calendar: Option<Calendar>,
    /// The change of the event that waits for its upload.
    pub pending: Option<PendingSyncOperation>,
    /// The remote identity of the event.
    pub sync_state: Option<EventSyncState>,
}

/// The upload of a change of an event that is known to the server.
pub open spec fn update_operation(calendar_id: Uuid, event_id: Uuid, state: EventSyncView) -> PendingView {
    PendingView::Update {
        calendar_id,
        event_id,
        remote_href: state.remote_href,
        remote_uid: state.remote_uid,
        base_etag: state.etag,
    }
}

/// The change that waits after an event in a remote calendar was updated. What waits already stays,
/// and a deletion that waits refuses the update.
pub open spec fn operation_after_update(
    event: EventView,
    pending: Option<PendingView>,
    sync_state: Option<EventSyncView>,
) -> Option<PendingView> {
    match pending {
        Some(PendingView::Delete { .. }) => None,
        Some(operation) => Some(operation),
        None => match sync_state {
            Some(state) => Some(update_operation(event.calendar_id, event.id, state)),
            None => Some(create_operation(event.calendar_id, event.id)),
        },
    }
}

/// The writes that update an event, where it is there, both its calendars can be written to, and it
/// does not leave the calendar in which the server knows it.
pub open spec fn update_writes(
    event: EventView,
    existing: Option<CalendarView>,
    calendar: Option<CalendarView>,
    pending: Option<PendingView>,
    sync_state: Option<EventSyncView>,
) -> Option<Seq<WriteView>> {
    match (existing, calendar) {
        (Some(existing), Some(calendar)) => if existing.read_only || calendar.read_only || (
        sync_state is Some && existing.id != event.calendar_id) {
            None
        } else if calendar.source is Local {
            Some(
                seq![
                    WriteView::UpdateEvent { event },
                    WriteView::DeletePending { event_id: event.id },
                ],
            )
        } else {
            match operation_after_update(event, pending, sync_state) {
                Some(operation) => Some(
                    seq![WriteView::UpdateEvent { event }, WriteView::PutPending { operation }],
                ),
                None => None,
            }
        },
        _ => None,
    }
}

/// Update an event. `existing` is what is stored of it; nothing where the event is missing.
pub fn update_event_with_sync(
    event: &Event,
    existing: &Option<StoredEvent>,
    calendar: &Option<Calendar>,
) -> (r: Result<Vec<StoreWrite>, RepositoryError>)
    ensures
        match existing {
            Some(existing) => match r {
                Ok(writes) => update_writes(
                    event@,
                    calendar_view(existing.calendar),
                    calendar_view(*calendar),
                    store::pending_view(existing.pending),
                    store::sync_view(existing.sync_state),
                ) == Some(store::write_views(writes@)),
                Err(_) => update_writes(
                    event@,
                    calendar_view(existing.calendar),
                    calendar_view(*calendar),
                    store::pending_view(existing.pending),
                    store::sync_view(existing.sync_state),
                ) is None,
            },
            None => r is Err,
        },
{
    let stored = match existing {
        Some(stored) => stored,
        None => {
            return Err(RepositoryError);
        },
    };
    let (held_by, moved_to): (&Calendar, &Calendar) = match (&stored.calendar, calendar) {
        (Some(held_by), Some(moved_to)) => (held_by, moved_to),
        _ => {
            return Err(RepositoryError);
        },
    };
    if held_by.read_only || moved_to.read_only {
        return Err(RepositoryError);
    }
    if stored.sync_state.is_some() && held_by.id != event.calendar_id {
        return Err(RepositoryError);
    }
    let mut writes: Vec<StoreWrite> = Vec::new();
    writes.push(StoreWrite::UpdateEvent { event: event.clone() });
    match moved_to.source {
        CalendarSource::Local => {
            writes.push(StoreWrite::DeletePending { event_id: event.id });
            assert(store::write_views(writes@) =~= seq![
                WriteView::UpdateEvent { event: event@ },
                WriteView::DeletePending { event_id: event.id },
            ]);
        },
        CalendarSource::CalDav { .. } => {
            let operation = match &stored.pending {
                Some(PendingSyncOperation::Delete { .. }) => {
                    return Err(RepositoryError);
                },
                Some(operation) => operation.clone(),
                None => match &stored.sync_state {
                    Some(state) => PendingSyncOperation::Update {
                        calendar_id: event.calendar_id,
                        event_id: event.id,
                        remote_href: state.remote_href.clone(),
                        remote_uid: state.remote_uid.clone(),
                        base_etag: model::copy_text(&state.etag),
                    },
                    None => make_create_operation(event.calendar_id, event.id),
                },
            };
            let ghost operation_view = operation@;
            writes.push(StoreWrite::PutPending { operation });
            assert(store::write_views(writes@) =~= seq![
                WriteView::UpdateEvent { event: event@ },
                WriteView::PutPending { operation: operation_view },
            ]);
        },
    }
    Ok(writes)
}

// ---------------------------------------------------------------------------------------------
// Deleting
// ---------------------------------------------------------------------------------------------

/// A deleted event with what is needed to restore it once.
#[derive(Debug)]
pub struct EventDeletionUndo {
    pub event: Event,
    pub restored: bool,
    pub event_sync_state: Option<EventSyncState>,
    pub prior_pending_operation: Option<PendingSyncOperation>,
    pub sync_undo: bool,
    pub delete_tombstone: bool,
}

/// The values of an [`EventDeletionUndo`].
pub struct DeletionView {
    pub event: EventView,
    pub restored: bool,
    pub event_sync_state: Option<EventSyncView>,
    pub prior_pending_operation: Option<PendingView>,
    pub sync_undo: bool,
    pub delete_tombstone: bool,
}

impl View for EventDeletionUndo {
    type V = DeletionView;

    open spec fn view(&self) -> DeletionView {
        DeletionView {
            event: self.event@,
            restored: self.restored,
            event_sync_state: store::sync_view(self.event_sync_state),
            prior_pending_operation: store::pending_view(self.prior_pending_operation),
            sync_undo: self.sync_undo,
            delete_tombstone: self.delete_tombstone,
        }
    }
}

/// The deletion that waits for its upload once an event of a remote calendar is gone: none where
/// the server never knew the event.
pub open spec fn delete_operation(
    calendar: CalendarView,
    pending: Option<PendingView>,
    sync_state: Option<EventSyncView>,
) -> Option<PendingView> {
    if calendar.source is Local {
        None
    } else {
        match pending {
            Some(PendingView::Update { calendar_id, event_id, remote_href, remote_uid, base_etag }) => Some(
                PendingView::Delete { calendar_id, event_id, remote_href, remote_uid, base_etag },
            ),
            Some(_) => None,
            None => match sync_state {
                Some(state) => Some(
                    PendingView::Delete {
                        calendar_id: state.calendar_id,
                        event_id: state.event_id,
                        remote_href: state.remote_href,
                        remote_uid: state.remote_uid,
                        base_etag: state.etag,
                    },
                ),
                None => None,
            },
        }
    }
}

/// Whether an event can be deleted: its calendar can be written to, and no deletion of it waits.
pub open spec fn can_delete(calendar: Option<CalendarView>, pending: Option<PendingView>) -> bool {
    is_writable(calendar) && !(calendar->0.source is CalDav && pending matches Some(
        PendingView::Delete { .. },
    ))
}

/// The writes that delete an event.
pub open spec fn delete_writes(id: Uuid, operation: Option<PendingView>) -> Seq<WriteView> {
    let gone = seq![WriteView::DeleteEvent { id }, WriteView::DeletePending { event_id: id }];
    match operation {
        Some(operation) => gone.push(WriteView::PutPending { operation }),
        None => gone,
    }
}

/// Delete an event. What is handed back beside the writes restores it.
pub fn delete_event_with_sync_undo(event: &Event, stored: &StoredEvent) -> (r: Result<
    (Vec<StoreWrite>, EventDeletionUndo),
    RepositoryError,
>)
    ensures
        ({
            let calendar = calendar_view(stored.calendar);
            let pending = store::pending_view(stored.pending);
            let state = store::sync_view(stored.sync_state);
            match r {
                Ok((writes, undo)) => can_delete(calendar, pending) && store::write_views(writes@)
                    == delete_writes(event.id, delete_operation(calendar->0, pending, state))
                    && undo@ == (DeletionView {
                    event: event@,
                    restored: false,
                    event_sync_state: state,
                    prior_pending_operation: pending,
                    sync_undo: true,
                    delete_tombstone: delete_operation(calendar->0, pending, state) is Some,
                }),
                Err(_) => !can_delete(calendar, pending),
            }
        }),
{
    let calendar = match &stored.calendar {
        Some(calendar) => calendar,
        None => {
            return Err(RepositoryError);
        },
    };
    if calendar.read_only {
        return Err(RepositoryError);
    }
    let operation = match calendar.source {
        CalendarSource::Local => None,
        CalendarSource::CalDav { .. } => match &stored.pending {
            Some(PendingSyncOperation::Create { .. }) => None,
            Some(
                PendingSyncOperation::Update {
                    calendar_id,
                    event_id,
                    remote_href,
                    remote_uid,
                    base_etag,
                },
            ) => Some(
                PendingSyncOperation::Delete {
                    calendar_id: *calendar_id,
                    event_id: *event_id,
                    remote_href: remote_href.clone(),
                    remote_uid: remote_uid.clone(),
                    base_etag: model::copy_text(base_etag),
                },
            ),
            Some(PendingSyncOperation::Delete { .. }) => {
                return Err(RepositoryError);
            },
            None => match &stored.sync_state {
                Some(state) => Some(
                    PendingSyncOperation::Delete {
                        calendar_id: state.calendar_id,
                        event_id: state.event_id,
                        remote_href: state.remote_href.clone(),
                        remote_uid: state.remote_uid.clone(),
                        base_etag: model::copy_text(&state.etag),
                    },
                ),
                None => None,
            },
        },
    };
    let ghost operation_view = store::pending_view(operation);
    assert(operation_view == delete_operation(
        calendar@,
        store::pending_view(stored.pending),
        store::sync_view(stored.sync_state),
    ));
    let tombstone = operation.is_some();
    let mut writes: Vec<StoreWrite> = Vec::new();
    writes.push(StoreWrite::DeleteEvent { id: event.id });
    writes.push(StoreWrite::DeletePending { event_id: event.id });
    if let Some(operation) = operation {
        writes.push(StoreWrite::PutPending { operation });
    }
    assert(store::write_views(writes@) =~= delete_writes(event.id, operation_view));
    let undo = EventDeletionUndo {
        event: event.clone(),
        restored: false,
        event_sync_state: store::copy_sync(&stored.sync_state),
        prior_pending_operation: store::copy_pending(&stored.pending),
        sync_undo: true,
        delete_tombstone: tombstone,
    };
    Ok((writes, undo))
}

/// Whether a deleted event can be restored: once, into a writable calendar, where no event has
/// taken its identifier, and while the deletion still waits for its upload if it was queued.
pub open spec fn can_restore(
    undo: DeletionView,
    calendar: Option<CalendarView>,
    exists_now: bool,
    pending: Option<PendingView>,
) -> bool {
    &&& !undo.restored
    &&& is_writable(calendar)
    &&& !exists_now
    &&& undo.sync_undo && undo.delete_tombstone ==> pending matches Some(PendingView::Delete { .. })
}

/// The writes that restore a deleted event.
pub open spec fn restore_writes(undo: DeletionView) -> Seq<WriteView> {
    let back = seq![
        WriteView::InsertEvent { event: undo.event },
        WriteView::DeletePending { event_id: undo.event.id },
    ];
    let identity = match undo.event_sync_state {
        Some(state) => seq![WriteView::PutEventSync { state }],
        None => seq![],
    };
    let waiting = match undo.prior_pending_operation {
        Some(operation) => seq![WriteView::PutPending { operation }],
        None => seq![],
    };
    back + identity + waiting
}

/// Restore a deleted event.
pub fn undo_event_with_sync(
    undo: &EventDeletionUndo,
    calendar: &Option<Calendar>,
    exists_now: bool,
    pending: &Option<PendingSyncOperation>,
) -> (r: Result<Vec<StoreWrite>, RepositoryError>)
    ensures
        match r {
            Ok(writes) => can_restore(
                undo@,
                calendar_view(*calendar),
                exists_now,
                store::pending_view(*pending),
            ) && store::write_views(writes@) == restore_writes(undo@),
            Err(_) => !can_restore(
                undo@,
                calendar_view(*calendar),
                exists_now,
                store::pending_view(*pending),
            ),
        },
{
    if undo.restored || exists_now {
        return Err(RepositoryError);
    }
    match calendar {
        Some(calendar) => {
            if calendar.read_only {
                return Err(RepositoryError);
            }
        },
        None => {
            return Err(RepositoryError);
        },
    }
    if undo.sync_undo && undo.delete_tombstone {
        match pending {
            Some(PendingSyncOperation::Delete { .. }) => {},
            _ => {
                return Err(RepositoryError);
            },
        }
    }
    let mut writes: Vec<StoreWrite> = Vec::new();
    writes.push(StoreWrite::InsertEvent { event: undo.event.clone() });
    writes.push(StoreWrite::DeletePending { event_id: undo.event.id });
    if let Some(state) = &undo.event_sync_state {
        writes.push(StoreWrite::PutEventSync { state: state.clone() });
    }
    if let Some(operation) = &undo.prior_pending_operation {
        writes.push(StoreWrite::PutPending { operation: operation.clone() });
    }
    assert(store::write_views(writes@) =~= restore_writes(undo@));
    Ok(writes)
}

impl EventDeletionUndo {
    /// Note that the event is back.
    pub fn mark_restored(&mut self)
        ensures
            final(self)@ == (DeletionView { restored: true, ..old(self)@ }),
    {
        self.restored = true;
    }
}

/// Restoring a deleted event leaves the store as it was before the deletion, where the event had no
/// exceptions.
pub proof fn law_undo_restores_the_event(store: StoreView, event: EventView, calendar: CalendarView)
    requires
        store::stored(store.events, event.id) == Some(event),
        forall|id: Uuid|
            store.detached.dom().contains(id) ==> (#[trigger] store.detached[id]).master_id
                != event.id,
        store::stored(store.pending, event.id) matches Some(operation) ==> store::pending_event(
            operation,
        ) == event.id,
        store::stored(store.event_sync, event.id) matches Some(state) ==> state.event_id == event.id,
        can_delete(Some(calendar), store::stored(store.pending, event.id)),
    ensures
        ({
            let pending = store::stored(store.pending, event.id);
            let state = store::stored(store.event_sync, event.id);
            let operation = delete_operation(calendar, pending, state);
            let undo = DeletionView {
                event,
                restored: false,
                event_sync_state: state,
                prior_pending_operation: pending,
                sync_undo: true,
                delete_tombstone: operation is Some,
            };
            let deleted = store::applied_all(store, delete_writes(event.id, operation));
            &&& can_restore(
                undo,
                Some(calendar),
                deleted.events.dom().contains(event.id),
                store::stored(deleted.pending, event.id),
            )
            &&& store::applied_all(deleted, restore_writes(undo)) == store
        }),
{
    let pending = store::stored(store.pending, event.id);
    let state = store::stored(store.event_sync, event.id);
    let operation = delete_operation(calendar, pending, state);
    let undo = DeletionView {
        event,
        restored: false,
        event_sync_state: state,
        prior_pending_operation: pending,
        sync_undo: true,
        delete_tombstone: operation is Some,
    };
    let gone = seq![
        WriteView::DeleteEvent { id: event.id },
        WriteView::DeletePending { event_id: event.id },
    ];
    let s1 = store::applied(store, WriteView::DeleteEvent { id: event.id });
    let s2 = store::applied(s1, WriteView::DeletePending { event_id: event.id });
    assert(gone =~= seq![WriteView::DeleteEvent { id: event.id }].push(
        WriteView::DeletePending { event_id: event.id },
    ));
    store::lemma_applied_one(store, WriteView::DeleteEvent { id: event.id });
    store::lemma_applied_push(
        store,
        seq![WriteView::DeleteEvent { id: event.id }],
        WriteView::DeletePending { event_id: event.id },
    );
    assert(store::applied_all(store, gone) == s2);
    let s3 = match operation {
        Some(operation) => store::applied(s2, WriteView::PutPending { operation }),
        None => s2,
    };
    if operation is Some {
        store::lemma_applied_push(store, gone, WriteView::PutPending { operation: operation->0 });
    }
    let deleted = store::applied_all(store, delete_writes(event.id, operation));
    assert(deleted == s3);
    let w1 = WriteView::InsertEvent { event };
    let w2 = WriteView::DeletePending { event_id: event.id };
    let back = seq![w1, w2];
    let t1 = store::applied(s3, w1);
    let t2 = store::applied(t1, w2);
    store::lemma_applied_one(s3, w1);
    store::lemma_applied_push(s3, seq![w1], w2);
    assert(back =~= seq![w1].push(w2));
    assert(store::applied_all(s3, back) == t2);
    let identity: Seq<WriteView> = match state {
        Some(state) => seq![WriteView::PutEventSync { state }],
        None => seq![],
    };
    let t3 = match state {
        Some(state) => store::applied(t2, WriteView::PutEventSync { state }),
        None => t2,
    };
    store::lemma_applied_all_concat(s3, back, identity);
    if state is Some {
        store::lemma_applied_one(t2, WriteView::PutEventSync { state: state->0 });
    }
    assert(store::applied_all(s3, back + identity) == t3);
    let waiting: Seq<WriteView> = match pending {
        Some(operation) => seq![WriteView::PutPending { operation }],
        None => seq![],
    };
    let t4 = match pending {
        Some(operation) => store::applied(t3, WriteView::PutPending { operation }),
        None => t3,
    };
    store::lemma_applied_all_concat(s3, back + identity, waiting);
    if pending is Some {
        store::lemma_applied_one(t3, WriteView::PutPending { operation: pending->0 });
    }
    assert(store::applied_all(s3, restore_writes(undo)) == t4);
    assert(store::detached_of_others(store.detached, event.id) =~= store.detached);
    assert(t4.events =~= store.events);
    assert(t4.pending =~= store.pending);
    assert(t4.event_sync =~= store.event_sync);
    assert(t4 =~= store);
}

// ---------------------------------------------------------------------------------------------
// Changes that no server is told of
// ---------------------------------------------------------------------------------------------

/// Whether an event can be replaced: it is there, and where it has a remote identity it stays in its
/// calendar.
pub open spec fn can_replace(calendar_id: Uuid, existing_calendar: Option<Uuid>, has_remote_identity: bool) -> bool {
    match existing_calendar {
        Some(existing) => !has_remote_identity || existing == calendar_id,
        None => false,
    }
}

/// Replace an event; `existing_calendar` is the calendar that it is in so far.
pub fn update_event(event: &Event, existing_calendar: Option<Uuid>, has_remote_identity: bool) -> (r: Result<
    Vec<StoreWrite>,
    RepositoryError,
>)
    ensures
        match r {
            Ok(writes) => can_replace(event.calendar_id, existing_calendar, has_remote_identity)
                && store::write_views(writes@) == seq![WriteView::UpdateEvent { event: event@ }],
            Err(_) => !can_replace(event.calendar_id, existing_calendar, has_remote_identity),
        },
{
    let replaceable = match existing_calendar {
        Some(existing) => !has_remote_identity || existing == event.calendar_id,
        None => false,
    };
    if !replaceable {
        return Err(RepositoryError);
    }
    let mut writes: Vec<StoreWrite> = Vec::new();
    writes.push(StoreWrite::UpdateEvent { event: event.clone() });
    assert(store::write_views(writes@) =~= seq![WriteView::UpdateEvent { event: event@ }]);
    Ok(writes)
}

/// Delete an event, and what is needed to restore it once.
pub fn delete_event_with_undo(event: &Event) -> (r: (Vec<StoreWrite>, EventDeletionUndo))
    ensures
        store::write_views(r.0@) == seq![WriteView::DeleteEvent { id: event.id }],
        r.1@ == (DeletionView {
            event: event@,
            restored: false,
            event_sync_state: None,
            prior_pending_operation: None,
            sync_undo: false,
            delete_tombstone: false,
        }),
{
    let mut writes: Vec<StoreWrite> = Vec::new();
    writes.push(StoreWrite::DeleteEvent { id: event.id });
    assert(store::write_views(writes@) =~= seq![WriteView::DeleteEvent { id: event.id }]);
    (
        writes,
        EventDeletionUndo {
            event: event.clone(),
            restored: false,
            event_sync_state: None,
            prior_pending_operation: None,
            sync_undo: false,
            delete_tombstone: false,
        },
    )
}

/// Restore a deleted event, once, and never in place of another.
pub fn undo_delete_event(undo: &EventDeletionUndo, exists_now: bool) -> (r: Result<
    Vec<StoreWrite>,
    RepositoryError,
>)
    ensures
        match r {
            Ok(writes) => !undo@.restored && !exists_now && store::write_views(writes@) == seq![
                WriteView::InsertEvent { event: undo@.event },
            ],
            Err(_) => undo@.restored || exists_now,
        },
{
    if undo.restored || exists_now {
        return Err(RepositoryError);
    }
    let mut writes: Vec<StoreWrite> = Vec::new();
    writes.push(StoreWrite::InsertEvent { event: undo.event.clone() });
    assert(store::write_views(writes@) =~= seq![WriteView::InsertEvent { event: undo@.event }]);
    Ok(writes)
}

/// An event that is deleted and restored is as it was, and so is every other event.
pub proof fn law_undone_deletion_restores_the_event(before: StoreView, event: EventView)
    requires
        before.events.contains_key(event.id),
        before.events[event.id] == event,
    ensures
        store::applied(
            store::applied(before, WriteView::DeleteEvent { id: event.id }),
            WriteView::InsertEvent { event },
        ).events == before.events,
{
    assert(before.events.remove(event.id).insert(event.id, event) =~= before.events);
}

/// A new event is stored. In a calendar that is kept on a server its creation waits for the upload,
/// under a name made of its identifier; in a local one nothing waits because of it.
pub proof fn law_created_event_is_stored(store: StoreView, event: EventView, calendar: CalendarView)
    ensures
        ({
            let after = store::applied_all(store, create_writes(event, calendar));
            &&& after.events == store.events.insert(event.id, event)
            &&& after.event_sync == store.event_sync && after.detached == store.detached
            &&& calendar.source is Local ==> after.pending == store.pending
            &&& calendar.source is CalDav ==> after.pending == store.pending.insert(
                event.id,
                PendingView::Create {
                    calendar_id: event.calendar_id,
                    event_id: event.id,
                    remote_uid: ids::uuid_chars(event.id),
                },
            )
        }),
{
    let writes = create_writes(event, calendar);
    if calendar.source is CalDav {
        assert(writes =~= seq![writes[0]].push(writes[1]));
        store::lemma_applied_push(store, seq![writes[0]], writes[1]);
    }
    store::lemma_applied_one(store, writes[0]);
}

/// Only a calendar that is there and is not read-only can be written to.
pub proof fn law_writable_calendars(calendar: Option<CalendarView>)
    ensures
        calendar is None ==> !is_writable(calendar),
        calendar matches Some(found) ==> (is_writable(calendar) <==> !found.read_only),
{
}

/// A changed event is stored. In a local calendar nothing waits because of it. In one that is kept on
/// a server a change waits: a creation or a change that waits already goes on waiting; for an event
/// that the server knows, a change of the version that is known; and otherwise its creation.
pub proof fn law_updated_event_is_stored(
    store: StoreView,
    event: EventView,
    existing: CalendarView,
    calendar: CalendarView,
    sync_state: Option<EventSyncView>,
)
    requires
        !existing.read_only,
        !calendar.read_only,
        sync_state is Some ==> existing.id == event.calendar_id,
        calendar.source is CalDav ==> !(store::stored(store.pending, event.id) matches Some(
            PendingView::Delete { .. },
        )),
        store::stored(store.pending, event.id) matches Some(operation) ==> store::pending_event(
            operation,
        ) == event.id,
    ensures
        ({
            let pending = store::stored(store.pending, event.id);
            let writes = update_writes(event, Some(existing), Some(calendar), pending, sync_state);
            let after = store::applied_all(store, writes->0);
            &&& writes is Some
            &&& after.events == store.events.insert(event.id, event)
            &&& after.event_sync == store.event_sync && after.detached == store.detached
            &&& calendar.source is Local ==> store::stored(after.pending, event.id) is None
            &&& calendar.source is CalDav ==> store::stored(after.pending, event.id) == match (
                pending,
                sync_state,
            ) {
                (Some(operation), _) => Some(operation),
                (None, Some(state)) => Some(
                    PendingView::Update {
                        calendar_id: event.calendar_id,
                        event_id: event.id,
                        remote_href: state.remote_href,
                        remote_uid: state.remote_uid,
                        base_etag: state.etag,
                    },
                ),
                (None, None) => Some(
                    PendingView::Create {
                        calendar_id: event.calendar_id,
                        event_id: event.id,
                        remote_uid: ids::uuid_chars(event.id),
                    },
                ),
            }
        }),
{
    let pending = store::stored(store.pending, event.id);
    let writes = update_writes(event, Some(existing), Some(calendar), pending, sync_state)->0;
    assert(writes =~= seq![writes[0]].push(writes[1]));
    store::lemma_applied_push(store, seq![writes[0]], writes[1]);
    store::lemma_applied_one(store, writes[0]);
}

/// A change of an event is refused where a calendar is missing or read-only, where the event is known
/// to a server and would move to another calendar, and where its deletion waits for the upload.
pub proof fn law_refused_updates(
    event: EventView,
    existing: Option<CalendarView>,
    calendar: Option<CalendarView>,
    pending: Option<PendingView>,
    sync_state: Option<EventSyncView>,
)
    ensures
        existing is None || calendar is None ==> update_writes(
            event,
            existing,
            calendar,
            pending,
            sync_state,
        ) is None,
        existing matches Some(from) ==> (from.read_only || (sync_state is Some && from.id
            != event.calendar_id)) ==> update_writes(event, existing, calendar, pending, sync_state)
            is None,
        calendar matches Some(to) ==> (to.read_only || (to.source is CalDav && pending matches Some(
            PendingView::Delete { .. },
        ))) ==> update_writes(event, existing, calendar, pending, sync_state) is None,
{
}

/// A deleted event is gone, with its remote identity and its exceptions. In a calendar that is kept on
/// a server its deletion waits for the upload where the server knows it: against the version that a
/// waiting change was made against, or the one that is known. An event that was never uploaded leaves
/// nothing that waits.
pub proof fn law_deleted_event_is_gone(
    store: StoreView,
    id: Uuid,
    calendar: CalendarView,
    sync_state: Option<EventSyncView>,
)
    requires
        store::stored(store.pending, id) matches Some(operation) ==> store::pending_event(operation)
            == id,
        sync_state matches Some(state) ==> state.event_id == id,
    ensures
        ({
            let pending = store::stored(store.pending, id);
            let after = store::applied_all(
                store,
                delete_writes(id, delete_operation(calendar, pending, sync_state)),
            );
            &&& after.events == store.events.remove(id)
            &&& after.event_sync == store.event_sync.remove(id)
            &&& forall|c: Uuid| #[trigger]
                after.detached.dom().contains(c) <==> store.detached.dom().contains(c)
                    && store.detached[c].master_id != id
            &&& store::stored(after.pending, id) == if calendar.source is Local {
                None
            } else {
                match (pending, sync_state) {
                    (
                        Some(
                            PendingView::Update {
                                calendar_id,
                                event_id,
                                remote_href,
                                remote_uid,
                                base_etag,
                            },
                        ),
                        _,
                    ) => Some(
                        PendingView::Delete {
                            calendar_id,
                            event_id,
                            remote_href,
                            remote_uid,
                            base_etag,
                        },
                    ),
                    (Some(_), _) => None,
                    (None, Some(state)) => Some(
                        PendingView::Delete {
                            calendar_id: state.calendar_id,
                            event_id: id,
                            remote_href: state.remote_href,
                            remote_uid: state.remote_uid,
                            base_etag: state.etag,
                        },
                    ),
                    (None, None) => None,
                }
            }
        }),
{
    let pending = store::stored(store.pending, id);
    let operation = delete_operation(calendar, pending, sync_state);
    let writes = delete_writes(id, operation);
    let gone = seq![WriteView::DeleteEvent { id }, WriteView::DeletePending { event_id: id }];
    assert(gone =~= seq![gone[0]].push(gone[1]));
    store::lemma_applied_push(store, seq![gone[0]], gone[1]);
    store::lemma_applied_one(store, gone[0]);
    if operation is Some {
        store::lemma_applied_push(store, gone, WriteView::PutPending { operation: operation->0 });
    }
}

/// An event can be deleted where its calendar can be written to, unless its deletion waits for the
/// upload already.
pub proof fn law_deletable_events(calendar: CalendarView, pending: Option<PendingView>)
    ensures
        !can_delete(None, pending),
        calendar.read_only ==> !can_delete(Some(calendar), pending),
        !calendar.read_only && calendar.source is Local ==> can_delete(Some(calendar), pending),
        !calendar.read_only && calendar.source is CalDav ==> (can_delete(Some(calendar), pending)
            <==> !(pending matches Some(PendingView::Delete { .. }))),
{
}

/// A deletion is taken back at most once, into a calendar that can be written to, and only while the
/// event is still gone and the deletion has not been uploaded.
pub proof fn law_restorable_deletions(
    undo: DeletionView,
    calendar: CalendarView,
    exists_now: bool,
    pending: Option<PendingView>,
)
    ensures
        undo.restored || exists_now || calendar.read_only ==> !can_restore(
            undo,
            Some(calendar),
            exists_now,
            pending,
        ),
        !can_restore(undo, None, exists_now, pending),
        undo.sync_undo && undo.delete_tombstone && pending is None ==> !can_restore(
            undo,
            Some(calendar),
            exists_now,
            pending,
        ),
        !undo.restored && !exists_now && !calendar.read_only && !(undo.sync_undo
            && undo.delete_tombstone) ==> can_restore(undo, Some(calendar), exists_now, pending),
        !undo.restored && !exists_now && !calendar.read_only && (pending matches Some(
            PendingView::Delete { .. },
        )) ==> can_restore(undo, Some(calendar), exists_now, pending),
{
}

/// An event that a server knows stays in its calendar; another may move.
pub proof fn law_replaceable_events(calendar_id: Uuid, existing: Uuid, has_remote_identity: bool)
    ensures
        !can_replace(calendar_id, None, has_remote_identity),
        !has_remote_identity ==> can_replace(calendar_id, Some(existing), has_remote_identity),
        has_remote_identity ==> (can_replace(calendar_id, Some(existing), has_remote_identity)
            <==> existing == calendar_id),
{
}

/// The creation of each event that a server does not know yet is made to wait, and nothing else is
/// written.
pub proof fn law_orphans_wait_for_their_upload(calendar_id: Uuid, event_ids: Seq<Uuid>, i: int)
    requires
        0 <= i < event_ids.len(),
    ensures
        orphan_writes(calendar_id, event_ids).len() == event_ids.len(),
        orphan_writes(calendar_id, event_ids)[i] == (WriteView::PutPending {
            operation: PendingView::Create {
                calendar_id,
                event_id: event_ids[i],
                remote_uid: ids::uuid_chars(event_ids[i]),
            },
        }),
{
}

/// The change that waits after a deletion: what is on the server is deleted there, as it was last read
/// or as a waiting change knew it; an event that never was there, or in no account, waits for nothing.
pub proof fn law_change_that_waits_after_a_deletion(
    calendar: CalendarView,
    pending: Option<PendingView>,
    sync_state: Option<EventSyncView>,
)
    ensures
        calendar.source is Local ==> delete_operation(calendar, pending, sync_state) is None,
        pending matches Some(operation) ==> !(operation is Update) ==> delete_operation(
            calendar,
            pending,
            sync_state,
        ) is None,
        pending is None && sync_state is None ==> delete_operation(calendar, pending, sync_state) is None,
        !(calendar.source is Local) && pending is None ==> (sync_state matches Some(state) ==> (
        delete_operation(calendar, pending, sync_state) matches Some(
            PendingView::Delete { calendar_id, event_id, remote_href, remote_uid, base_etag },
        ) && calendar_id == state.calendar_id && event_id == state.event_id && remote_href
            == state.remote_href && remote_uid == state.remote_uid && base_etag == state.etag)),
        !(calendar.source is Local) ==> (pending matches Some(
            PendingView::Update { calendar_id, event_id, remote_href, remote_uid, base_etag },
        ) ==> (delete_operation(calendar, pending, sync_state) matches Some(
            PendingView::Delete {
                calendar_id: c,
                event_id: e,
                remote_href: h,
                remote_uid: u,
                base_etag: b,
            },
        ) && c == calendar_id && e == event_id && h == remote_href && u == remote_uid && b == base_etag)),
{
}

} // verus!
