//! Changes of single occurrences of a recurring event, and of an occurrence with all that follow.
use vstd::prelude::*;

use crate::backend::changes;
use crate::backend::occurrences;
use crate::backend::store;
use crate::backend::store::{DetachedRow, StoreView, StoreWrite, WriteView};
use crate::backend::RepositoryError;
use crate::model;
use crate::model::{
    Calendar, CalendarSource, CalendarView, DetachedEvent, DetachedView, Event, EventSyncState,
    EventSyncView, PendingSyncOperation, PendingView, RecurrenceId, RecurrenceIdView, Uuid,
};
use crate::text;

verus! {

/// An exception with its identifier.
pub type Child = (Uuid, DetachedEvent);

/// The values of a list of exceptions.
pub open spec fn child_views(children: Seq<Child>) -> Seq<(Uuid, DetachedView)> {
    Seq::new(children.len(), |i: int| (children[i].0, children[i].1@))
}

/// What is stored of a recurring event and its calendar.
pub struct MasterRecord {
    pub master: Event,
    pub calendar: Calendar,
    pub pending: Option<PendingSyncOperation>,
    pub sync_state: Option<EventSyncState>,
    /// The exceptions, in the order of their sort keys.
    pub children: Vec<Child>,
}

// ---------------------------------------------------------------------------------------------
// What waits after an occurrence changed
// ---------------------------------------------------------------------------------------------

/// The change that waits after an occurrence of an event changed: nothing in a local calendar, the
/// update of the event where the server knows it, and otherwise its creation, which must wait
/// already. A deletion that waits refuses the change, and so does a remote identity that belongs
/// to another event.
pub open spec fn occurrence_operation(
    calendar: CalendarView,
    master_id: Uuid,
    prior: Option<PendingView>,
    sync_state: Option<EventSyncView>,
) -> Result<Option<PendingView>, RepositoryError> {
    if calendar.source is Local {
        Ok(None)
    } else if prior matches Some(PendingView::Delete { .. }) {
        Err(RepositoryError)
    } else {
        match sync_state {
            Some(state) => if state.calendar_id != calendar.id || state.event_id != master_id {
                Err(RepositoryError)
            } else {
                Ok(Some(changes::update_operation(state.calendar_id, state.event_id, state)))
            },
            None => match prior {
                Some(PendingView::Create { calendar_id, event_id, remote_uid }) => Ok(
                    Some(PendingView::Create { calendar_id, event_id, remote_uid }),
                ),
                _ => Err(RepositoryError),
            },
        }
    }
}

/// The values of the outcome of [`occurrence_pending_operation`].
pub open spec fn operation_view(r: Result<Option<PendingSyncOperation>, RepositoryError>) -> Result<
    Option<PendingView>,
    RepositoryError,
> {
    match r {
        Ok(operation) => Ok(store::pending_view(operation)),
        Err(error) => Err(error),
    }
}

/// The change that waits after an occurrence of an event changed.
pub fn occurrence_pending_operation(
    calendar: &Calendar,
    master_id: Uuid,
    prior: &Option<PendingSyncOperation>,
    sync_state: &Option<EventSyncState>,
) -> (r: Result<Option<PendingSyncOperation>, RepositoryError>)
    ensures
        operation_view(r) == occurrence_operation(
            calendar@,
            master_id,
            store::pending_view(*prior),
            store::sync_view(*sync_state),
        ),
{
    if let CalendarSource::Local = calendar.source {
        return Ok(None);
    }
    if let Some(PendingSyncOperation::Delete { .. }) = prior {
        return Err(RepositoryError);
    }
    if let Some(state) = sync_state {
        if state.calendar_id != calendar.id || state.event_id != master_id {
            return Err(RepositoryError);
        }
        return Ok(
            Some(
                PendingSyncOperation::Update {
                    calendar_id: state.calendar_id,
                    event_id: state.event_id,
                    remote_href: state.remote_href.clone(),
                    remote_uid: state.remote_uid.clone(),
                    base_etag: model::copy_text(&state.etag),
                },
            ),
        );
    }
    match prior {
        Some(PendingSyncOperation::Create { calendar_id, event_id, remote_uid }) => Ok(
            Some(
                PendingSyncOperation::Create {
                    calendar_id: *calendar_id,
                    event_id: *event_id,
                    remote_uid: remote_uid.clone(),
                },
            ),
        ),
        _ => Err(RepositoryError),
    }
}

/// The write that lets an operation wait, or none where there is none.
pub open spec fn pending_write(event_id: Uuid, operation: Option<PendingView>) -> WriteView {
    match operation {
        Some(operation) => WriteView::PutPending { operation },
        None => WriteView::DeletePending { event_id },
    }
}

/// The write that lets an operation wait, or none where there is none.
pub fn make_pending_write(event_id: Uuid, operation: Option<PendingSyncOperation>) -> (r: StoreWrite)
    ensures
        r@ == pending_write(event_id, store::pending_view(operation)),
{
    match operation {
        Some(operation) => StoreWrite::PutPending { operation },
        None => StoreWrite::DeletePending { event_id },
    }
}

// ---------------------------------------------------------------------------------------------
// One occurrence
// ---------------------------------------------------------------------------------------------

/// The first exception of a list that an identity names.
pub open spec fn child_named(children: Seq<(Uuid, DetachedView)>, identity: RecurrenceIdView) -> Option<
    (Uuid, DetachedView),
>
    decreases children.len(),
{
    if children.len() == 0 {
        None
    } else {
        match child_named(children.drop_last(), identity) {
            Some(child) => Some(child),
            None => if occurrences::identities_match(children.last().1.identity(), identity) {
                Some(children.last())
            } else {
                None
            },
        }
    }
}

proof fn lemma_child_named_prefix(
    children: Seq<(Uuid, DetachedView)>,
    identity: RecurrenceIdView,
    n: int,
)
    requires
        0 <= n <= children.len(),
        child_named(children.take(n), identity) is Some,
    ensures
        child_named(children, identity) == child_named(children.take(n), identity),
    decreases children.len() - n,
{
    if n == children.len() {
        assert(children.take(n) =~= children);
    } else {
        assert(children.take(n + 1).drop_last() =~= children.take(n));
        lemma_child_named_prefix(children, identity, n + 1);
    }
}

/// The place of the first exception of a list that an identity names.
pub fn find_child(children: &Vec<Child>, identity: &RecurrenceId) -> (r: Option<usize>)
    ensures
        match r {
            Some(i) => i < children@.len() && child_named(child_views(children@), identity@) == Some(
                child_views(children@)[i as int],
            ),
            None => child_named(child_views(children@), identity@) is None,
        },
{
    let ghost all = child_views(children@);
    for i in 0..children.len()
        invariant
            all == child_views(children@),
            child_named(all.take(i as int), identity@) is None,
    {
        proof {
            assert(all.take(i + 1).drop_last() =~= all.take(i as int));
            assert(all.take(i + 1).last() == all[i as int]);
        }
        if occurrences::detached_recurrence_ids_match(children[i].1.identity(), identity) {
            proof {
                lemma_child_named_prefix(all, identity@, i + 1);
            }
            return Some(i);
        }
    }
    assert(all.take(all.len() as int) =~= all);
    None
}

/// Whether an occurrence of a recurring event can be changed: its calendar can be written to, and
/// `generated` says that the event generates it.
pub open spec fn can_change_occurrence(record: MasterRecord, generated: bool) -> bool {
    record.master.recurrence is Some && !record.calendar.read_only && generated
}

/// The writes that put an exception in the place of the one that there may be.
pub open spec fn exception_writes(
    master_id: Uuid,
    prior: Option<(Uuid, DetachedView)>,
    child_id: Uuid,
    detached: DetachedView,
    operation: Option<PendingView>,
) -> Seq<WriteView> {
    let removed = match prior {
        Some(child) => seq![WriteView::DeleteDetached { id: child.0 }],
        None => seq![],
    };
    removed + seq![
        WriteView::InsertDetached { id: child_id, master_id, detached },
        pending_write(master_id, operation),
    ]
}

/// The writes that put an exception in the place of the one that there may be.
fn make_exception_writes(
    master_id: Uuid,
    prior: Option<Uuid>,
    child_id: Uuid,
    detached: &DetachedEvent,
    operation: Option<PendingSyncOperation>,
) -> (r: Vec<StoreWrite>)
    ensures
        forall|child: Option<(Uuid, DetachedView)>|
            (match child {
                Some(child) => prior == Some(child.0),
                None => prior is None,
            }) ==> store::write_views(r@) == #[trigger] exception_writes(
                master_id,
                child,
                child_id,
                detached@,
                store::pending_view(operation),
            ),
{
    let ghost waiting = store::pending_view(operation);
    let mut writes: Vec<StoreWrite> = Vec::new();
    if let Some(id) = prior {
        writes.push(StoreWrite::DeleteDetached { id });
    }
    writes.push(StoreWrite::InsertDetached { id: child_id, master_id, detached: detached.clone() });
    writes.push(make_pending_write(master_id, operation));
    proof {
        assert forall|child: Option<(Uuid, DetachedView)>|
            (match child {
                Some(child) => prior == Some(child.0),
                None => prior is None,
            }) implies store::write_views(writes@) == #[trigger] exception_writes(
            master_id,
            child,
            child_id,
            detached@,
            waiting,
        ) by {
            assert(store::write_views(writes@) =~= exception_writes(
                master_id,
                child,
                child_id,
                detached@,
                waiting,
            ));
        }
    }
    writes
}

/// What comes of replacing one occurrence.
pub open spec fn upsert_outcome(
    record: MasterRecord,
    exception: DetachedView,
    generated: bool,
    child_id: Uuid,
) -> Result<Seq<WriteView>, RepositoryError> {
    if !(exception is Modified) || !can_change_occurrence(record, generated) {
        Err(RepositoryError)
    } else {
        match occurrence_operation(
            record.calendar@,
            record.master.id,
            store::pending_view(record.pending),
            store::sync_view(record.sync_state),
        ) {
            Ok(operation) => Ok(
                exception_writes(
                    record.master.id,
                    child_named(child_views(record.children@), exception.identity()),
                    child_id,
                    exception,
                    operation,
                ),
            ),
            Err(error) => Err(error),
        }
    }
}

/// Replace one occurrence without touching any other. `generated` says whether the event generates
/// the occurrence, `child_id` is the identifier of the new exception.
pub fn upsert_occurrence(
    record: &MasterRecord,
    exception: &DetachedEvent,
    generated: bool,
    child_id: Uuid,
) -> (r: Result<Vec<StoreWrite>, RepositoryError>)
    ensures
        match r {
            Ok(writes) => upsert_outcome(*record, exception@, generated, child_id) == Ok::<
                Seq<WriteView>,
                RepositoryError,
            >(store::write_views(writes@)),
            Err(error) => upsert_outcome(*record, exception@, generated, child_id) == Err::<
                Seq<WriteView>,
                RepositoryError,
            >(error),
        },
{
    if let DetachedEvent::Cancelled { .. } = exception {
        return Err(RepositoryError);
    }
    if record.master.recurrence.is_none() || record.calendar.read_only || !generated {
        return Err(RepositoryError);
    }
    let operation = match occurrence_pending_operation(
        &record.calendar,
        record.master.id,
        &record.pending,
        &record.sync_state,
    ) {
        Ok(operation) => operation,
        Err(error) => {
            return Err(error);
        },
    };
    let prior = match find_child(&record.children, exception.identity()) {
        Some(i) => Some(record.children[i].0),
        None => None,
    };
    Ok(make_exception_writes(record.master.id, prior, child_id, exception, operation))
}

/// Replace one generated occurrence without touching any other.
pub fn upsert_occurrence_with_sync(record: &MasterRecord, exception: &DetachedEvent, child_id: Uuid) -> (r:
    Result<Vec<StoreWrite>, RepositoryError>)
    ensures
        exists|generated: bool|
            #[trigger] occurrences::is_finding(generated, record.master@, exception@.identity())
                && match r {
                Ok(writes) => upsert_outcome(*record, exception@, generated, child_id) == Ok::<
                    Seq<WriteView>,
                    RepositoryError,
                >(store::write_views(writes@)),
                Err(error) => upsert_outcome(*record, exception@, generated, child_id) == Err::<
                    Seq<WriteView>,
                    RepositoryError,
                >(error),
            },
        record.master.recurrence matches Some(recurrence) ==> (occurrences::is_zoned_event(
            record.master@.schedule,
            recurrence@,
        ) ==> ({
            let generated = occurrences::is_generated(
                record.master@.schedule,
                exception@.identity(),
                occurrences::neighbours_of(
                    record.master@.schedule,
                    recurrence@,
                    exception@.identity(),
                ),
            );
            match r {
                Ok(writes) => upsert_outcome(*record, exception@, generated, child_id) == Ok::<
                    Seq<WriteView>,
                    RepositoryError,
                >(store::write_views(writes@)),
                Err(error) => upsert_outcome(*record, exception@, generated, child_id) == Err::<
                    Seq<WriteView>,
                    RepositoryError,
                >(error),
            }
        })),
{
    let generated = occurrences::occurrence_is_generated(&record.master, exception.identity());
    assert(occurrences::is_finding(generated, record.master@, exception@.identity()));
    upsert_occurrence(record, exception, generated, child_id)
}

/// What is needed to take back the cancellation of an occurrence, once.
#[derive(Debug)]
pub struct OccurrenceUndo {
    pub master_event_id: Uuid,
    pub recurrence_id: RecurrenceId,
    pub prior_detached_event: Option<DetachedEvent>,
    pub prior_pending_operation: Option<PendingSyncOperation>,
    pub cancellation_pending_operation: Option<PendingSyncOperation>,
    pub cancelled_child_id: Uuid,
    pub restored: bool,
}

/// The values of an [`OccurrenceUndo`].
pub struct OccurrenceUndoView {
    pub master_event_id: Uuid,
    pub recurrence_id: RecurrenceIdView,
    pub prior_detached_event: Option<DetachedView>,
    pub prior_pending_operation: Option<PendingView>,
    pub cancellation_pending_operation: Option<PendingView>,
    pub cancelled_child_id: Uuid,
    pub restored: bool,
}

/// The values of an optional exception.
pub open spec fn detached_view(detached: Option<DetachedEvent>) -> Option<DetachedView> {
    match detached {
        Some(detached) => Some(detached@),
        None => None,
    }
}

impl View for OccurrenceUndo {
    type V = OccurrenceUndoView;

    open spec fn view(&self) -> OccurrenceUndoView {
        OccurrenceUndoView {
            master_event_id: self.master_event_id,
            recurrence_id: self.recurrence_id@,
            prior_detached_event: detached_view(self.prior_detached_event),
            prior_pending_operation: store::pending_view(self.prior_pending_operation),
            cancellation_pending_operation: store::pending_view(self.cancellation_pending_operation),
            cancelled_child_id: self.cancelled_child_id,
            restored: self.restored,
        }
    }
}

/// What comes of cancelling one occurrence.
pub open spec fn cancel_outcome(
    record: MasterRecord,
    identity: RecurrenceIdView,
    generated: bool,
    child_id: Uuid,
) -> Result<(Seq<WriteView>, OccurrenceUndoView), RepositoryError> {
    if !can_change_occurrence(record, generated) {
        Err(RepositoryError)
    } else {
        let prior = child_named(child_views(record.children@), identity);
        match occurrence_operation(
            record.calendar@,
            record.master.id,
            store::pending_view(record.pending),
            store::sync_view(record.sync_state),
        ) {
            Ok(operation) => Ok(
                (
                    exception_writes(
                        record.master.id,
                        prior,
                        child_id,
                        DetachedView::Cancelled { recurrence_id: identity },
                        operation,
                    ),
                    OccurrenceUndoView {
                        master_event_id: record.master.id,
                        recurrence_id: identity,
                        prior_detached_event: match prior {
                            Some(child) => Some(child.1),
                            None => None,
                        },
                        prior_pending_operation: store::pending_view(record.pending),
                        cancellation_pending_operation: operation,
                        cancelled_child_id: child_id,
                        restored: false,
                    },
                ),
            ),
            Err(error) => Err(error),
        }
    }
}

/// Cancel one occurrence. What is handed back beside the writes takes the cancellation back.
pub fn cancel_occurrence(
    record: &MasterRecord,
    recurrence_id: &RecurrenceId,
    generated: bool,
    child_id: Uuid,
) -> (r: Result<(Vec<StoreWrite>, OccurrenceUndo), RepositoryError>)
    ensures
        match r {
            Ok((writes, undo)) => cancel_outcome(*record, recurrence_id@, generated, child_id)
                == Ok::<(Seq<WriteView>, OccurrenceUndoView), RepositoryError>(
                (store::write_views(writes@), undo@),
            ),
            Err(error) => cancel_outcome(*record, recurrence_id@, generated, child_id) == Err::<
                (Seq<WriteView>, OccurrenceUndoView),
                RepositoryError,
            >(error),
        },
{
    if record.master.recurrence.is_none() || record.calendar.read_only || !generated {
        return Err(RepositoryError);
    }
    let operation = match occurrence_pending_operation(
        &record.calendar,
        record.master.id,
        &record.pending,
        &record.sync_state,
    ) {
        Ok(operation) => operation,
        Err(error) => {
            return Err(error);
        },
    };
    let (prior_id, prior): (Option<Uuid>, Option<DetachedEvent>) = match find_child(
        &record.children,
        recurrence_id,
    ) {
        Some(i) => (Some(record.children[i].0), Some(record.children[i].1.clone())),
        None => (None, None),
    };
    let ghost named = child_named(child_views(record.children@), recurrence_id@);
    let cancelled = DetachedEvent::Cancelled { recurrence_id: recurrence_id.clone() };
    let waiting = store::copy_pending(&operation);
    let ghost waiting_view = store::pending_view(operation);
    let writes = make_exception_writes(
        record.master.id,
        prior_id,
        child_id,
        &cancelled,
        operation,
    );
    assert(store::write_views(writes@) == exception_writes(
        record.master.id,
        named,
        child_id,
        cancelled@,
        waiting_view,
    ));
    let undo = OccurrenceUndo {
        master_event_id: record.master.id,
        recurrence_id: recurrence_id.clone(),
        prior_detached_event: prior,
        prior_pending_operation: store::copy_pending(&record.pending),
        cancellation_pending_operation: waiting,
        cancelled_child_id: child_id,
        restored: false,
    };
    assert(detached_view(undo.prior_detached_event) == match named {
        Some(child) => Some(child.1),
        None => None,
    });
    Ok((writes, undo))
}

/// Cancel one generated occurrence.
pub fn cancel_occurrence_with_sync_undo(
    record: &MasterRecord,
    recurrence_id: &RecurrenceId,
    child_id: Uuid,
) -> (r: Result<(Vec<StoreWrite>, OccurrenceUndo), RepositoryError>)
    ensures
        exists|generated: bool|
            #[trigger] occurrences::is_finding(generated, record.master@, recurrence_id@)
                && match r {
                Ok((writes, undo)) => cancel_outcome(*record, recurrence_id@, generated, child_id)
                    == Ok::<(Seq<WriteView>, OccurrenceUndoView), RepositoryError>(
                    (store::write_views(writes@), undo@),
                ),
                Err(error) => cancel_outcome(*record, recurrence_id@, generated, child_id) == Err::<
                    (Seq<WriteView>, OccurrenceUndoView),
                    RepositoryError,
                >(error),
            },
        record.master.recurrence matches Some(recurrence) ==> (occurrences::is_zoned_event(
            record.master@.schedule,
            recurrence@,
        ) ==> ({
            let generated = occurrences::is_generated(
                record.master@.schedule,
                recurrence_id@,
                occurrences::neighbours_of(
                    record.master@.schedule,
                    recurrence@,
                    recurrence_id@,
                ),
            );
            match r {
                Ok((writes, undo)) => cancel_outcome(*record, recurrence_id@, generated, child_id)
                    == Ok::<(Seq<WriteView>, OccurrenceUndoView), RepositoryError>(
                    (store::write_views(writes@), undo@),
                ),
                Err(error) => cancel_outcome(*record, recurrence_id@, generated, child_id) == Err::<
                    (Seq<WriteView>, OccurrenceUndoView),
                    RepositoryError,
                >(error),
            }
        })),
{
    let generated = occurrences::occurrence_is_generated(&record.master, recurrence_id);
    assert(occurrences::is_finding(generated, record.master@, recurrence_id@));
    cancel_occurrence(record, recurrence_id, generated, child_id)
}

/// Whether a cancellation can be taken back: once, while the cancelled occurrence stands as it was
/// left and the same change waits for its upload.
pub open spec fn can_uncancel(
    undo: OccurrenceUndoView,
    current: Option<(Uuid, DetachedView)>,
    pending: Option<PendingView>,
) -> bool {
    &&& !undo.restored
    &&& current matches Some(child) && child.0 == undo.cancelled_child_id && (child.1 matches DetachedView::Cancelled {
        recurrence_id,
    } && recurrence_id.same(undo.recurrence_id))
    &&& pending == undo.cancellation_pending_operation
}

/// The writes that take a cancellation back.
pub open spec fn uncancel_writes(undo: OccurrenceUndoView, child_id: Uuid) -> Seq<WriteView> {
    let removed = seq![WriteView::DeleteDetached { id: undo.cancelled_child_id }];
    let back = match undo.prior_detached_event {
        Some(detached) => seq![
            WriteView::InsertDetached { id: child_id, master_id: undo.master_event_id, detached },
        ],
        None => seq![],
    };
    let settled = seq![WriteView::DeletePending { event_id: undo.master_event_id }];
    let waiting = match undo.prior_pending_operation {
        Some(operation) => seq![WriteView::PutPending { operation }],
        None => seq![],
    };
    removed + back + settled + waiting
}

/// Whether two waiting changes are the same.
pub fn same_pending(a: &Option<PendingSyncOperation>, b: &Option<PendingSyncOperation>) -> (r: bool)
    ensures
        r == (store::pending_view(*a) == store::pending_view(*b)),
{
    match (a, b) {
        (None, None) => true,
        (
            Some(PendingSyncOperation::Create { calendar_id, event_id, remote_uid }),
            Some(
                PendingSyncOperation::Create {
                    calendar_id: calendar_id2,
                    event_id: event_id2,
                    remote_uid: remote_uid2,
                },
            ),
        ) => *calendar_id == *calendar_id2 && *event_id == *event_id2 && text::same_text(
            remote_uid.as_str(),
            remote_uid2.as_str(),
        ),
        (
            Some(
                PendingSyncOperation::Update {
                    calendar_id,
                    event_id,
                    remote_href,
                    remote_uid,
                    base_etag,
                },
            ),
            Some(
                PendingSyncOperation::Update {
                    calendar_id: calendar_id2,
                    event_id: event_id2,
                    remote_href: remote_href2,
                    remote_uid: remote_uid2,
                    base_etag: base_etag2,
                },
            ),
        ) => *calendar_id == *calendar_id2 && *event_id == *event_id2 && text::same_text(
            remote_href.as_str(),
            remote_href2.as_str(),
        ) && text::same_text(remote_uid.as_str(), remote_uid2.as_str())
            && model::same_optional_text(base_etag, base_etag2),
        (
            Some(
                PendingSyncOperation::Delete {
                    calendar_id,
                    event_id,
                    remote_href,
                    remote_uid,
                    base_etag,
                },
            ),
            Some(
                PendingSyncOperation::Delete {
                    calendar_id: calendar_id2,
                    event_id: event_id2,
                    remote_href: remote_href2,
                    remote_uid: remote_uid2,
                    base_etag: base_etag2,
                },
            ),
        ) => *calendar_id == *calendar_id2 && *event_id == *event_id2 && text::same_text(
            remote_href.as_str(),
            remote_href2.as_str(),
        ) && text::same_text(remote_uid.as_str(), remote_uid2.as_str())
            && model::same_optional_text(base_etag, base_etag2),
        _ => false,
    }
}

/// Take a cancellation back. `current` is the exception that stands for the occurrence now, `child_id`
/// the identifier under which the earlier exception returns.
pub fn undo_occurrence_with_sync(
    undo: &OccurrenceUndo,
    current: &Option<Child>,
    pending: &Option<PendingSyncOperation>,
    child_id: Uuid,
) -> (r: Result<Vec<StoreWrite>, RepositoryError>)
    ensures
        ({
            let standing = match *current {
                Some(child) => Some((child.0, child.1@)),
                None => None,
            };
            match r {
                Ok(writes) => can_uncancel(undo@, standing, store::pending_view(*pending))
                    && store::write_views(writes@) == uncancel_writes(undo@, child_id),
                Err(_) => !can_uncancel(undo@, standing, store::pending_view(*pending)),
            }
        }),
{
    if undo.restored {
        return Err(RepositoryError);
    }
    match current {
        Some((id, DetachedEvent::Cancelled { recurrence_id })) => {
            if *id != undo.cancelled_child_id || !recurrence_id.same(&undo.recurrence_id) {
                return Err(RepositoryError);
            }
        },
        _ => {
            return Err(RepositoryError);
        },
    }
    if !same_pending(pending, &undo.cancellation_pending_operation) {
        return Err(RepositoryError);
    }
    let mut writes: Vec<StoreWrite> = Vec::new();
    writes.push(StoreWrite::DeleteDetached { id: undo.cancelled_child_id });
    if let Some(detached) = &undo.prior_detached_event {
        writes.push(
            StoreWrite::InsertDetached {
                id: child_id,
                master_id: undo.master_event_id,
                detached: detached.clone(),
            },
        );
    }
    writes.push(StoreWrite::DeletePending { event_id: undo.master_event_id });
    if let Some(operation) = &undo.prior_pending_operation {
        writes.push(StoreWrite::PutPending { operation: operation.clone() });
    }
    assert(store::write_views(writes@) =~= uncancel_writes(undo@, child_id));
    Ok(writes)
}

impl OccurrenceUndo {
    /// Note that the cancellation is taken back.
    pub fn mark_restored(&mut self)
        ensures
            final(self)@ == (OccurrenceUndoView { restored: true, ..old(self)@ }),
    {
        self.restored = true;
    }
}

/// Taking a cancellation back leaves the store as it was, but for the identifier of the earlier
/// exception: the other exceptions, the events and what waits are unchanged, and the earlier
/// exception stands again.
pub proof fn law_uncancel_restores(
    store: StoreView,
    record: MasterRecord,
    identity: RecurrenceIdView,
    child_id: Uuid,
    new_child_id: Uuid,
)
    requires
        cancel_outcome(record, identity, true, child_id) is Ok,
        store::stored(store.pending, record.master.id) == store::pending_view(record.pending),
        store::pending_view(record.pending) matches Some(operation) ==> store::pending_event(operation)
            == record.master.id,
        store::sync_view(record.sync_state) matches Some(state) ==> state.event_id
            == record.master.id,
        child_named(child_views(record.children@), identity) matches Some(child)
            ==> store::stored(store.detached, child.0) == Some(
            DetachedRow { master_id: record.master.id, detached: child.1 },
        ),
        !store.detached.dom().contains(child_id),
        !store.detached.dom().contains(new_child_id),
        child_id != new_child_id,
    ensures
        ({
            let (writes, undo) = cancel_outcome(record, identity, true, child_id)->Ok_0;
            let cancelled = store::applied_all(store, writes);
            let back = store::applied_all(cancelled, uncancel_writes(undo, new_child_id));
            let prior = child_named(child_views(record.children@), identity);
            &&& back.events == store.events
            &&& back.pending == store.pending
            &&& back.event_sync == store.event_sync
            &&& back.calendars == store.calendars
            &&& match prior {
                Some(child) => back.detached == store.detached.remove(child.0).insert(
                    new_child_id,
                    DetachedRow { master_id: record.master.id, detached: child.1 },
                ),
                None => back.detached == store.detached,
            }
        }),
{
    let (writes, undo) = cancel_outcome(record, identity, true, child_id)->Ok_0;
    let prior = child_named(child_views(record.children@), identity);
    let operation = undo.cancellation_pending_operation;
    let master_id = record.master.id;
    let gone = DetachedView::Cancelled { recurrence_id: identity };
    let removed: Seq<WriteView> = match prior {
        Some(child) => seq![WriteView::DeleteDetached { id: child.0 }],
        None => seq![],
    };
    let i1 = WriteView::InsertDetached { id: child_id, master_id, detached: gone };
    let p1 = pending_write(master_id, operation);
    let s1 = match prior {
        Some(child) => store::applied(store, WriteView::DeleteDetached { id: child.0 }),
        None => store,
    };
    if prior is Some {
        store::lemma_applied_one(store, WriteView::DeleteDetached { id: (prior->0).0 });
    }
    assert(store::applied_all(store, removed) == s1);
    let s2 = store::applied(s1, i1);
    let s3 = store::applied(s2, p1);
    store::lemma_applied_all_concat(store, removed, seq![i1, p1]);
    assert(seq![i1, p1] =~= seq![i1].push(p1));
    store::lemma_applied_one(s1, i1);
    store::lemma_applied_push(s1, seq![i1], p1);
    let cancelled = store::applied_all(store, writes);
    assert(cancelled == s3);
    let d = WriteView::DeleteDetached { id: child_id };
    let t1 = store::applied(s3, d);
    store::lemma_applied_one(s3, d);
    let back: Seq<WriteView> = match undo.prior_detached_event {
        Some(detached) => seq![WriteView::InsertDetached { id: new_child_id, master_id, detached }],
        None => seq![],
    };
    let t2 = match undo.prior_detached_event {
        Some(detached) => store::applied(
            t1,
            WriteView::InsertDetached { id: new_child_id, master_id, detached },
        ),
        None => t1,
    };
    store::lemma_applied_all_concat(s3, seq![d], back);
    if undo.prior_detached_event is Some {
        store::lemma_applied_one(
            t1,
            WriteView::InsertDetached {
                id: new_child_id,
                master_id,
                detached: undo.prior_detached_event->0,
            },
        );
    }
    assert(store::applied_all(s3, seq![d] + back) == t2);
    let settled = WriteView::DeletePending { event_id: master_id };
    let t3 = store::applied(t2, settled);
    store::lemma_applied_all_concat(s3, seq![d] + back, seq![settled]);
    store::lemma_applied_one(t2, settled);
    let waiting: Seq<WriteView> = match undo.prior_pending_operation {
        Some(operation) => seq![WriteView::PutPending { operation }],
        None => seq![],
    };
    let t4 = match undo.prior_pending_operation {
        Some(operation) => store::applied(t3, WriteView::PutPending { operation }),
        None => t3,
    };
    store::lemma_applied_all_concat(s3, seq![d] + back + seq![settled], waiting);
    if undo.prior_pending_operation is Some {
        store::lemma_applied_one(
            t3,
            WriteView::PutPending { operation: undo.prior_pending_operation->0 },
        );
    }
    assert(store::applied_all(s3, uncancel_writes(undo, new_child_id)) == t4);
    assert(t4.pending =~= store.pending);
    match prior {
        Some(child) => {
            assert(t4.detached =~= store.detached.remove(child.0).insert(
                new_child_id,
                DetachedRow { master_id, detached: child.1 },
            ));
        },
        None => {
            assert(t4.detached =~= store.detached);
        },
    }
}

/// The exception that is found for an identity is one whose identity matches; none is found exactly
/// where no identity matches.
pub proof fn law_exception_is_found_by_its_identity(
    children: Seq<(Uuid, DetachedView)>,
    identity: RecurrenceIdView,
)
    ensures
        child_named(children, identity) matches Some(child) ==> children.contains(child)
            && occurrences::identities_match(child.1.identity(), identity),
        child_named(children, identity) is None ==> forall|i: int|
            0 <= i < children.len() ==> !occurrences::identities_match(
                (#[trigger] children[i]).1.identity(),
                identity,
            ),
    decreases children.len(),
{
    if children.len() > 0 {
        let before = children.drop_last();
        law_exception_is_found_by_its_identity(before, identity);
        if child_named(before, identity) is Some {
            let child = child_named(before, identity)->0;
            let i = choose|i: int| 0 <= i < before.len() && before[i] == child;
            assert(children[i] == child);
        } else {
            assert forall|i: int|
                0 <= i < children.len() && child_named(children, identity) is None implies !occurrences::identities_match(
                (#[trigger] children[i]).1.identity(),
                identity,
            ) by {
                if i < before.len() {
                    assert(before[i] == children[i]);
                }
            }
            assert(children[children.len() - 1] == children.last());
        }
    }
}

/// Which change waits after an occurrence was changed: none in a local calendar; of an event that the
/// server knows a change of the version that is known; of one that is new its creation. An event whose
/// deletion waits, or that the server should know and does not, cannot be changed.
pub proof fn law_change_that_waits_after_an_occurrence(
    calendar: CalendarView,
    master_id: Uuid,
    prior: Option<PendingView>,
    sync_state: Option<EventSyncView>,
)
    ensures
        calendar.source is Local ==> occurrence_operation(calendar, master_id, prior, sync_state)
            == Ok::<Option<PendingView>, RepositoryError>(None),
        calendar.source is CalDav ==> {
            &&& (prior matches Some(PendingView::Delete { .. })) ==> occurrence_operation(
                calendar,
                master_id,
                prior,
                sync_state,
            ) is Err
            &&& !(prior matches Some(PendingView::Delete { .. })) ==> match sync_state {
                Some(state) => if state.calendar_id == calendar.id && state.event_id == master_id {
                    occurrence_operation(calendar, master_id, prior, sync_state) == Ok::<
                        Option<PendingView>,
                        RepositoryError,
                    >(
                        Some(
                            PendingView::Update {
                                calendar_id: calendar.id,
                                event_id: master_id,
                                remote_href: state.remote_href,
                                remote_uid: state.remote_uid,
                                base_etag: state.etag,
                            },
                        ),
                    )
                } else {
                    occurrence_operation(calendar, master_id, prior, sync_state) is Err
                },
                None => if prior matches Some(PendingView::Create { .. }) {
                    occurrence_operation(calendar, master_id, prior, sync_state) == Ok::<
                        Option<PendingView>,
                        RepositoryError,
                    >(prior)
                } else {
                    occurrence_operation(calendar, master_id, prior, sync_state) is Err
                },
            }
        },
{
}

/// After an occurrence was changed, its exception is the given one, under the given identifier and in
/// place of the one that the event had for that occurrence. The other exceptions stay, and the event
/// itself is not touched.
pub proof fn law_changed_occurrence_is_stored(
    store: StoreView,
    record: MasterRecord,
    exception: DetachedView,
    child_id: Uuid,
)
    requires
        upsert_outcome(record, exception, true, child_id) is Ok,
    ensures
        ({
            let after = store::applied_all(
                store,
                upsert_outcome(record, exception, true, child_id)->Ok_0,
            );
            let prior = child_named(child_views(record.children@), exception.identity());
            &&& exception is Modified
            &&& store::stored(after.detached, child_id) == Some(
                DetachedRow { master_id: record.master.id, detached: exception },
            )
            &&& forall|c: Uuid|
                c != child_id ==> #[trigger] store::stored(after.detached, c) == if prior is Some
                    && c == (prior->0).0 {
                    None
                } else {
                    store::stored(store.detached, c)
                }
            &&& after.events == store.events && after.event_sync == store.event_sync
        }),
{
    let writes = upsert_outcome(record, exception, true, child_id)->Ok_0;
    lemma_exception_writes(store, record, exception, child_id, writes);
}

/// After an occurrence was cancelled, its exception says so, and all else is as after a change.
pub proof fn law_cancelled_occurrence_is_stored(
    store: StoreView,
    record: MasterRecord,
    identity: RecurrenceIdView,
    child_id: Uuid,
)
    requires
        cancel_outcome(record, identity, true, child_id) is Ok,
    ensures
        ({
            let (writes, undo) = cancel_outcome(record, identity, true, child_id)->Ok_0;
            let after = store::applied_all(store, writes);
            let prior = child_named(child_views(record.children@), identity);
            &&& store::stored(after.detached, child_id) == Some(
                DetachedRow {
                    master_id: record.master.id,
                    detached: DetachedView::Cancelled { recurrence_id: identity },
                },
            )
            &&& forall|c: Uuid|
                c != child_id ==> #[trigger] store::stored(after.detached, c) == if prior is Some
                    && c == (prior->0).0 {
                    None
                } else {
                    store::stored(store.detached, c)
                }
            &&& after.events == store.events && after.event_sync == store.event_sync
            &&& !undo.restored && undo.cancelled_child_id == child_id && undo.recurrence_id == identity
            &&& undo.master_event_id == record.master.id
        }),
{
    let writes = (cancel_outcome(record, identity, true, child_id)->Ok_0).0;
    lemma_exception_writes(
        store,
        record,
        DetachedView::Cancelled { recurrence_id: identity },
        child_id,
        writes,
    );
}

proof fn lemma_exception_writes(
    store: StoreView,
    record: MasterRecord,
    exception: DetachedView,
    child_id: Uuid,
    writes: Seq<WriteView>,
)
    requires
        exists|operation: Option<PendingView>|
            writes == #[trigger] exception_writes(
                record.master.id,
                child_named(child_views(record.children@), exception.identity()),
                child_id,
                exception,
                operation,
            ),
    ensures
        ({
            let after = store::applied_all(store, writes);
            let prior = child_named(child_views(record.children@), exception.identity());
            let row = DetachedRow { master_id: record.master.id, detached: exception };
            &&& after.detached == match prior {
                Some(child) => store.detached.remove(child.0).insert(child_id, row),
                None => store.detached.insert(child_id, row),
            }
            &&& after.events == store.events && after.event_sync == store.event_sync
        }),
{
    let prior = child_named(child_views(record.children@), exception.identity());
    let operation = choose|operation: Option<PendingView>|
        writes == #[trigger] exception_writes(
            record.master.id,
            prior,
            child_id,
            exception,
            operation,
        );
    let insert = WriteView::InsertDetached {
        id: child_id,
        master_id: record.master.id,
        detached: exception,
    };
    let note = pending_write(record.master.id, operation);
    let removed: Seq<WriteView> = match prior {
        Some(child) => seq![WriteView::DeleteDetached { id: child.0 }],
        None => seq![],
    };
    assert(writes =~= removed.push(insert).push(note));
    store::lemma_applied_push(store, removed.push(insert), note);
    store::lemma_applied_push(store, removed, insert);
    if prior is Some {
        store::lemma_applied_one(store, removed[0]);
    }
}

/// An occurrence can be changed or cancelled where its event recurs and generates it, and its calendar
/// is not read-only; a change must say what the occurrence becomes.
pub proof fn law_refused_occurrences(
    record: MasterRecord,
    exception: DetachedView,
    identity: RecurrenceIdView,
    generated: bool,
    child_id: Uuid,
)
    ensures
        record.master.recurrence is None || record.calendar.read_only || !generated ==> upsert_outcome(
            record,
            exception,
            generated,
            child_id,
        ) is Err && cancel_outcome(record, identity, generated, child_id) is Err,
        exception is Cancelled ==> upsert_outcome(record, exception, generated, child_id) is Err,
        record.master.recurrence is Some && !record.calendar.read_only && generated && record.calendar@.source
            is Local ==> cancel_outcome(record, identity, generated, child_id) is Ok && (exception
            is Modified ==> upsert_outcome(record, exception, generated, child_id) is Ok),
{
}

/// A cancellation is taken back only once, and only while the cancelled exception and the change that
/// waits are still those that the cancellation left.
pub proof fn law_cancellations_that_can_be_taken_back(
    undo: OccurrenceUndoView,
    current: Option<(Uuid, DetachedView)>,
    pending: Option<PendingView>,
)
    ensures
        can_uncancel(undo, current, pending) ==> !undo.restored && current is Some && (current->0).0
            == undo.cancelled_child_id && (current->0).1 is Cancelled && pending
            == undo.cancellation_pending_operation,
        !undo.restored && current == Some(
            (
                undo.cancelled_child_id,
                DetachedView::Cancelled { recurrence_id: undo.recurrence_id },
            ),
        ) && pending == undo.cancellation_pending_operation ==> can_uncancel(undo, current, pending),
{
}

/// An occurrence of a series is changed or cancelled exactly where the series has it, its calendar can be
/// changed, and the change can wait.
pub proof fn law_occurrences_that_can_be_changed(
    record: MasterRecord,
    exception: DetachedView,
    identity: RecurrenceIdView,
    generated: bool,
    child_id: Uuid,
)
    ensures
        ({
            let free = record.master.recurrence is Some && !record.calendar.read_only && generated
                && occurrence_operation(
                record.calendar@,
                record.master.id,
                store::pending_view(record.pending),
                store::sync_view(record.sync_state),
            ) is Ok;
            &&& cancel_outcome(record, identity, generated, child_id) is Ok <==> free
            &&& upsert_outcome(record, exception, generated, child_id) is Ok <==> free && exception
                is Modified
        }),
{
}

} // verus!
