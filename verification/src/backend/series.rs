//! Changes of an occurrence of a recurring event together with all that follow it.
use vstd::prelude::*;

use crate::backend::exceptions;
use crate::backend::exceptions::{Child, MasterRecord};
use crate::backend::following;
use crate::backend::ids;
use crate::backend::occurrences;
use crate::backend::store;
use crate::backend::store::{DetachedRow, StoreView, StoreWrite, WriteView};
use crate::backend::RepositoryError;
use crate::model;
use crate::model::{
    Calendar, CalendarSource, CalendarView, DetachedEvent, DetachedView, Event, EventSyncState, EventSyncView,
    EventView, PendingSyncOperation, PendingView, RecurrenceId, RecurrenceIdView, RecurrenceSpec,
    RecurrenceView, Uuid,
};
use crate::recurrence_form;
use crate::recurrence_split;
use crate::recurrence_split::{RecurrenceSplit, RecurrenceSplitError, SplitView};
use crate::text;

verus! {

// ---------------------------------------------------------------------------------------------
// Exceptions before, at and after an occurrence
// ---------------------------------------------------------------------------------------------

/// Whether an exception stands for the chosen occurrence.
pub open spec fn is_chosen(child: (Uuid, DetachedView), identity: RecurrenceIdView) -> bool {
    occurrences::identities_match(child.1.identity(), identity)
}

/// Whether an exception comes after the chosen occurrence.
pub open spec fn is_later(child: (Uuid, DetachedView), identity: RecurrenceIdView) -> bool {
    !is_chosen(child, identity) && text::text_before(
        occurrences::sort_key(identity),
        occurrences::sort_key(child.1.identity()),
    )
}

/// The writes that remove the exceptions that stand for the chosen occurrence.
pub open spec fn chosen_removals(children: Seq<(Uuid, DetachedView)>, identity: RecurrenceIdView) -> Seq<
    WriteView,
>
    decreases children.len(),
{
    if children.len() == 0 {
        seq![]
    } else {
        let before = chosen_removals(children.drop_last(), identity);
        if is_chosen(children.last(), identity) {
            before.push(WriteView::DeleteDetached { id: children.last().0 })
        } else {
            before
        }
    }
}

/// The later exceptions under their identities in the event that takes over; none where one of
/// them has no identity there.
pub open spec fn moved_children(
    children: Seq<(Uuid, DetachedView)>,
    rebased: Seq<Option<RecurrenceIdView>>,
    identity: RecurrenceIdView,
) -> Option<Seq<(Uuid, DetachedView)>>
    decreases children.len(),
{
    if children.len() == 0 {
        Some(seq![])
    } else {
        let last = children.len() - 1;
        match moved_children(children.drop_last(), rebased, identity) {
            None => None,
            Some(before) => if is_later(children[last], identity) {
                match rebased[last] {
                    Some(new_identity) => Some(
                        before.push(
                            (children[last].0, following::rebased(children[last].1, new_identity)),
                        ),
                    ),
                    None => None,
                }
            } else {
                Some(before)
            },
        }
    }
}

/// The exceptions of a list without their identifiers.
pub open spec fn detached_of(children: Seq<(Uuid, DetachedView)>) -> Seq<DetachedView> {
    Seq::new(children.len(), |i: int| children[i].1)
}

/// The writes that give exceptions to another event.
pub open spec fn move_writes(moved: Seq<(Uuid, DetachedView)>, master_id: Uuid) -> Seq<WriteView>
    decreases moved.len(),
{
    if moved.len() == 0 {
        seq![]
    } else {
        move_writes(moved.drop_last(), master_id).push(
            WriteView::DeleteDetached { id: moved.last().0 },
        ).push(
            WriteView::InsertDetached {
                id: moved.last().0,
                master_id,
                detached: moved.last().1,
            },
        )
    }
}

/// The remote identifier of the event that takes over: its own, and never that of the event that
/// it takes over from.
pub open spec fn distinct_uid(id: Uuid, sync_state: Option<EventSyncView>) -> Seq<char> {
    if sync_state matches Some(state) && state.remote_uid == ids::uuid_chars(id) {
        ids::uuid_chars(id) + "-following"@
    } else {
        ids::uuid_chars(id)
    }
}

/// The remote identifier of the event that takes over.
pub fn distinct_remote_uid(id: Uuid, sync_state: &Option<EventSyncState>) -> (r: String)
    ensures
        r@ == distinct_uid(id, store::sync_view(*sync_state)),
{
    let mut uid = ids::uuid_text(id);
    if let Some(state) = sync_state {
        if text::same_text(state.remote_uid.as_str(), uid.as_str()) {
            uid.append("-following");
        }
    }
    uid
}

/// The event that takes over never has the remote identifier of the one before it.
pub proof fn law_distinct_uid_differs(id: Uuid, state: EventSyncView)
    ensures
        distinct_uid(id, Some(state)) != state.remote_uid,
{
    reveal_strlit("-following");
    assert((ids::uuid_chars(id) + "-following"@).len() != ids::uuid_chars(id).len());
}

/// How many identifiers are drawn for the event that takes over.
pub const MASTER_ID_DRAWS: usize = 8;

/// Whether a drawn identifier can be that of the event that takes over: no event has it, and the
/// remote identifier that goes with it is another than that of the event that it takes over from.
pub open spec fn is_free(drawn: (Uuid, bool), sync_state: Option<EventSyncView>) -> bool {
    let remote_uid = match sync_state {
        Some(state) => state.remote_uid,
        None => seq![],
    };
    !drawn.1 && distinct_uid(drawn.0, sync_state) != remote_uid
}

/// The identifier of the event that takes over: the first of those drawn that is free. Each comes
/// with whether an event has it already.
pub fn new_future_master_id(drawn: &Vec<(Uuid, bool)>, sync_state: &Option<EventSyncState>) -> (r: Result<
    Uuid,
    RepositoryError,
>)
    ensures
        match r {
            Ok(id) => exists|i: int|
                0 <= i < drawn@.len() && i < MASTER_ID_DRAWS && (#[trigger] drawn@[i]).0 == id
                    && is_free(drawn@[i], store::sync_view(*sync_state)) && forall|k: int|
                    0 <= k < i ==> !is_free(#[trigger] drawn@[k], store::sync_view(*sync_state)),
            Err(_) => forall|k: int|
                0 <= k < drawn@.len() && k < MASTER_ID_DRAWS ==> !is_free(
                    #[trigger] drawn@[k],
                    store::sync_view(*sync_state),
                ),
        },
{
    let mut i: usize = 0;
    while i < drawn.len() && i < MASTER_ID_DRAWS
        invariant
            i <= drawn@.len(),
            i <= MASTER_ID_DRAWS,
            forall|k: int|
                0 <= k < i ==> !is_free(#[trigger] drawn@[k], store::sync_view(*sync_state)),
        decreases MASTER_ID_DRAWS - i,
    {
        let (id, taken): (Uuid, bool) = drawn[i];
        let remote_uid = distinct_remote_uid(id, sync_state);
        let other = match sync_state {
            Some(state) => !text::same_text(remote_uid.as_str(), state.remote_uid.as_str()),
            None => !remote_uid.as_str().is_empty(),
        };
        proof {
            if let None = sync_state {
                assert(remote_uid@ == Seq::<char>::empty() <==> remote_uid@.len() == 0) by {
                    if remote_uid@.len() == 0 {
                        assert(remote_uid@ =~= Seq::<char>::empty());
                    }
                }
            }
        }
        if !taken && other {
            assert(is_free(drawn@[i as int], store::sync_view(*sync_state)));
            return Ok(id);
        }
        i += 1;
    }
    Err(RepositoryError)
}

// ---------------------------------------------------------------------------------------------
// Editing
// ---------------------------------------------------------------------------------------------

/// The event that takes over from the chosen occurrence on.
pub open spec fn future_event(
    master: EventView,
    edited: DetachedView,
    recurrence: RecurrenceView,
    future_id: Uuid,
) -> EventView
    recommends
        edited is Modified,
{
    EventView {
        id: future_id,
        calendar_id: master.calendar_id,
        title: edited->title,
        location: edited->location,
        description: edited->description,
        schedule: edited->schedule,
        recurrence: Some(recurrence),
        reminders: edited->reminders,
    }
}

/// The writes that split an event in two.
pub open spec fn edit_writes(
    record: MasterRecord,
    edited: DetachedView,
    original_recurrence: RecurrenceView,
    future_recurrence: RecurrenceView,
    future_id: Uuid,
    moved: Seq<(Uuid, DetachedView)>,
    operation: Option<PendingView>,
) -> Seq<WriteView> {
    let master = record.master@;
    let masters = seq![
        WriteView::UpdateEvent {
            event: EventView { recurrence: Some(original_recurrence), ..master },
        },
        WriteView::InsertEvent {
            event: future_event(master, edited, future_recurrence, future_id),
        },
    ];
    let created = if record.calendar.source is Local {
        seq![]
    } else {
        seq![
            WriteView::PutPending {
                operation: PendingView::Create {
                    calendar_id: master.calendar_id,
                    event_id: future_id,
                    remote_uid: distinct_uid(future_id, store::sync_view(record.sync_state)),
                },
            },
        ]
    };
    masters + chosen_removals(
        exceptions::child_views(record.children@),
        edited.identity(),
    ) + move_writes(moved, future_id) + seq![exceptions::pending_write(master.id, operation)]
        + created
}

/// The recurrence of the event that takes over: the one asked for, which the simple editor must be
/// able to show, and otherwise what the split leaves.
pub open spec fn future_recurrence_of(
    edited: DetachedView,
    requested: Option<RecurrenceView>,
    split: SplitView,
) -> Option<RecurrenceView>
    recommends
        edited is Modified,
{
    match requested {
        Some(recurrence) => if recurrence_form::editable_form(
            Some(recurrence),
            edited->schedule,
        ) is Some {
            Some(recurrence)
        } else {
            None
        },
        None => Some(split.future_recurrence),
    }
}

/// What comes of changing an occurrence and all that follow, given the split of its event and, for
/// each later exception, its identity in the event that takes over.
pub open spec fn edit_outcome(
    record: MasterRecord,
    edited: DetachedView,
    requested: Option<RecurrenceView>,
    split: Result<SplitView, RecurrenceSplitError>,
    future_id: Uuid,
    rebased: Seq<Option<RecurrenceIdView>>,
) -> Option<Seq<WriteView>> {
    if !(edited is Modified) || record.calendar.read_only || !following::edit_is_supported(
        record.master@.schedule,
        edited.identity(),
        edited->schedule,
        requested is Some,
    ) {
        None
    } else {
        match (
            split,
            exceptions::occurrence_operation(
                record.calendar@,
                record.master.id,
                store::pending_view(record.pending),
                store::sync_view(record.sync_state),
            ),
            moved_children(
                exceptions::child_views(record.children@),
                rebased,
                edited.identity(),
            ),
        ) {
            (Ok(split), Ok(operation), Some(moved)) => match future_recurrence_of(
                edited,
                requested,
                split,
            ) {
                Some(recurrence) => if occurrences::are_distinct(detached_of(moved)) {
                    Some(
                        edit_writes(
                            record,
                            edited,
                            split.original_recurrence,
                            recurrence,
                            future_id,
                            moved,
                            operation,
                        ),
                    )
                } else {
                    None
                },
                None => None,
            },
            _ => None,
        }
    }
}

/// The values of a list of optional identities.
pub open spec fn identity_views(identities: Seq<Option<RecurrenceId>>) -> Seq<Option<RecurrenceIdView>> {
    Seq::new(
        identities.len(),
        |i: int|
            match identities[i] {
                Some(identity) => Some(identity@),
                None => None,
            },
    )
}

/// Whether an exception comes after the chosen occurrence.
fn child_is_later(child: &Child, identity: &RecurrenceId) -> (r: bool)
    ensures
        r == is_later((child.0, child.1@), identity@),
{
    !occurrences::detached_recurrence_ids_match(child.1.identity(), identity) && text::text_less(
        occurrences::detached_recurrence_sort(identity).as_str(),
        occurrences::detached_recurrence_sort(child.1.identity()).as_str(),
    )
}

/// A list with an exception that cannot move has none that moves whole when more follow.
proof fn lemma_moved_prefix(
    children: Seq<(Uuid, DetachedView)>,
    rebased: Seq<Option<RecurrenceIdView>>,
    identity: RecurrenceIdView,
    n: int,
)
    requires
        0 <= n <= children.len(),
        moved_children(children.take(n), rebased, identity) is None,
    ensures
        moved_children(children, rebased, identity) is None,
    decreases children.len() - n,
{
    if n == children.len() {
        assert(children.take(n) =~= children);
    } else {
        assert(children.take(n + 1).drop_last() =~= children.take(n));
        lemma_moved_prefix(children, rebased, identity, n + 1);
    }
}

/// The later exceptions under their identities in the event that takes over.
fn move_children(children: &Vec<Child>, rebased: &Vec<Option<RecurrenceId>>, identity: &RecurrenceId) -> (r:
    Option<Vec<Child>>)
    requires
        rebased@.len() == children@.len(),
    ensures
        match r {
            Some(moved) => moved_children(
                exceptions::child_views(children@),
                identity_views(rebased@),
                identity@,
            ) == Some(exceptions::child_views(moved@)),
            None => moved_children(
                exceptions::child_views(children@),
                identity_views(rebased@),
                identity@,
            ) is None,
        },
{
    let ghost all = exceptions::child_views(children@);
    let ghost ids = identity_views(rebased@);
    let mut moved: Vec<Child> = Vec::new();
    assert(exceptions::child_views(moved@) =~= seq![]);
    for i in 0..children.len()
        invariant
            all == exceptions::child_views(children@),
            ids == identity_views(rebased@),
            rebased@.len() == children@.len(),
            moved_children(all.take(i as int), ids, identity@) == Some(
                exceptions::child_views(moved@),
            ),
    {
        let ghost before = moved@;
        proof {
            assert(all.take(i + 1).drop_last() =~= all.take(i as int));
            assert(all.take(i + 1)[i as int] == all[i as int]);
        }
        if child_is_later(&children[i], identity) {
            match &rebased[i] {
                Some(new_identity) => {
                    moved.push(
                        (
                            children[i].0,
                            following::rebase_detached_event(&children[i].1, new_identity.clone()),
                        ),
                    );
                    assert(exceptions::child_views(moved@) =~= exceptions::child_views(before).push(
                        (all[i as int].0, following::rebased(all[i as int].1, new_identity@)),
                    ));
                },
                None => {
                    proof {
                        lemma_moved_prefix(all, ids, identity@, i + 1);
                    }
                    return None;
                },
            }
        }
    }
    assert(all.take(all.len() as int) =~= all);
    Some(moved)
}

/// The writes that remove the exceptions that stand for the chosen occurrence, after others.
fn push_chosen_removals(writes: &mut Vec<StoreWrite>, children: &Vec<Child>, identity: &RecurrenceId)
    ensures
        store::write_views(final(writes)@) == store::write_views(old(writes)@) + chosen_removals(
            exceptions::child_views(children@),
            identity@,
        ),
{
    let ghost start = store::write_views(writes@);
    let ghost all = exceptions::child_views(children@);
    assert(all.take(0) =~= seq![]);
    assert(start + chosen_removals(all.take(0), identity@) =~= start);
    for i in 0..children.len()
        invariant
            all == exceptions::child_views(children@),
            store::write_views(writes@) == start + chosen_removals(all.take(i as int), identity@),
    {
        let ghost before = writes@;
        proof {
            assert(all.take(i + 1).drop_last() =~= all.take(i as int));
            assert(all.take(i + 1).last() == all[i as int]);
        }
        if occurrences::detached_recurrence_ids_match(children[i].1.identity(), identity) {
            writes.push(StoreWrite::DeleteDetached { id: children[i].0 });
            proof {
                store::lemma_write_views_push(before, writes@.last());
                assert(store::write_views(writes@) =~= start + chosen_removals(
                    all.take(i + 1),
                    identity@,
                ));
            }
        }
    }
    assert(all.take(all.len() as int) =~= all);
}

/// The writes that give exceptions to another event, after others.
fn push_moves(writes: &mut Vec<StoreWrite>, moved: &Vec<Child>, master_id: Uuid)
    ensures
        store::write_views(final(writes)@) == store::write_views(old(writes)@) + move_writes(
            exceptions::child_views(moved@),
            master_id,
        ),
{
    let ghost start = store::write_views(writes@);
    let ghost all = exceptions::child_views(moved@);
    assert(all.take(0) =~= seq![]);
    assert(start + move_writes(all.take(0), master_id) =~= start);
    for i in 0..moved.len()
        invariant
            all == exceptions::child_views(moved@),
            store::write_views(writes@) == start + move_writes(all.take(i as int), master_id),
    {
        let ghost before = writes@;
        proof {
            assert(all.take(i + 1).drop_last() =~= all.take(i as int));
            assert(all.take(i + 1).last() == all[i as int]);
        }
        writes.push(StoreWrite::DeleteDetached { id: moved[i].0 });
        let ghost between = writes@;
        writes.push(
            StoreWrite::InsertDetached { id: moved[i].0, master_id, detached: moved[i].1.clone() },
        );
        proof {
            store::lemma_write_views_push(before, between.last());
            store::lemma_write_views_push(between, writes@.last());
            assert(store::write_views(writes@) =~= start + move_writes(all.take(i + 1), master_id));
        }
    }
    assert(all.take(all.len() as int) =~= all);
}

/// The exceptions of a list without their identifiers.
fn copy_detached(children: &Vec<Child>) -> (r: Vec<DetachedEvent>)
    ensures
        model::detached_views(r@) == detached_of(exceptions::child_views(children@)),
{
    let ghost all = detached_of(exceptions::child_views(children@));
    let mut out: Vec<DetachedEvent> = Vec::new();
    assert(model::detached_views(out@) =~= all.take(0));
    for i in 0..children.len()
        invariant
            all == detached_of(exceptions::child_views(children@)),
            model::detached_views(out@) == all.take(i as int),
    {
        let ghost before = out@;
        out.push(children[i].1.clone());
        assert(model::detached_views(out@) =~= model::detached_views(before).push(all[i as int]));
        assert(all.take(i + 1) =~= all.take(i as int).push(all[i as int]));
    }
    assert(all.take(all.len() as int) =~= all);
    out
}

/// The values of an optional requested recurrence.
pub open spec fn requested_view(requested: Option<RecurrenceSpec>) -> Option<RecurrenceView> {
    model::recurrence_view(requested)
}

/// Change an occurrence and all that follow, given the split of its event and, for each later
/// exception, its identity in the event that takes over.
pub fn edit_following_given(
    record: &MasterRecord,
    edited: &DetachedEvent,
    requested: &Option<RecurrenceSpec>,
    split: &Result<RecurrenceSplit, RecurrenceSplitError>,
    future_id: Uuid,
    rebased: &Vec<Option<RecurrenceId>>,
) -> (r: Result<Vec<StoreWrite>, RepositoryError>)
    requires
        rebased@.len() == record.children@.len(),
    ensures
        match r {
            Ok(writes) => edit_outcome(
                *record,
                edited@,
                requested_view(*requested),
                recurrence_split::split_view(*split),
                future_id,
                identity_views(rebased@),
            ) == Some(store::write_views(writes@)),
            Err(_) => edit_outcome(
                *record,
                edited@,
                requested_view(*requested),
                recurrence_split::split_view(*split),
                future_id,
                identity_views(rebased@),
            ) is None,
        },
{
    match edited {
        DetachedEvent::Cancelled { .. } => Err(RepositoryError),
        DetachedEvent::Modified {
            recurrence_id,
            title,
            location,
            description,
            schedule,
            reminders,
        } => {
            if record.calendar.read_only || !following::edited_schedule_is_supported(
                &record.master.schedule,
                recurrence_id,
                schedule,
                requested.is_some(),
            ) {
                return Err(RepositoryError);
            }
            let split = match split {
                Ok(split) => split,
                Err(_) => {
                    return Err(RepositoryError);
                },
            };
            let recurrence = match requested {
                Some(recurrence) => {
                    if !following::future_recurrence_is_supported(schedule, recurrence) {
                        return Err(RepositoryError);
                    }
                    recurrence.clone()
                },
                None => split.future_recurrence.clone(),
            };
            let operation = match exceptions::occurrence_pending_operation(
                &record.calendar,
                record.master.id,
                &record.pending,
                &record.sync_state,
            ) {
                Ok(operation) => operation,
                Err(error) => {
                    return Err(error);
                },
            };
            let moved = match move_children(&record.children, rebased, recurrence_id) {
                Some(moved) => moved,
                None => {
                    return Err(RepositoryError);
                },
            };
            if !occurrences::detached_events_are_valid(&copy_detached(&moved)) {
                return Err(RepositoryError);
            }
            let ghost recurrence_now = recurrence@;
            let ghost operation_now = store::pending_view(operation);
            let mut truncated = record.master.clone();
            truncated.recurrence = Some(split.original_recurrence.clone());
            let future = Event {
                id: future_id,
                calendar_id: record.master.calendar_id,
                title: title.clone(),
                location: location.clone(),
                description: description.clone(),
                schedule: schedule.clone(),
                recurrence: Some(recurrence),
                reminders: model::copy_reminders(reminders),
            };
            assert(future@ == future_event(record.master@, edited@, recurrence_now, future_id));
            let mut writes: Vec<StoreWrite> = Vec::new();
            writes.push(StoreWrite::UpdateEvent { event: truncated });
            writes.push(StoreWrite::InsertEvent { event: future });
            push_chosen_removals(&mut writes, &record.children, recurrence_id);
            push_moves(&mut writes, &moved, future_id);
            let ghost so_far = writes@;
            writes.push(exceptions::make_pending_write(record.master.id, operation));
            proof {
                store::lemma_write_views_push(so_far, writes@.last());
            }
            let ghost settled = writes@;
            match record.calendar.source {
                CalendarSource::Local => {},
                CalendarSource::CalDav { .. } => {
                    let remote_uid = distinct_remote_uid(future_id, &record.sync_state);
                    writes.push(
                        StoreWrite::PutPending {
                            operation: PendingSyncOperation::Create {
                                calendar_id: record.master.calendar_id,
                                event_id: future_id,
                                remote_uid,
                            },
                        },
                    );
                    proof {
                        store::lemma_write_views_push(settled, writes@.last());
                    }
                },
            }
            assert(store::write_views(writes@) =~= edit_writes(
                *record,
                edited@,
                split.original_recurrence@,
                recurrence_now,
                future_id,
                exceptions::child_views(moved@),
                operation_now,
            ));
            Ok(writes)
        },
    }
}

/// The recurrence that the event that takes over is given.
pub open spec fn taken_recurrence(
    master: EventView,
    identity: RecurrenceIdView,
    requested: Option<RecurrenceView>,
) -> Option<RecurrenceView> {
    match requested {
        Some(recurrence) => Some(recurrence),
        None => match recurrence_split::split_result(master, identity) {
            Ok(split) => Some(split.future_recurrence),
            Err(_) => None,
        },
    }
}

/// Whether no time that a change of an occurrence and all that follow rests on is read in the time
/// zone of the machine.
pub open spec fn is_zoned_edit(
    record: MasterRecord,
    edited: DetachedView,
    requested: Option<RecurrenceView>,
) -> bool {
    let master = record.master@;
    &&& following::is_zoned_series(master)
    &&& edited is Modified
    &&& taken_recurrence(master, edited.identity(), requested) matches Some(recurrence)
        ==> occurrences::is_zoned_event(edited->schedule, recurrence)
}

/// The identity of a later exception in the event that takes over.
pub open spec fn rebased_child(
    master: EventView,
    edited: DetachedView,
    requested: Option<RecurrenceView>,
    child: (Uuid, DetachedView),
) -> Option<RecurrenceIdView>
    recommends
        edited is Modified,
{
    let identity = child.1.identity();
    match (master.recurrence, taken_recurrence(master, edited.identity(), requested)) {
        (Some(recurrence), Some(taken)) => if recurrence_split::split_result(
            master,
            edited.identity(),
        ) is Ok && is_later(child, edited.identity()) && occurrences::is_generated(
            master.schedule,
            identity,
            occurrences::neighbours_of(master.schedule, recurrence, identity),
        ) {
            following::rebase_outcome(master.schedule, edited->schedule, taken, identity)
        } else {
            None
        },
        _ => None,
    }
}

/// The identities of the later exceptions in the event that takes over.
pub open spec fn rebased_children(
    record: MasterRecord,
    edited: DetachedView,
    requested: Option<RecurrenceView>,
) -> Seq<Option<RecurrenceIdView>> {
    Seq::new(
        record.children@.len(),
        |i: int|
            rebased_child(
                record.master@,
                edited,
                requested,
                exceptions::child_views(record.children@)[i],
            ),
    )
}

/// What comes of changing an occurrence and all that follow.
pub open spec fn edit_result(
    record: MasterRecord,
    edited: DetachedView,
    requested: Option<RecurrenceView>,
    future_id: Uuid,
) -> Option<Seq<WriteView>> {
    edit_outcome(
        record,
        edited,
        requested,
        recurrence_split::split_result(record.master@, edited.identity()),
        future_id,
        rebased_children(record, edited, requested),
    )
}

/// The writes that were made, where there are any.
pub open spec fn made(r: Result<Vec<StoreWrite>, RepositoryError>) -> Option<Seq<WriteView>> {
    match r {
        Ok(writes) => Some(store::write_views(writes@)),
        Err(_) => None,
    }
}

/// Whether an identity was found for an exception in the event that takes over: for one that comes
/// later and that the event generates, where the event can be split.
pub open spec fn is_moved(
    rebased: Option<RecurrenceIdView>,
    master: EventView,
    edited: DetachedView,
    requested: Option<RecurrenceView>,
    split: Result<SplitView, RecurrenceSplitError>,
    future_id: Uuid,
    child: (Uuid, DetachedView),
) -> bool {
    let identity = child.1.identity();
    match split {
        Ok(split) => if edited is Modified && is_later(child, edited.identity()) {
            let recurrence = match requested {
                Some(recurrence) => recurrence,
                None => split.future_recurrence,
            };
            ||| occurrences::is_finding(true, master, identity) && following::is_rebased(
                rebased,
                master.schedule,
                future_event(master, edited, recurrence, future_id),
                identity,
            )
            ||| occurrences::is_finding(false, master, identity) && rebased is None
        } else {
            rebased is None
        },
        Err(_) => rebased is None,
    }
}

/// Whether identities were found for the exceptions in the event that takes over.
pub open spec fn are_moved(
    rebased: Seq<Option<RecurrenceIdView>>,
    record: MasterRecord,
    edited: DetachedView,
    requested: Option<RecurrenceView>,
    split: Result<SplitView, RecurrenceSplitError>,
    future_id: Uuid,
) -> bool {
    &&& rebased.len() == record.children@.len()
    &&& forall|i: int|
        0 <= i < rebased.len() ==> is_moved(
            #[trigger] rebased[i],
            record.master@,
            edited,
            requested,
            split,
            future_id,
            exceptions::child_views(record.children@)[i],
        )
}

/// Whether writes are those of a change of an occurrence and all that follow, by what the rules
/// generate on the machine; where the schedules name their zones, they are the same on all machines.
pub open spec fn is_edit(
    record: MasterRecord,
    edited: DetachedView,
    requested: Option<RecurrenceView>,
    future_id: Uuid,
    writes: Option<Seq<WriteView>>,
) -> bool {
    &&& exists|split: Result<SplitView, RecurrenceSplitError>, rebased: Seq<Option<RecurrenceIdView>>|
        recurrence_split::is_split(split, record.master@, edited.identity()) && are_moved(
            rebased,
            record,
            edited,
            requested,
            split,
            future_id,
        ) && #[trigger] edit_outcome(record, edited, requested, split, future_id, rebased)
            == writes
    &&& is_zoned_edit(record, edited, requested) ==> edit_result(record, edited, requested, future_id)
        == writes
}

/// Change an occurrence and all that follow: the event ends before the occurrence, and a new event
/// takes over from it, with the later exceptions and with what is left of the recurrence.
pub fn edit_this_and_following_with_sync(
    record: &MasterRecord,
    edited: &DetachedEvent,
    future_id: Uuid,
) -> (r: Result<Vec<StoreWrite>, RepositoryError>)
    ensures
        is_edit(*record, edited@, None, future_id, made(r)),
{
    edit_this_and_following_with_sync_inner(record, edited, &None, future_id)
}

/// Change an occurrence and all that follow, with another recurrence for the new event.
pub fn edit_this_and_following_with_sync_and_recurrence(
    record: &MasterRecord,
    edited: &DetachedEvent,
    future_recurrence: &RecurrenceSpec,
    future_id: Uuid,
) -> (r: Result<Vec<StoreWrite>, RepositoryError>)
    ensures
        is_edit(*record, edited@, Some(future_recurrence@), future_id, made(r)),
{
    let requested = Some(future_recurrence.clone());
    edit_this_and_following_with_sync_inner(record, edited, &requested, future_id)
}

/// Change an occurrence and all that follow. Without a requested recurrence the new event keeps what
/// is left of the old one.
fn edit_this_and_following_with_sync_inner(
    record: &MasterRecord,
    edited: &DetachedEvent,
    requested: &Option<RecurrenceSpec>,
    future_id: Uuid,
) -> (r: Result<Vec<StoreWrite>, RepositoryError>)
    ensures
        is_edit(*record, edited@, requested_view(*requested), future_id, made(r)),
{
    let split = recurrence_split::split_recurrence_at(&record.master, edited.identity());
    let mut rebased: Vec<Option<RecurrenceId>> = Vec::new();
    let future = match (edited, &split) {
        (
            DetachedEvent::Modified { title, location, description, schedule, reminders, .. },
            Ok(split),
        ) => Some(
            Event {
                id: future_id,
                calendar_id: record.master.calendar_id,
                title: title.clone(),
                location: location.clone(),
                description: description.clone(),
                schedule: schedule.clone(),
                recurrence: match requested {
                    Some(recurrence) => Some(recurrence.clone()),
                    None => Some(split.future_recurrence.clone()),
                },
                reminders: model::copy_reminders(reminders),
            },
        ),
        _ => None,
    };
    let ghost asked = requested_view(*requested);
    for i in 0..record.children.len()
        invariant
            rebased@.len() == i,
            asked == requested_view(*requested),
            future is Some <==> edited is Modified && split is Ok,
            future matches Some(future) ==> future.recurrence is Some && future@ == future_event(
                record.master@,
                edited@,
                future@.recurrence->0,
                future_id,
            ) && future@.recurrence->0 == (match asked {
                Some(recurrence) => recurrence,
                None => recurrence_split::split_view(split)->Ok_0.future_recurrence,
            }),
            forall|k: int|
                0 <= k < i ==> is_moved(
                    #[trigger] identity_views(rebased@)[k],
                    record.master@,
                    edited@,
                    asked,
                    recurrence_split::split_view(split),
                    future_id,
                    exceptions::child_views(record.children@)[k],
                ),
            is_zoned_edit(*record, edited@, asked) ==> {
                &&& recurrence_split::split_view(split) == recurrence_split::split_result(
                    record.master@,
                    edited@.identity(),
                )
                &&& future matches Some(future) ==> future@.recurrence == taken_recurrence(
                    record.master@,
                    edited@.identity(),
                    asked,
                )
                &&& forall|k: int|
                    0 <= k < i ==> #[trigger] identity_views(rebased@)[k] == rebased_child(
                        record.master@,
                        edited@,
                        asked,
                        exceptions::child_views(record.children@)[k],
                    )
            },
    {
        let ghost before = rebased@;
        let child = &record.children[i];
        let identity = match &future {
            Some(future) => if child_is_later(child, edited.identity())
                && occurrences::occurrence_is_generated(&record.master, child.1.identity()) {
                match following::rebase_following_recurrence_id(
                    &record.master,
                    future,
                    child.1.identity(),
                ) {
                    Ok(identity) => Some(identity),
                    Err(_) => None,
                }
            } else {
                None
            },
            None => None,
        };
        rebased.push(identity);
        proof {
            assert(exceptions::child_views(record.children@)[i as int] == (child.0, child.1@));
            assert(identity_views(rebased@)[i as int] == (match identity {
                Some(identity) => Some(identity@),
                None => None,
            }));
            assert(forall|k: int|
                0 <= k < i ==> #[trigger] identity_views(rebased@)[k] == identity_views(before)[k]);
        }
    }
    proof {
        if is_zoned_edit(*record, edited@, asked) {
            assert(identity_views(rebased@) =~= rebased_children(*record, edited@, asked));
        }
    }
    let ghost split_now = recurrence_split::split_view(split);
    let ghost rebased_now = identity_views(rebased@);
    let r = edit_following_given(record, edited, requested, &split, future_id, &rebased);
    assert(edit_outcome(
        *record,
        edited@,
        requested_view(*requested),
        split_now,
        future_id,
        rebased_now,
    ) == edit_outcome(
        *record,
        edited@,
        requested_view(*requested),
        split_now,
        future_id,
        rebased_now,
    ));
    r
}

// ---------------------------------------------------------------------------------------------
// Deleting
// ---------------------------------------------------------------------------------------------

/// Whether an exception comes before the chosen occurrence.
pub open spec fn is_earlier(child: (Uuid, DetachedView), identity: RecurrenceIdView) -> bool {
    text::text_before(
        occurrences::sort_key(child.1.identity()),
        occurrences::sort_key(identity),
    )
}

/// The exceptions before the chosen occurrence.
pub open spec fn earlier_children(children: Seq<(Uuid, DetachedView)>, identity: RecurrenceIdView) -> Seq<
    (Uuid, DetachedView),
>
    decreases children.len(),
{
    if children.len() == 0 {
        seq![]
    } else {
        let before = earlier_children(children.drop_last(), identity);
        if is_earlier(children.last(), identity) {
            before.push(children.last())
        } else {
            before
        }
    }
}

/// The writes that remove the exceptions from the chosen occurrence on.
pub open spec fn later_removals(children: Seq<(Uuid, DetachedView)>, identity: RecurrenceIdView) -> Seq<
    WriteView,
>
    decreases children.len(),
{
    if children.len() == 0 {
        seq![]
    } else {
        let before = later_removals(children.drop_last(), identity);
        if is_earlier(children.last(), identity) {
            before
        } else {
            before.push(WriteView::DeleteDetached { id: children.last().0 })
        }
    }
}

/// What is needed to take back the deletion of an occurrence and all that follow, once.
#[derive(Debug)]
pub struct FollowingUndo {
    pub master_event_id: Uuid,
    pub prior_event: Event,
    pub truncated_event: Event,
    pub prior_children: Vec<Child>,
    pub remaining_children: Vec<Child>,
    pub prior_sync_state: Option<EventSyncState>,
    pub prior_pending_operation: Option<PendingSyncOperation>,
    pub deletion_pending_operation: Option<PendingSyncOperation>,
    pub restored: bool,
}

/// The values of a [`FollowingUndo`].
pub struct FollowingUndoView {
    pub master_event_id: Uuid,
    pub prior_event: EventView,
    pub truncated_event: EventView,
    pub prior_children: Seq<(Uuid, DetachedView)>,
    pub remaining_children: Seq<(Uuid, DetachedView)>,
    pub prior_sync_state: Option<EventSyncView>,
    pub prior_pending_operation: Option<PendingView>,
    pub deletion_pending_operation: Option<PendingView>,
    pub restored: bool,
}

impl View for FollowingUndo {
    type V = FollowingUndoView;

    open spec fn view(&self) -> FollowingUndoView {
        FollowingUndoView {
            master_event_id: self.master_event_id,
            prior_event: self.prior_event@,
            truncated_event: self.truncated_event@,
            prior_children: exceptions::child_views(self.prior_children@),
            remaining_children: exceptions::child_views(self.remaining_children@),
            prior_sync_state: store::sync_view(self.prior_sync_state),
            prior_pending_operation: store::pending_view(self.prior_pending_operation),
            deletion_pending_operation: store::pending_view(self.deletion_pending_operation),
            restored: self.restored,
        }
    }
}

/// What comes of deleting an occurrence and all that follow, given what is left of the recurrence.
pub open spec fn delete_outcome(
    record: MasterRecord,
    identity: RecurrenceIdView,
    left: Option<RecurrenceView>,
) -> Option<(Seq<WriteView>, FollowingUndoView)> {
    let master = record.master@;
    let children = exceptions::child_views(record.children@);
    let state = store::sync_view(record.sync_state);
    let pending = store::pending_view(record.pending);
    if record.calendar.read_only || master.recurrence is None {
        None
    } else {
        match (left, exceptions::occurrence_operation(record.calendar@, master.id, pending, state)) {
            (Some(left), Ok(operation)) => {
                let truncated = EventView { recurrence: Some(left), ..master };
                Some(
                    (
                        seq![WriteView::UpdateEvent { event: truncated }] + later_removals(
                            children,
                            identity,
                        ) + seq![exceptions::pending_write(master.id, operation)],
                        FollowingUndoView {
                            master_event_id: master.id,
                            prior_event: master,
                            truncated_event: truncated,
                            prior_children: children,
                            remaining_children: earlier_children(children, identity),
                            prior_sync_state: state,
                            prior_pending_operation: pending,
                            deletion_pending_operation: operation,
                            restored: false,
                        },
                    ),
                )
            },
            _ => None,
        }
    }
}

/// Whether an exception comes before the chosen occurrence.
fn child_is_earlier(child: &Child, identity: &RecurrenceId) -> (r: bool)
    ensures
        r == is_earlier((child.0, child.1@), identity@),
{
    text::text_less(
        occurrences::detached_recurrence_sort(child.1.identity()).as_str(),
        occurrences::detached_recurrence_sort(identity).as_str(),
    )
}

/// A copy of a list of exceptions.
fn copy_children(children: &Vec<Child>) -> (r: Vec<Child>)
    ensures
        exceptions::child_views(r@) == exceptions::child_views(children@),
{
    let ghost all = exceptions::child_views(children@);
    let mut out: Vec<Child> = Vec::new();
    assert(exceptions::child_views(out@) =~= all.take(0));
    for i in 0..children.len()
        invariant
            all == exceptions::child_views(children@),
            exceptions::child_views(out@) == all.take(i as int),
    {
        let ghost before = out@;
        out.push((children[i].0, children[i].1.clone()));
        assert(exceptions::child_views(out@) =~= exceptions::child_views(before).push(
            all[i as int],
        ));
        assert(all.take(i + 1) =~= all.take(i as int).push(all[i as int]));
    }
    assert(all.take(all.len() as int) =~= all);
    out
}

/// Delete an occurrence and all that follow, given what is left of the recurrence. What is handed
/// back beside the writes takes the deletion back.
pub fn delete_following_given(
    record: &MasterRecord,
    recurrence_id: &RecurrenceId,
    left: Result<RecurrenceSpec, RepositoryError>,
) -> (r: Result<(Vec<StoreWrite>, FollowingUndo), RepositoryError>)
    ensures
        ({
            let remaining = following::left_view(left);
            match r {
                Ok((writes, undo)) => delete_outcome(*record, recurrence_id@, remaining) == Some(
                    (store::write_views(writes@), undo@),
                ),
                Err(_) => delete_outcome(*record, recurrence_id@, remaining) is None,
            }
        }),
{
    if record.calendar.read_only || record.master.recurrence.is_none() {
        return Err(RepositoryError);
    }
    let left = match left {
        Ok(left) => left,
        Err(error) => {
            return Err(error);
        },
    };
    let operation = match exceptions::occurrence_pending_operation(
        &record.calendar,
        record.master.id,
        &record.pending,
        &record.sync_state,
    ) {
        Ok(operation) => operation,
        Err(error) => {
            return Err(error);
        },
    };
    let ghost left_now = left@;
    let ghost operation_now = store::pending_view(operation);
    let mut truncated = record.master.clone();
    truncated.recurrence = Some(left);
    let kept = truncated.clone();
    let ghost all = exceptions::child_views(record.children@);
    let ghost truncated_now = EventView { recurrence: Some(left_now), ..record.master@ };
    assert(truncated@ == truncated_now);
    let mut writes: Vec<StoreWrite> = Vec::new();
    let mut remaining: Vec<Child> = Vec::new();
    writes.push(StoreWrite::UpdateEvent { event: truncated });
    let ghost start = seq![WriteView::UpdateEvent { event: truncated_now }];
    assert(store::write_views(writes@) =~= start);
    assert(all.take(0) =~= seq![]);
    assert(start + later_removals(all.take(0), recurrence_id@) =~= start);
    assert(exceptions::child_views(remaining@) =~= seq![]);
    for i in 0..record.children.len()
        invariant
            all == exceptions::child_views(record.children@),
            store::write_views(writes@) == start + later_removals(
                all.take(i as int),
                recurrence_id@,
            ),
            exceptions::child_views(remaining@) == earlier_children(
                all.take(i as int),
                recurrence_id@,
            ),
    {
        let ghost writes_before = writes@;
        let ghost remaining_before = remaining@;
        proof {
            assert(all.take(i + 1).drop_last() =~= all.take(i as int));
            assert(all.take(i + 1).last() == all[i as int]);
        }
        let child = &record.children[i];
        if child_is_earlier(child, recurrence_id) {
            remaining.push((child.0, child.1.clone()));
            assert(exceptions::child_views(remaining@) =~= exceptions::child_views(
                remaining_before,
            ).push(all[i as int]));
        } else {
            writes.push(StoreWrite::DeleteDetached { id: child.0 });
            proof {
                store::lemma_write_views_push(writes_before, writes@.last());
                assert(store::write_views(writes@) =~= start + later_removals(
                    all.take(i + 1),
                    recurrence_id@,
                ));
            }
        }
    }
    assert(all.take(all.len() as int) =~= all);
    let waiting = store::copy_pending(&operation);
    let ghost so_far = writes@;
    writes.push(exceptions::make_pending_write(record.master.id, operation));
    proof {
        store::lemma_write_views_push(so_far, writes@.last());
        assert(store::write_views(writes@) =~= start + later_removals(all, recurrence_id@) + seq![
            exceptions::pending_write(record.master.id, operation_now),
        ]);
    }
    let undo = FollowingUndo {
        master_event_id: record.master.id,
        prior_event: record.master.clone(),
        truncated_event: kept,
        prior_children: copy_children(&record.children),
        remaining_children: remaining,
        prior_sync_state: store::copy_sync(&record.sync_state),
        prior_pending_operation: store::copy_pending(&record.pending),
        deletion_pending_operation: waiting,
        restored: false,
    };
    Ok((writes, undo))
}

/// What was made of a deletion, where it was possible.
pub open spec fn deleted(r: Result<(Vec<StoreWrite>, FollowingUndo), RepositoryError>) -> Option<
    (Seq<WriteView>, FollowingUndoView),
> {
    match r {
        Ok((writes, undo)) => Some((store::write_views(writes@), undo@)),
        Err(_) => None,
    }
}

/// Delete an occurrence and all that follow.
pub fn delete_this_and_following_with_sync_undo(record: &MasterRecord, recurrence_id: &RecurrenceId) -> (r:
    Result<(Vec<StoreWrite>, FollowingUndo), RepositoryError>)
    ensures
        exists|left: Option<RecurrenceView>|
            #[trigger] following::is_left(left, record.master@, recurrence_id@) && deleted(r)
                == delete_outcome(*record, recurrence_id@, left),
{
    let left = following::truncate_recurrence_for_delete(&record.master, recurrence_id);
    let ghost remaining = following::left_view(left);
    assert(following::is_left(remaining, record.master@, recurrence_id@));
    delete_following_given(record, recurrence_id, left)
}

/// Whether two lists of exceptions are the same.
pub open spec fn same_children(
    a: Seq<(Uuid, DetachedView)>,
    b: Seq<(Uuid, DetachedView)>,
) -> bool {
    a.len() == b.len() && forall|i: int|
        0 <= i < a.len() ==> (#[trigger] a[i]).0 == b[i].0 && a[i].1.same(b[i].1)
}

/// What is stored now of an event whose deletion is to be taken back.
pub struct CurrentSeries {
    pub event: Event,
    pub children: Vec<Child>,
    pub pending: Option<PendingSyncOperation>,
    pub sync_state: Option<EventSyncState>,
    pub calendar: Calendar,
}

/// Whether the deletion of an occurrence and all that follow can be taken back: once, while
/// everything stands as the deletion left it, and the calendar can be written to.
pub open spec fn can_undo_following(undo: FollowingUndoView, current: CurrentSeries) -> bool {
    &&& !undo.restored
    &&& current.event@.same(undo.truncated_event)
    &&& same_children(exceptions::child_views(current.children@), undo.remaining_children)
    &&& store::pending_view(current.pending) == undo.deletion_pending_operation
    &&& store::sync_view(current.sync_state) == undo.prior_sync_state
    &&& !current.calendar.read_only
}

/// The writes that put back exceptions under their own identifiers.
pub open spec fn child_inserts(children: Seq<(Uuid, DetachedView)>, master_id: Uuid) -> Seq<WriteView> {
    Seq::new(
        children.len(),
        |i: int|
            WriteView::InsertDetached {
                id: children[i].0,
                master_id,
                detached: children[i].1,
            },
    )
}

/// The writes that take back the deletion of an occurrence and all that follow.
pub open spec fn undo_following_writes(undo: FollowingUndoView) -> Seq<WriteView> {
    let waiting = match undo.prior_pending_operation {
        Some(operation) => seq![WriteView::PutPending { operation }],
        None => seq![],
    };
    seq![
        WriteView::UpdateEvent { event: undo.prior_event },
        WriteView::DeleteDetachedOf { master_id: undo.master_event_id },
    ] + child_inserts(undo.prior_children, undo.master_event_id) + seq![
        WriteView::DeletePending { event_id: undo.master_event_id },
    ] + waiting
}

/// Whether two lists of exceptions are the same.
fn are_same_children(a: &Vec<Child>, b: &Vec<Child>) -> (r: bool)
    ensures
        r == same_children(exceptions::child_views(a@), exceptions::child_views(b@)),
{
    let ghost left = exceptions::child_views(a@);
    let ghost right = exceptions::child_views(b@);
    if a.len() != b.len() {
        return false;
    }
    for i in 0..a.len()
        invariant
            a@.len() == b@.len(),
            left == exceptions::child_views(a@),
            right == exceptions::child_views(b@),
            forall|k: int|
                0 <= k < i ==> (#[trigger] left[k]).0 == right[k].0 && left[k].1.same(right[k].1),
    {
        assert(left[i as int] == (a@[i as int].0, a@[i as int].1@));
        assert(right[i as int] == (b@[i as int].0, b@[i as int].1@));
        if a[i].0 != b[i].0 || !a[i].1.same(&b[i].1) {
            return false;
        }
    }
    true
}

/// Whether two remote identities are the same.
fn same_sync(a: &Option<EventSyncState>, b: &Option<EventSyncState>) -> (r: bool)
    ensures
        r == (store::sync_view(*a) == store::sync_view(*b)),
{
    match (a, b) {
        (None, None) => true,
        (Some(a), Some(b)) => a.calendar_id == b.calendar_id && a.event_id == b.event_id
            && text::same_text(a.remote_href.as_str(), b.remote_href.as_str()) && text::same_text(
            a.remote_uid.as_str(),
            b.remote_uid.as_str(),
        ) && model::same_optional_text(&a.etag, &b.etag),
        _ => false,
    }
}

/// Take back the deletion of an occurrence and all that follow.
pub fn undo_this_and_following_with_sync(undo: &FollowingUndo, current: &CurrentSeries) -> (r: Result<
    Vec<StoreWrite>,
    RepositoryError,
>)
    ensures
        match r {
            Ok(writes) => can_undo_following(undo@, *current) && store::write_views(writes@)
                == undo_following_writes(undo@),
            Err(_) => !can_undo_following(undo@, *current),
        },
{
    if undo.restored || !current.event.same(&undo.truncated_event) || !are_same_children(
        &current.children,
        &undo.remaining_children,
    ) || !exceptions::same_pending(&current.pending, &undo.deletion_pending_operation) || !same_sync(
        &current.sync_state,
        &undo.prior_sync_state,
    ) || current.calendar.read_only {
        return Err(RepositoryError);
    }
    let ghost all = exceptions::child_views(undo.prior_children@);
    let mut writes: Vec<StoreWrite> = Vec::new();
    writes.push(StoreWrite::UpdateEvent { event: undo.prior_event.clone() });
    writes.push(StoreWrite::DeleteDetachedOf { master_id: undo.master_event_id });
    let ghost start = seq![
        WriteView::UpdateEvent { event: undo.prior_event@ },
        WriteView::DeleteDetachedOf { master_id: undo.master_event_id },
    ];
    assert(store::write_views(writes@) =~= start);
    assert(start + child_inserts(all.take(0), undo.master_event_id) =~= start);
    for i in 0..undo.prior_children.len()
        invariant
            all == exceptions::child_views(undo.prior_children@),
            store::write_views(writes@) == start + child_inserts(
                all.take(i as int),
                undo.master_event_id,
            ),
    {
        let ghost before = writes@;
        writes.push(
            StoreWrite::InsertDetached {
                id: undo.prior_children[i].0,
                master_id: undo.master_event_id,
                detached: undo.prior_children[i].1.clone(),
            },
        );
        proof {
            store::lemma_write_views_push(before, writes@.last());
            assert(child_inserts(all.take(i + 1), undo.master_event_id) =~= child_inserts(
                all.take(i as int),
                undo.master_event_id,
            ).push(writes@.last()@));
            assert(store::write_views(writes@) =~= start + child_inserts(
                all.take(i + 1),
                undo.master_event_id,
            ));
        }
    }
    assert(all.take(all.len() as int) =~= all);
    writes.push(StoreWrite::DeletePending { event_id: undo.master_event_id });
    if let Some(operation) = &undo.prior_pending_operation {
        writes.push(StoreWrite::PutPending { operation: operation.clone() });
    }
    assert(store::write_views(writes@) =~= undo_following_writes(undo@));
    Ok(writes)
}

impl FollowingUndo {
    /// Note that the deletion is taken back.
    pub fn mark_restored(&mut self)
        ensures
            final(self)@ == (FollowingUndoView { restored: true, ..old(self)@ }),
    {
        self.restored = true;
    }
}

// ---------------------------------------------------------------------------------------------
// What the changes do to the store
// ---------------------------------------------------------------------------------------------

/// Whether an identifier belongs to an exception of a list.
pub open spec fn is_child(children: Seq<(Uuid, DetachedView)>, id: Uuid) -> bool {
    exists|i: int| 0 <= i < children.len() && (#[trigger] children[i]).0 == id
}

/// Whether the exceptions of a list have identifiers of their own.
pub open spec fn have_distinct_ids(children: Seq<(Uuid, DetachedView)>) -> bool {
    forall|i: int, j: int|
        0 <= i < j < children.len() ==> (#[trigger] children[i]).0 != (#[trigger] children[j]).0
}

/// Whether a list holds exactly the exceptions that the store has of an event.
pub open spec fn are_children_of(
    store: StoreView,
    master_id: Uuid,
    children: Seq<(Uuid, DetachedView)>,
) -> bool {
    &&& have_distinct_ids(children)
    &&& forall|i: int|
        0 <= i < children.len() ==> store::stored(store.detached, (#[trigger] children[i]).0) == Some(
            DetachedRow { master_id, detached: children[i].1 },
        )
    &&& forall|id: Uuid|
        store.detached.dom().contains(id) && (#[trigger] store.detached[id]).master_id == master_id
            ==> is_child(children, id)
}

proof fn lemma_is_child_push(children: Seq<(Uuid, DetachedView)>, id: Uuid)
    requires
        children.len() > 0,
    ensures
        is_child(children, id) <==> is_child(children.drop_last(), id) || children.last().0 == id,
{
    let before = children.drop_last();
    if is_child(before, id) {
        let i = choose|i: int| 0 <= i < before.len() && (#[trigger] before[i]).0 == id;
        assert(children[i].0 == id);
    }
    if children.last().0 == id {
        assert(children[children.len() - 1].0 == id);
    }
    if is_child(children, id) && children.last().0 != id {
        let i = choose|i: int| 0 <= i < children.len() && (#[trigger] children[i]).0 == id;
        assert(before[i].0 == id);
    }
}

/// Removing the exceptions from an occurrence on touches nothing else.
proof fn lemma_later_removals(
    store: StoreView,
    children: Seq<(Uuid, DetachedView)>,
    identity: RecurrenceIdView,
    id: Uuid,
)
    ensures
        ({
            let after = store::applied_all(store, later_removals(children, identity));
            &&& after == (StoreView { detached: after.detached, ..store })
            &&& after.detached.dom().contains(id) ==> store.detached.dom().contains(id)
                && after.detached[id] == store.detached[id]
            &&& store.detached.dom().contains(id) && !is_child(children, id)
                ==> after.detached.dom().contains(id)
        }),
    decreases children.len(),
{
    if children.len() > 0 {
        let before = children.drop_last();
        lemma_later_removals(store, before, identity, id);
        lemma_is_child_push(children, id);
        if !is_earlier(children.last(), identity) {
            store::lemma_applied_push(
                store,
                later_removals(before, identity),
                WriteView::DeleteDetached { id: children.last().0 },
            );
        }
    }
}

/// Putting exceptions back touches nothing else.
proof fn lemma_child_inserts(
    store: StoreView,
    children: Seq<(Uuid, DetachedView)>,
    master_id: Uuid,
    id: Uuid,
)
    requires
        have_distinct_ids(children),
    ensures
        ({
            let after = store::applied_all(store, child_inserts(children, master_id));
            &&& after == (StoreView { detached: after.detached, ..store })
            &&& !is_child(children, id) ==> store::stored(after.detached, id) == store::stored(
                store.detached,
                id,
            )
            &&& forall|i: int|
                0 <= i < children.len() && (#[trigger] children[i]).0 == id ==> store::stored(
                    after.detached,
                    id,
                ) == Some(DetachedRow { master_id, detached: children[i].1 })
        }),
    decreases children.len(),
{
    if children.len() == 0 {
        assert(child_inserts(children, master_id) =~= seq![]);
    } else {
        let before = children.drop_last();
        assert forall|i: int, j: int| 0 <= i < j < before.len() implies (#[trigger] before[i]).0 != (
        #[trigger] before[j]).0 by {
            assert(children[i].0 != children[j].0);
        }
        lemma_child_inserts(store, before, master_id, id);
        lemma_is_child_push(children, id);
        let last = WriteView::InsertDetached {
            id: children.last().0,
            master_id,
            detached: children.last().1,
        };
        assert(child_inserts(children, master_id) =~= child_inserts(before, master_id).push(last));
        store::lemma_applied_push(store, child_inserts(before, master_id), last);
        let after = store::applied_all(store, child_inserts(children, master_id));
        assert forall|i: int|
            0 <= i < children.len() && (#[trigger] children[i]).0 == id implies store::stored(
            after.detached,
            id,
        ) == Some(DetachedRow { master_id, detached: children[i].1 }) by {
            if i < before.len() {
                assert(before[i].0 == id);
                assert(children[i].0 != children[children.len() - 1].0);
            }
        }
    }
}

/// Taking back the deletion of an occurrence and all that follow leaves the store as it was before
/// the deletion.
pub proof fn law_undo_following_restores(
    store: StoreView,
    record: MasterRecord,
    identity: RecurrenceIdView,
    left: RecurrenceView,
)
    requires
        delete_outcome(record, identity, Some(left)) is Some,
        store::stored(store.events, record.master.id) == Some(record.master@),
        store::stored(store.pending, record.master.id) == store::pending_view(record.pending),
        store::pending_view(record.pending) matches Some(operation) ==> store::pending_event(operation)
            == record.master.id,
        are_children_of(store, record.master.id, exceptions::child_views(record.children@)),
    ensures
        ({
            let (writes, undo) = delete_outcome(record, identity, Some(left))->0;
            let deleted = store::applied_all(store, writes);
            store::applied_all(deleted, undo_following_writes(undo)) == store
        }),
{
    let (writes, undo) = delete_outcome(record, identity, Some(left))->0;
    let master = record.master@;
    let master_id = master.id;
    let children = exceptions::child_views(record.children@);
    let operation = undo.deletion_pending_operation;
    let w1 = WriteView::UpdateEvent { event: undo.truncated_event };
    let w3 = exceptions::pending_write(master_id, operation);
    let s1 = store::applied(store, w1);
    let s2 = store::applied_all(s1, later_removals(children, identity));
    let s3 = store::applied(s2, w3);
    store::lemma_applied_one(store, w1);
    store::lemma_applied_all_concat(store, seq![w1], later_removals(children, identity));
    store::lemma_applied_all_concat(
        store,
        seq![w1] + later_removals(children, identity),
        seq![w3],
    );
    store::lemma_applied_one(s2, w3);
    let deleted = store::applied_all(store, writes);
    assert(deleted == s3);
    assert(s2 == (StoreView { detached: s2.detached, ..s1 })) by {
        lemma_later_removals(s1, children, identity, 0);
    }
    let u1 = WriteView::UpdateEvent { event: undo.prior_event };
    let u2 = WriteView::DeleteDetachedOf { master_id };
    let u4 = WriteView::DeletePending { event_id: master_id };
    let t1 = store::applied(s3, u1);
    let t2 = store::applied(t1, u2);
    let t3 = store::applied_all(t2, child_inserts(children, master_id));
    let t4 = store::applied(t3, u4);
    assert(seq![u1, u2] =~= seq![u1].push(u2));
    store::lemma_applied_one(s3, u1);
    store::lemma_applied_push(s3, seq![u1], u2);
    store::lemma_applied_all_concat(s3, seq![u1, u2], child_inserts(children, master_id));
    store::lemma_applied_all_concat(
        s3,
        seq![u1, u2] + child_inserts(children, master_id),
        seq![u4],
    );
    store::lemma_applied_one(t3, u4);
    let waiting: Seq<WriteView> = match undo.prior_pending_operation {
        Some(operation) => seq![WriteView::PutPending { operation }],
        None => seq![],
    };
    let t5 = match undo.prior_pending_operation {
        Some(operation) => store::applied(t4, WriteView::PutPending { operation }),
        None => t4,
    };
    store::lemma_applied_all_concat(
        s3,
        seq![u1, u2] + child_inserts(children, master_id) + seq![u4],
        waiting,
    );
    if undo.prior_pending_operation is Some {
        store::lemma_applied_one(
            t4,
            WriteView::PutPending { operation: undo.prior_pending_operation->0 },
        );
    }
    assert(store::applied_all(deleted, undo_following_writes(undo)) == t5);
    assert(t3 == (StoreView { detached: t3.detached, ..t2 })) by {
        lemma_child_inserts(t2, children, master_id, 0);
    }
    assert(t5.events =~= store.events);
    assert(t5.pending =~= store.pending);
    assert forall|id: Uuid| store::stored(t3.detached, id) == store::stored(store.detached, id) by {
        lemma_later_removals(s1, children, identity, id);
        lemma_child_inserts(t2, children, master_id, id);
        if is_child(children, id) {
            let i = choose|i: int| 0 <= i < children.len() && (#[trigger] children[i]).0 == id;
            assert(store::stored(store.detached, children[i].0) == Some(
                DetachedRow { master_id, detached: children[i].1 },
            ));
        } else if store.detached.dom().contains(id) {
            assert(store.detached[id].master_id != master_id);
        }
    }
    assert(t3.detached =~= store.detached) by {
        assert forall|id: Uuid| t3.detached.dom().contains(id) <==> store.detached.dom().contains(
            id,
        ) by {
            assert(store::stored(t3.detached, id) == store::stored(store.detached, id));
        }
        assert forall|id: Uuid| #[trigger] t3.detached.dom().contains(id) implies t3.detached[id]
            == store.detached[id] by {
            assert(store::stored(t3.detached, id) == store::stored(store.detached, id));
        }
    }
    assert(t5 =~= store);
}

/// Whether an exception is listed before another: by sort key, then those of whole days first, then
/// by identifier.
pub open spec fn is_listed_before(a: (Uuid, DetachedView), b: (Uuid, DetachedView)) -> bool {
    let (first, second) = (
        occurrences::sort_key(a.1.identity()),
        occurrences::sort_key(b.1.identity()),
    );
    let (first_whole, second_whole) = (a.1.identity() is AllDay, b.1.identity() is AllDay);
    ||| text::text_before(first, second)
    ||| first == second && first_whole && !second_whole
    ||| first == second && first_whole == second_whole && a.0 < b.0
}

/// Whether a list holds exactly the exceptions that the store has of an event, as they are listed.
pub open spec fn are_listed_of(
    store: StoreView,
    master_id: Uuid,
    children: Seq<(Uuid, DetachedView)>,
) -> bool {
    &&& are_children_of(store, master_id, children)
    &&& forall|i: int, j: int|
        0 <= i < j < children.len() ==> is_listed_before(
            #[trigger] children[i],
            #[trigger] children[j],
        )
}

/// Whether values are the rows that a store has of an event.
pub open spec fn are_rows_of(
    store: StoreView,
    event: EventView,
    calendar: CalendarView,
    pending: Option<PendingView>,
    state: Option<EventSyncView>,
    children: Seq<(Uuid, DetachedView)>,
) -> bool {
    &&& store::stored(store.events, event.id) == Some(event)
    &&& store::stored(store.calendars, event.calendar_id) == Some(calendar)
    &&& store::stored(store.pending, event.id) == pending
    &&& pending matches Some(operation) ==> store::pending_event(operation) == event.id
    &&& store::stored(store.event_sync, event.id) == state
    &&& are_listed_of(store, event.id, children)
}

proof fn lemma_listed_one_way(a: (Uuid, DetachedView), b: (Uuid, DetachedView))
    ensures
        !(is_listed_before(a, b) && is_listed_before(b, a)),
{
    text::lemma_text_order(
        occurrences::sort_key(a.1.identity()),
        occurrences::sort_key(b.1.identity()),
    );
}

/// An exception of a list that a store has is in every list of them.
proof fn lemma_listed_in_both(
    store: StoreView,
    master_id: Uuid,
    a: Seq<(Uuid, DetachedView)>,
    b: Seq<(Uuid, DetachedView)>,
    n: int,
) -> (r: int)
    requires
        are_children_of(store, master_id, a),
        are_children_of(store, master_id, b),
        0 <= n < a.len(),
    ensures
        0 <= r < b.len(),
        b[r] == a[n],
{
    let id = a[n].0;
    assert(store::stored(store.detached, a[n].0) == Some(
        DetachedRow { master_id, detached: a[n].1 },
    ));
    assert(store.detached[id].master_id == master_id);
    assert(is_child(b, id));
    let r = choose|r: int| 0 <= r < b.len() && (#[trigger] b[r]).0 == id;
    assert(store::stored(store.detached, b[r].0) == Some(
        DetachedRow { master_id, detached: b[r].1 },
    ));
    r
}

/// The list of the exceptions that a store has of an event is determined.
proof fn lemma_listed_is_determined(
    store: StoreView,
    master_id: Uuid,
    a: Seq<(Uuid, DetachedView)>,
    b: Seq<(Uuid, DetachedView)>,
    n: int,
)
    requires
        are_listed_of(store, master_id, a),
        are_listed_of(store, master_id, b),
        0 <= n,
        forall|i: int| 0 <= i < n && i < a.len() && i < b.len() ==> a[i] == b[i],
    ensures
        a == b,
    decreases a.len() + b.len() - n,
{
    if n < a.len() && n < b.len() {
        if a[n] != b[n] {
            let i = lemma_listed_in_both(store, master_id, a, b, n);
            let j = lemma_listed_in_both(store, master_id, b, a, n);
            if i < n {
                assert(a[i] == b[i]);
                assert(a[i].0 != a[n].0);
            }
            if j < n {
                assert(a[j] == b[j]);
                assert(b[j].0 != b[n].0);
            }
            assert(is_listed_before(b[n], b[i]));
            assert(is_listed_before(a[n], a[j]));
            lemma_listed_one_way(a[n], b[n]);
        }
        lemma_listed_is_determined(store, master_id, a, b, n + 1);
    } else {
        if a.len() < b.len() {
            let i = lemma_listed_in_both(store, master_id, b, a, a.len() as int);
            assert(a[i] == b[i]);
            assert(b[i].0 != b[a.len() as int].0);
        } else if b.len() < a.len() {
            let i = lemma_listed_in_both(store, master_id, a, b, b.len() as int);
            assert(a[i] == b[i]);
            assert(a[i].0 != a[b.len() as int].0);
        }
        assert(a =~= b);
    }
}

/// The exceptions before an occurrence are those of a list that come before it, as they are listed.
proof fn lemma_earlier_children(children: Seq<(Uuid, DetachedView)>, identity: RecurrenceIdView)
    requires
        forall|i: int, j: int|
            0 <= i < j < children.len() ==> is_listed_before(
                #[trigger] children[i],
                #[trigger] children[j],
            ),
        have_distinct_ids(children),
    ensures
        ({
            let earlier = earlier_children(children, identity);
            &&& forall|i: int|
                0 <= i < earlier.len() ==> children.contains(#[trigger] earlier[i]) && is_earlier(
                    earlier[i],
                    identity,
                )
            &&& forall|i: int, j: int|
                0 <= i < j < earlier.len() ==> is_listed_before(
                    #[trigger] earlier[i],
                    #[trigger] earlier[j],
                )
            &&& have_distinct_ids(earlier)
            &&& forall|k: int|
                0 <= k < children.len() && is_earlier(#[trigger] children[k], identity)
                    ==> earlier.contains(children[k])
        }),
    decreases children.len(),
{
    if children.len() > 0 {
        let before = children.drop_last();
        let last = children.last();
        let at = children.len() - 1;
        let first = earlier_children(before, identity);
        let earlier = earlier_children(children, identity);
        assert forall|i: int, j: int| 0 <= i < j < before.len() implies is_listed_before(
            #[trigger] before[i],
            #[trigger] before[j],
        ) && before[i].0 != before[j].0 by {
            assert(children[i].0 != children[j].0);
            assert(is_listed_before(children[i], children[j]));
        }
        lemma_earlier_children(before, identity);
        assert forall|x: (Uuid, DetachedView)| before.contains(x) implies children.contains(x)
            && is_listed_before(x, last) && x.0 != last.0 by {
            let k = choose|k: int| 0 <= k < before.len() && before[k] == x;
            assert(children[k] == x);
            assert(is_listed_before(children[k], children[at]));
            assert(children[k].0 != children[at].0);
        }
        assert(children[at] == last);
        assert(children.contains(last));
        assert forall|i: int| 0 <= i < earlier.len() implies children.contains(
            #[trigger] earlier[i],
        ) && is_earlier(earlier[i], identity) by {
            if i < first.len() {
                assert(earlier[i] == first[i]);
                assert(before.contains(first[i]));
            }
        }
        assert forall|i: int, j: int| 0 <= i < j < earlier.len() implies is_listed_before(
            #[trigger] earlier[i],
            #[trigger] earlier[j],
        ) && earlier[i].0 != earlier[j].0 by {
            assert(earlier[i] == first[i]);
            if j < first.len() {
                assert(earlier[j] == first[j]);
                assert(first[i].0 != first[j].0);
            } else {
                assert(before.contains(first[i]));
            }
        }
        assert forall|k: int|
            0 <= k < children.len() && is_earlier(#[trigger] children[k], identity) implies earlier.contains(
            children[k],
        ) by {
            if k < at {
                assert(before[k] == children[k]);
                assert(first.contains(before[k]));
                let i = choose|i: int| 0 <= i < first.len() && first[i] == before[k];
                assert(earlier[i] == first[i]);
            } else {
                assert(earlier[first.len() as int] == last);
            }
        }
    }
}

/// What the store has of an exception after those from an occurrence on were removed.
proof fn lemma_removed(
    store: StoreView,
    children: Seq<(Uuid, DetachedView)>,
    identity: RecurrenceIdView,
    id: Uuid,
)
    ensures
        ({
            let after = store::applied_all(store, later_removals(children, identity));
            if exists|k: int|
                0 <= k < children.len() && (#[trigger] children[k]).0 == id && !is_earlier(
                    children[k],
                    identity,
                ) {
                store::stored(after.detached, id) is None
            } else {
                store::stored(after.detached, id) == store::stored(store.detached, id)
            }
        }),
    decreases children.len(),
{
    if children.len() > 0 {
        let before = children.drop_last();
        let at = children.len() - 1;
        let middle = store::applied_all(store, later_removals(before, identity));
        lemma_removed(store, before, identity, id);
        if !is_earlier(children.last(), identity) {
            store::lemma_applied_push(
                store,
                later_removals(before, identity),
                WriteView::DeleteDetached { id: children.last().0 },
            );
        }
        if exists|k: int|
            0 <= k < before.len() && (#[trigger] before[k]).0 == id && !is_earlier(
                before[k],
                identity,
            ) {
            let k = choose|k: int|
                0 <= k < before.len() && (#[trigger] before[k]).0 == id && !is_earlier(
                    before[k],
                    identity,
                );
            assert(children[k].0 == id && !is_earlier(children[k], identity));
        } else if exists|k: int|
            0 <= k < children.len() && (#[trigger] children[k]).0 == id && !is_earlier(
                children[k],
                identity,
            ) {
            let k = choose|k: int|
                0 <= k < children.len() && (#[trigger] children[k]).0 == id && !is_earlier(
                    children[k],
                    identity,
                );
            if k < at {
                assert(before[k].0 == id);
            }
            assert(k == at);
        } else {
            assert(children[at].0 != id || is_earlier(children[at], identity));
        }
    }
}

/// The exceptions that are left by a deletion are those before the chosen occurrence.
proof fn lemma_left_children(
    store: StoreView,
    master_id: Uuid,
    children: Seq<(Uuid, DetachedView)>,
    identity: RecurrenceIdView,
)
    requires
        are_listed_of(store, master_id, children),
    ensures
        are_listed_of(
            store::applied_all(store, later_removals(children, identity)),
            master_id,
            earlier_children(children, identity),
        ),
{
    let after = store::applied_all(store, later_removals(children, identity));
    let earlier = earlier_children(children, identity);
    lemma_earlier_children(children, identity);
    assert forall|i: int| 0 <= i < earlier.len() implies store::stored(
        after.detached,
        (#[trigger] earlier[i]).0,
    ) == Some(DetachedRow { master_id, detached: earlier[i].1 }) by {
        assert(children.contains(earlier[i]));
        let k = choose|k: int| 0 <= k < children.len() && children[k] == earlier[i];
        lemma_removed(store, children, identity, children[k].0);
        assert forall|n: int| 0 <= n < children.len() && (#[trigger] children[n]).0 == children[k].0 implies is_earlier(
            children[n],
            identity,
        ) by {
            if n < k {
                assert(children[n].0 != children[k].0);
            } else if k < n {
                assert(children[k].0 != children[n].0);
            }
        }
    }
    assert forall|id: Uuid|
        after.detached.dom().contains(id) && (#[trigger] after.detached[id]).master_id
            == master_id implies is_child(earlier, id) by {
        lemma_removed(store, children, identity, id);
        assert(store::stored(after.detached, id) == store::stored(store.detached, id));
        assert(store.detached[id].master_id == master_id);
        assert(is_child(children, id));
        let k = choose|k: int| 0 <= k < children.len() && (#[trigger] children[k]).0 == id;
        assert(is_earlier(children[k], identity));
        assert(earlier.contains(children[k]));
        let i = choose|i: int| 0 <= i < earlier.len() && earlier[i] == children[k];
        assert(earlier[i].0 == id);
    }
}

/// The deletion of an occurrence and all that follow can be taken back while the store has of the
/// event what the deletion left, and then leaves the store as it was before the deletion. Once it was
/// taken back, it cannot be again, whatever the store has.
pub proof fn law_deletion_of_following_is_taken_back_once(
    store: StoreView,
    record: MasterRecord,
    identity: RecurrenceIdView,
    left: RecurrenceView,
    current: CurrentSeries,
)
    requires
        delete_outcome(record, identity, Some(left)) is Some,
        are_rows_of(
            store,
            record.master@,
            record.calendar@,
            store::pending_view(record.pending),
            store::sync_view(record.sync_state),
            exceptions::child_views(record.children@),
        ),
        current.event.id == record.master.id,
        are_rows_of(
            store::applied_all(store, (delete_outcome(record, identity, Some(left))->0).0),
            current.event@,
            current.calendar@,
            store::pending_view(current.pending),
            store::sync_view(current.sync_state),
            exceptions::child_views(current.children@),
        ),
    ensures
        ({
            let (writes, undo) = delete_outcome(record, identity, Some(left))->0;
            let deleted = store::applied_all(store, writes);
            &&& can_undo_following(undo, current)
            &&& store::applied_all(deleted, undo_following_writes(undo)) == store
            &&& forall|other: CurrentSeries|
                !(#[trigger] can_undo_following(
                    FollowingUndoView { restored: true, ..undo },
                    other,
                ))
        }),
{
    let (writes, undo) = delete_outcome(record, identity, Some(left))->0;
    let master = record.master@;
    let children = exceptions::child_views(record.children@);
    let found = exceptions::child_views(current.children@);
    let w1 = WriteView::UpdateEvent { event: undo.truncated_event };
    let w3 = exceptions::pending_write(master.id, undo.deletion_pending_operation);
    let s1 = store::applied(store, w1);
    let s2 = store::applied_all(s1, later_removals(children, identity));
    let deleted = store::applied_all(store, writes);
    store::lemma_applied_one(store, w1);
    store::lemma_applied_all_concat(store, seq![w1], later_removals(children, identity));
    store::lemma_applied_all_concat(
        store,
        seq![w1] + later_removals(children, identity),
        seq![w3],
    );
    store::lemma_applied_one(s2, w3);
    assert(deleted == store::applied(s2, w3));
    lemma_later_removals(s1, children, identity, 0);
    assert(are_listed_of(s1, master.id, children));
    lemma_left_children(s1, master.id, children, identity);
    let remaining = earlier_children(children, identity);
    assert(deleted.detached == s2.detached);
    assert(are_listed_of(deleted, master.id, remaining));
    assert(are_listed_of(deleted, master.id, found));
    lemma_listed_is_determined(deleted, master.id, found, remaining, 0);
    assert(deleted.events == s1.events);
    assert(current.event@ == undo.truncated_event);
    assert(store::pending_view(current.pending) == undo.deletion_pending_operation);
    law_undo_following_restores(store, record, identity, left);
}

/// Removing the exceptions of the chosen occurrence touches nothing else.
proof fn lemma_chosen_removals(
    store: StoreView,
    children: Seq<(Uuid, DetachedView)>,
    identity: RecurrenceIdView,
    id: Uuid,
)
    ensures
        ({
            let after = store::applied_all(store, chosen_removals(children, identity));
            &&& after == (StoreView { detached: after.detached, ..store })
            &&& (forall|i: int|
                0 <= i < children.len() && (#[trigger] children[i]).0 == id ==> !is_chosen(
                    children[i],
                    identity,
                )) ==> store::stored(after.detached, id) == store::stored(store.detached, id)
            &&& (exists|i: int|
                0 <= i < children.len() && (#[trigger] children[i]).0 == id && is_chosen(
                    children[i],
                    identity,
                )) ==> store::stored(after.detached, id) is None
        }),
    decreases children.len(),
{
    if children.len() > 0 {
        let before = children.drop_last();
        lemma_chosen_removals(store, before, identity, id);
        if is_chosen(children.last(), identity) {
            store::lemma_applied_push(
                store,
                chosen_removals(before, identity),
                WriteView::DeleteDetached { id: children.last().0 },
            );
        }
        let kept = forall|i: int|
            0 <= i < children.len() && (#[trigger] children[i]).0 == id ==> !is_chosen(
                children[i],
                identity,
            );
        if kept {
            assert forall|i: int| 0 <= i < before.len() && (#[trigger] before[i]).0 == id implies !is_chosen(
                before[i],
                identity,
            ) by {
                assert(children[i].0 == id);
            }
            assert(children[children.len() - 1] == children.last());
        }
        if exists|i: int|
            0 <= i < children.len() && (#[trigger] children[i]).0 == id && is_chosen(
                children[i],
                identity,
            ) {
            let i = choose|i: int|
                0 <= i < children.len() && (#[trigger] children[i]).0 == id && is_chosen(
                    children[i],
                    identity,
                );
            if i < before.len() {
                assert(before[i].0 == id && is_chosen(before[i], identity));
            }
        }
    }
}

/// Moving exceptions touches nothing else.
proof fn lemma_move_writes(
    store: StoreView,
    moved: Seq<(Uuid, DetachedView)>,
    master_id: Uuid,
    id: Uuid,
)
    requires
        have_distinct_ids(moved),
    ensures
        ({
            let after = store::applied_all(store, move_writes(moved, master_id));
            &&& after == (StoreView { detached: after.detached, ..store })
            &&& !is_child(moved, id) ==> store::stored(after.detached, id) == store::stored(
                store.detached,
                id,
            )
            &&& forall|i: int|
                0 <= i < moved.len() && (#[trigger] moved[i]).0 == id ==> store::stored(
                    after.detached,
                    id,
                ) == Some(DetachedRow { master_id, detached: moved[i].1 })
        }),
    decreases moved.len(),
{
    if moved.len() > 0 {
        let before = moved.drop_last();
        assert forall|i: int, j: int| 0 <= i < j < before.len() implies (#[trigger] before[i]).0 != (
        #[trigger] before[j]).0 by {
            assert(moved[i].0 != moved[j].0);
        }
        lemma_move_writes(store, before, master_id, id);
        lemma_is_child_push(moved, id);
        let out = WriteView::DeleteDetached { id: moved.last().0 };
        let back = WriteView::InsertDetached {
            id: moved.last().0,
            master_id,
            detached: moved.last().1,
        };
        store::lemma_applied_push(store, move_writes(before, master_id), out);
        store::lemma_applied_push(store, move_writes(before, master_id).push(out), back);
        let after = store::applied_all(store, move_writes(moved, master_id));
        assert forall|i: int|
            0 <= i < moved.len() && (#[trigger] moved[i]).0 == id implies store::stored(
            after.detached,
            id,
        ) == Some(DetachedRow { master_id, detached: moved[i].1 }) by {
            if i < before.len() {
                assert(before[i].0 == id);
                assert(moved[i].0 != moved[moved.len() - 1].0);
            }
        }
    }
}

/// The exceptions that move are the later ones, each under its new identity.
proof fn lemma_moved_children(
    children: Seq<(Uuid, DetachedView)>,
    rebased: Seq<Option<RecurrenceIdView>>,
    identity: RecurrenceIdView,
    id: Uuid,
)
    requires
        have_distinct_ids(children),
        moved_children(children, rebased, identity) is Some,
    ensures
        ({
            let moved = moved_children(children, rebased, identity)->0;
            &&& have_distinct_ids(moved)
            &&& forall|m: int|
                0 <= m < moved.len() && (#[trigger] moved[m]).0 == id ==> exists|i: int|
                    0 <= i < children.len() && (#[trigger] children[i]).0 == id && is_later(
                        children[i],
                        identity,
                    ) && rebased[i] is Some && moved[m].1 == following::rebased(
                        children[i].1,
                        rebased[i]->0,
                    )
            &&& forall|i: int|
                0 <= i < children.len() && (#[trigger] children[i]).0 == id && is_later(
                    children[i],
                    identity,
                ) ==> is_child(moved, id)
        }),
    decreases children.len(),
{
    if children.len() > 0 {
        let before = children.drop_last();
        let last = children.len() - 1;
        assert forall|i: int, j: int| 0 <= i < j < before.len() implies (#[trigger] before[i]).0 != (
        #[trigger] before[j]).0 by {
            assert(children[i].0 != children[j].0);
        }
        lemma_moved_children(before, rebased, identity, id);
        let shorter = moved_children(before, rebased, identity)->0;
        let moved = moved_children(children, rebased, identity)->0;
        if is_later(children[last], identity) {
            assert(moved == shorter.push(
                (children[last].0, following::rebased(children[last].1, rebased[last]->0)),
            ));
            assert forall|i: int, j: int| 0 <= i < j < moved.len() implies (#[trigger] moved[i]).0
                != (#[trigger] moved[j]).0 by {
                if j == shorter.len() {
                    lemma_moved_children(before, rebased, identity, moved[i].0);
                    assert(shorter[i].0 == moved[i].0);
                    let k = choose|k: int|
                        0 <= k < before.len() && (#[trigger] before[k]).0 == moved[i].0 && is_later(
                            before[k],
                            identity,
                        ) && rebased[k] is Some && shorter[i].1 == following::rebased(
                            before[k].1,
                            rebased[k]->0,
                        );
                    assert(children[k].0 != children[last].0);
                } else {
                    assert(shorter[i].0 != shorter[j].0);
                }
            }
        }
        assert forall|m: int| 0 <= m < moved.len() && (#[trigger] moved[m]).0 == id implies exists|
            i: int,
        |
            0 <= i < children.len() && (#[trigger] children[i]).0 == id && is_later(
                children[i],
                identity,
            ) && rebased[i] is Some && moved[m].1 == following::rebased(
                children[i].1,
                rebased[i]->0,
            ) by {
            if m < shorter.len() {
                assert(shorter[m].0 == id);
                let k = choose|k: int|
                    0 <= k < before.len() && (#[trigger] before[k]).0 == id && is_later(
                        before[k],
                        identity,
                    ) && rebased[k] is Some && shorter[m].1 == following::rebased(
                        before[k].1,
                        rebased[k]->0,
                    );
                assert(children[k].0 == id);
            } else {
                assert(children[last].0 == id);
            }
        }
        assert forall|i: int|
            0 <= i < children.len() && (#[trigger] children[i]).0 == id && is_later(
                children[i],
                identity,
            ) implies is_child(moved, id) by {
            if i < before.len() {
                assert(before[i].0 == id);
                let m = choose|m: int| 0 <= m < shorter.len() && (#[trigger] shorter[m]).0 == id;
                assert(moved[m].0 == id);
            } else {
                assert(moved[shorter.len() as int].0 == id);
            }
        }
    }
}

/// Changing an occurrence and all that follow keeps the exceptions before it as they are, drops the
/// one that stood for it, and gives each later one, under its new identity, to the event that takes
/// over. The exceptions of other events stay.
pub proof fn law_edit_keeps_exceptions(
    store: StoreView,
    record: MasterRecord,
    edited: DetachedView,
    requested: Option<RecurrenceView>,
    split: Result<SplitView, RecurrenceSplitError>,
    future_id: Uuid,
    rebased: Seq<Option<RecurrenceIdView>>,
    id: Uuid,
)
    requires
        edit_outcome(record, edited, requested, split, future_id, rebased) is Some,
        are_children_of(store, record.master.id, exceptions::child_views(record.children@)),
        store.detached.dom().contains(id),
    ensures
        ({
            let children = exceptions::child_views(record.children@);
            let identity = edited.identity();
            let after = store::applied_all(
                store,
                edit_outcome(record, edited, requested, split, future_id, rebased)->0,
            );
            &&& store.detached[id].master_id != record.master.id ==> store::stored(
                after.detached,
                id,
            ) == Some(store.detached[id])
            &&& forall|i: int|
                0 <= i < children.len() && (#[trigger] children[i]).0 == id ==> if is_chosen(
                    children[i],
                    identity,
                ) {
                    store::stored(after.detached, id) is None
                } else if is_later(children[i], identity) {
                    rebased[i] is Some && store::stored(after.detached, id) == Some(
                        DetachedRow {
                            master_id: future_id,
                            detached: following::rebased(children[i].1, rebased[i]->0),
                        },
                    )
                } else {
                    store::stored(after.detached, id) == Some(store.detached[id])
                }
        }),
{
    let children = exceptions::child_views(record.children@);
    let identity = edited.identity();
    let moved = moved_children(children, rebased, identity)->0;
    let writes = edit_outcome(record, edited, requested, split, future_id, rebased)->0;
    let operation = exceptions::occurrence_operation(
        record.calendar@,
        record.master.id,
        store::pending_view(record.pending),
        store::sync_view(record.sync_state),
    )->Ok_0;
    let recurrence = future_recurrence_of(edited, requested, split->Ok_0)->0;
    let u = WriteView::UpdateEvent {
        event: EventView {
            recurrence: Some((split->Ok_0).original_recurrence),
            ..record.master@
        },
    };
    let n = WriteView::InsertEvent {
        event: future_event(record.master@, edited, recurrence, future_id),
    };
    let p = exceptions::pending_write(record.master.id, operation);
    let created: Seq<WriteView> = if record.calendar.source is Local {
        seq![]
    } else {
        seq![
            WriteView::PutPending {
                operation: PendingView::Create {
                    calendar_id: record.master@.calendar_id,
                    event_id: future_id,
                    remote_uid: distinct_uid(future_id, store::sync_view(record.sync_state)),
                },
            },
        ]
    };
    let removals = chosen_removals(children, identity);
    let moves = move_writes(moved, future_id);
    assert(writes == seq![u, n] + removals + moves + seq![p] + created);
    let s1 = store::applied(store, u);
    let s2 = store::applied(s1, n);
    let s3 = store::applied_all(s2, removals);
    let s4 = store::applied_all(s3, moves);
    let s5 = store::applied(s4, p);
    assert(seq![u, n] =~= seq![u].push(n));
    store::lemma_applied_one(store, u);
    store::lemma_applied_push(store, seq![u], n);
    store::lemma_applied_all_concat(store, seq![u, n], removals);
    store::lemma_applied_all_concat(store, seq![u, n] + removals, moves);
    store::lemma_applied_all_concat(store, seq![u, n] + removals + moves, seq![p]);
    store::lemma_applied_one(s4, p);
    store::lemma_applied_all_concat(store, seq![u, n] + removals + moves + seq![p], created);
    let after = store::applied_all(store, writes);
    if !(record.calendar.source is Local) {
        store::lemma_applied_one(s5, created[0]);
    }
    assert(after.detached == s4.detached);
    lemma_chosen_removals(s2, children, identity, id);
    lemma_moved_children(children, rebased, identity, id);
    lemma_move_writes(s3, moved, future_id, id);
    if store.detached[id].master_id != record.master.id {
        assert forall|i: int| 0 <= i < children.len() && (#[trigger] children[i]).0 == id implies false by {
            assert(store::stored(store.detached, children[i].0) == Some(
                DetachedRow { master_id: record.master.id, detached: children[i].1 },
            ));
        }
        if is_child(moved, id) {
            let m = choose|m: int| 0 <= m < moved.len() && (#[trigger] moved[m]).0 == id;
        }
    }
    assert forall|i: int| 0 <= i < children.len() && (#[trigger] children[i]).0 == id implies if is_chosen(
        children[i],
        identity,
    ) {
        store::stored(after.detached, id) is None
    } else if is_later(children[i], identity) {
        rebased[i] is Some && store::stored(after.detached, id) == Some(
            DetachedRow {
                master_id: future_id,
                detached: following::rebased(children[i].1, rebased[i]->0),
            },
        )
    } else {
        store::stored(after.detached, id) == Some(store.detached[id])
    } by {
        assert forall|j: int| 0 <= j < children.len() && (#[trigger] children[j]).0 == id implies j
            == i by {
            if j < i {
                assert(children[j].0 != children[i].0);
            } else if i < j {
                assert(children[i].0 != children[j].0);
            }
        }
        if is_child(moved, id) {
            let m = choose|m: int| 0 <= m < moved.len() && (#[trigger] moved[m]).0 == id;
            assert(moved[m].0 == id);
        }
    }
}

/// Where an occurrence and all that follow were edited, the event goes on as it was, with the
/// recurrence of the part before; and a new event stands for the rest, with the texts, times and
/// reminders that were given, in the same calendar, and with the recurrence that was asked for or that
/// of the part from there on.
pub proof fn law_edit_divides_the_series(
    store: StoreView,
    record: MasterRecord,
    edited: DetachedView,
    requested: Option<RecurrenceView>,
    split: Result<SplitView, RecurrenceSplitError>,
    future_id: Uuid,
    rebased: Seq<Option<RecurrenceIdView>>,
)
    requires
        edit_outcome(record, edited, requested, split, future_id, rebased) is Some,
        have_distinct_ids(exceptions::child_views(record.children@)),
        future_id != record.master.id,
    ensures
        ({
            let after = store::applied_all(
                store,
                edit_outcome(record, edited, requested, split, future_id, rebased)->0,
            );
            let master = record.master@;
            &&& split is Ok && edited is Modified
            &&& !record.calendar.read_only
            &&& store::stored(after.events, master.id) == Some(
                EventView {
                    id: master.id,
                    calendar_id: master.calendar_id,
                    title: master.title,
                    location: master.location,
                    description: master.description,
                    schedule: master.schedule,
                    recurrence: Some((split->Ok_0).original_recurrence),
                    reminders: master.reminders,
                },
            )
            &&& store::stored(after.events, future_id) == Some(
                EventView {
                    id: future_id,
                    calendar_id: master.calendar_id,
                    title: edited->title,
                    location: edited->location,
                    description: edited->description,
                    schedule: edited->schedule,
                    recurrence: Some(
                        match requested {
                            Some(recurrence) => recurrence,
                            None => (split->Ok_0).future_recurrence,
                        },
                    ),
                    reminders: edited->reminders,
                },
            )
            &&& forall|id: Uuid|
                id != master.id && id != future_id ==> #[trigger] store::stored(after.events, id)
                    == store::stored(store.events, id)
            &&& after.event_sync == store.event_sync
            &&& record.calendar.source is Local ==> store::stored(after.pending, future_id)
                == store::stored(store.pending, future_id) && store::stored(after.pending, master.id)
                is None
            &&& record.calendar.source is CalDav ==> (store::stored(after.pending, future_id) matches Some(
                PendingView::Create { calendar_id, event_id, remote_uid },
            ) && calendar_id == master.calendar_id && event_id == future_id && (
            record.sync_state matches Some(state) ==> remote_uid != state@.remote_uid))
        }),
{
    let children = exceptions::child_views(record.children@);
    let identity = edited.identity();
    let moved = moved_children(children, rebased, identity)->0;
    let writes = edit_outcome(record, edited, requested, split, future_id, rebased)->0;
    let operation = exceptions::occurrence_operation(
        record.calendar@,
        record.master.id,
        store::pending_view(record.pending),
        store::sync_view(record.sync_state),
    )->Ok_0;
    let recurrence = future_recurrence_of(edited, requested, split->Ok_0)->0;
    let u = WriteView::UpdateEvent {
        event: EventView {
            recurrence: Some((split->Ok_0).original_recurrence),
            ..record.master@
        },
    };
    let n = WriteView::InsertEvent {
        event: future_event(record.master@, edited, recurrence, future_id),
    };
    let p = exceptions::pending_write(record.master.id, operation);
    let created: Seq<WriteView> = if record.calendar.source is Local {
        seq![]
    } else {
        seq![
            WriteView::PutPending {
                operation: PendingView::Create {
                    calendar_id: record.master@.calendar_id,
                    event_id: future_id,
                    remote_uid: distinct_uid(future_id, store::sync_view(record.sync_state)),
                },
            },
        ]
    };
    let removals = chosen_removals(children, identity);
    let moves = move_writes(moved, future_id);
    assert(writes == seq![u, n] + removals + moves + seq![p] + created);
    let s1 = store::applied(store, u);
    let s2 = store::applied(s1, n);
    let s3 = store::applied_all(s2, removals);
    let s4 = store::applied_all(s3, moves);
    let s5 = store::applied(s4, p);
    assert(seq![u, n] =~= seq![u].push(n));
    store::lemma_applied_one(store, u);
    store::lemma_applied_push(store, seq![u], n);
    store::lemma_applied_all_concat(store, seq![u, n], removals);
    store::lemma_applied_all_concat(store, seq![u, n] + removals, moves);
    store::lemma_applied_all_concat(store, seq![u, n] + removals + moves, seq![p]);
    store::lemma_applied_one(s4, p);
    store::lemma_applied_all_concat(store, seq![u, n] + removals + moves + seq![p], created);
    if !(record.calendar.source is Local) {
        store::lemma_applied_one(s5, created[0]);
    }
    lemma_chosen_removals(s2, children, identity, future_id);
    lemma_moved_children(children, rebased, identity, future_id);
    lemma_move_writes(s3, moved, future_id, future_id);
    if let Some(state) = store::sync_view(record.sync_state) {
        law_distinct_uid_differs(future_id, state);
    }
}

/// Which change of the event itself waits after such an edit is the one after a change of an
/// occurrence.
pub proof fn law_edit_waits_like_a_changed_occurrence(
    record: MasterRecord,
    edited: DetachedView,
    requested: Option<RecurrenceView>,
    split: Result<SplitView, RecurrenceSplitError>,
    future_id: Uuid,
    rebased: Seq<Option<RecurrenceIdView>>,
)
    requires
        edit_outcome(record, edited, requested, split, future_id, rebased) is Some,
    ensures
        exceptions::occurrence_operation(
            record.calendar@,
            record.master.id,
            store::pending_view(record.pending),
            store::sync_view(record.sync_state),
        ) matches Ok(operation) && edit_outcome(
            record,
            edited,
            requested,
            split,
            future_id,
            rebased,
        )->0.contains(
            match operation {
                Some(operation) => WriteView::PutPending { operation },
                None => WriteView::DeletePending { event_id: record.master.id },
            },
        ),
{
    let children = exceptions::child_views(record.children@);
    let moved = moved_children(children, rebased, edited.identity())->0;
    let writes = edit_outcome(record, edited, requested, split, future_id, rebased)->0;
    let at = 2 + chosen_removals(children, edited.identity()).len() + move_writes(
        moved,
        future_id,
    ).len();
    assert(writes[at as int] == exceptions::pending_write(
        record.master.id,
        exceptions::occurrence_operation(
            record.calendar@,
            record.master.id,
            store::pending_view(record.pending),
            store::sync_view(record.sync_state),
        )->Ok_0,
    ));
}

/// An edit of an occurrence and all that follow is refused in a read-only calendar, where it says
/// nothing of what the occurrence becomes, where the series cannot be divided, where an exception that
/// follows has no place in the new series, and where the rule that was asked for cannot be shown.
pub proof fn law_refused_edits(
    record: MasterRecord,
    edited: DetachedView,
    requested: Option<RecurrenceView>,
    split: Result<SplitView, RecurrenceSplitError>,
    future_id: Uuid,
    rebased: Seq<Option<RecurrenceIdView>>,
)
    ensures
        record.calendar.read_only || edited is Cancelled || split is Err ==> edit_outcome(
            record,
            edited,
            requested,
            split,
            future_id,
            rebased,
        ) is None,
        requested matches Some(recurrence) ==> edited is Modified && recurrence_form::editable_form(
            Some(recurrence),
            edited->schedule,
        ) is None ==> edit_outcome(record, edited, requested, split, future_id, rebased) is None,
        forall|i: int|
            0 <= i < record.children@.len() && is_later(
                #[trigger] exceptions::child_views(record.children@)[i],
                edited.identity(),
            ) && rebased[i] is None ==> edit_outcome(
                record,
                edited,
                requested,
                split,
                future_id,
                rebased,
            ) is None,
{
    let children = exceptions::child_views(record.children@);
    assert forall|i: int|
        0 <= i < record.children@.len() && is_later(#[trigger] children[i], edited.identity())
            && rebased[i] is None implies moved_children(children, rebased, edited.identity()) is None by {
        lemma_unplaced_child(children, rebased, edited.identity(), i);
    }
}

proof fn lemma_unplaced_child(
    children: Seq<(Uuid, DetachedView)>,
    rebased: Seq<Option<RecurrenceIdView>>,
    identity: RecurrenceIdView,
    i: int,
)
    requires
        0 <= i < children.len(),
        is_later(children[i], identity),
        rebased[i] is None,
    ensures
        moved_children(children, rebased, identity) is None,
    decreases children.len(),
{
    if i < children.len() - 1 {
        assert(children.drop_last()[i] == children[i]);
        lemma_unplaced_child(children.drop_last(), rebased, identity, i);
    }
}

/// An exception follows an occurrence where it is not the one for it and its key comes after; it comes
/// before where its key does. Keys are the moment in UTC as text, whole days at midnight.
pub proof fn law_exceptions_before_and_after(child: (Uuid, DetachedView), identity: RecurrenceIdView)
    ensures
        ({
            let own = match child.1.identity() {
                RecurrenceIdView::AllDay(day) => crate::formats::iso_date(day@) + "T00:00:00+00:00"@,
                RecurrenceIdView::Timed { date_time, .. } => crate::formats::rfc3339_of(
                    date_time@.at_offset(0),
                ),
            };
            let chosen = match identity {
                RecurrenceIdView::AllDay(day) => crate::formats::iso_date(day@) + "T00:00:00+00:00"@,
                RecurrenceIdView::Timed { date_time, .. } => crate::formats::rfc3339_of(
                    date_time@.at_offset(0),
                ),
            };
            &&& is_later(child, identity) <==> !occurrences::identities_match(
                child.1.identity(),
                identity,
            ) && text::text_before(chosen, own)
            &&& is_earlier(child, identity) <==> text::text_before(own, chosen)
            &&& !(is_later(child, identity) && is_earlier(child, identity))
            &&& is_chosen(child, identity) <==> occurrences::identities_match(
                child.1.identity(),
                identity,
            )
        }),
{
    text::lemma_text_order(
        occurrences::sort_key(identity),
        occurrences::sort_key(child.1.identity()),
    );
}

/// Where an occurrence and all that follow were deleted, the event is left with the recurrence that
/// ends before, its exceptions from there on are gone, the earlier ones stay, and nothing else of any
/// event changes.
pub proof fn law_deletion_of_following_leaves_the_rest(
    store: StoreView,
    record: MasterRecord,
    identity: RecurrenceIdView,
    left: RecurrenceView,
    id: Uuid,
)
    requires
        delete_outcome(record, identity, Some(left)) is Some,
    ensures
        ({
            let (writes, undo) = delete_outcome(record, identity, Some(left))->0;
            let after = store::applied_all(store, writes);
            let children = exceptions::child_views(record.children@);
            let master = record.master@;
            &&& !record.calendar.read_only && master.recurrence is Some
            &&& after.events == store.events.insert(
                master.id,
                EventView {
                    id: master.id,
                    calendar_id: master.calendar_id,
                    title: master.title,
                    location: master.location,
                    description: master.description,
                    schedule: master.schedule,
                    recurrence: Some(left),
                    reminders: master.reminders,
                },
            )
            &&& after.event_sync == store.event_sync
            &&& store::stored(after.detached, id) == if exists|k: int|
                0 <= k < children.len() && (#[trigger] children[k]).0 == id && !is_earlier(
                    children[k],
                    identity,
                ) {
                None
            } else {
                store::stored(store.detached, id)
            }
            &&& record.calendar.source is Local ==> store::stored(after.pending, master.id) is None
            &&& !undo.restored && undo.prior_event == master && undo.prior_children == children
        }),
{
    let children = exceptions::child_views(record.children@);
    let master = record.master@;
    let (writes, undo) = delete_outcome(record, identity, Some(left))->0;
    let operation = exceptions::occurrence_operation(
        record.calendar@,
        master.id,
        store::pending_view(record.pending),
        store::sync_view(record.sync_state),
    )->Ok_0;
    let u = WriteView::UpdateEvent { event: EventView { recurrence: Some(left), ..master } };
    let p = exceptions::pending_write(master.id, operation);
    let removals = later_removals(children, identity);
    assert(writes == seq![u] + removals + seq![p]);
    let s1 = store::applied(store, u);
    store::lemma_applied_one(store, u);
    store::lemma_applied_all_concat(store, seq![u], removals);
    store::lemma_applied_all_concat(store, seq![u] + removals, seq![p]);
    store::lemma_applied_one(store::applied_all(s1, removals), p);
    lemma_removed(s1, children, identity, id);
    lemma_later_removals_keep(s1, children, identity);
}

proof fn lemma_later_removals_keep(
    store: StoreView,
    children: Seq<(Uuid, DetachedView)>,
    identity: RecurrenceIdView,
)
    ensures
        ({
            let after = store::applied_all(store, later_removals(children, identity));
            after == (StoreView { detached: after.detached, ..store })
        }),
    decreases children.len(),
{
    if children.len() > 0 {
        lemma_later_removals_keep(store, children.drop_last(), identity);
        if !is_earlier(children.last(), identity) {
            store::lemma_applied_push(
                store,
                later_removals(children.drop_last(), identity),
                WriteView::DeleteDetached { id: children.last().0 },
            );
        }
    }
}

/// The new event of a divided series gets an identifier that is not taken and that makes another name
/// than the one that the server knows the event by.
pub proof fn law_free_identifiers(id: Uuid, taken: bool, sync_state: Option<EventSyncView>)
    ensures
        taken ==> !is_free((id, taken), sync_state),
        !taken && sync_state is Some ==> is_free((id, taken), sync_state),
{
    if let Some(state) = sync_state {
        law_distinct_uid_differs(id, state);
    }
}

/// Exceptions come before or after an occurrence as their own occurrences do: whole days by the day,
/// and whole seconds by the instant, whatever the zones.
pub proof fn law_exceptions_are_in_the_order_of_time(child: (Uuid, DetachedView), identity: RecurrenceIdView)
    ensures
        child.1.identity() matches RecurrenceIdView::AllDay(own) ==> identity matches RecurrenceIdView::AllDay(
            chosen,
        ) ==> crate::formats::has_four_digit_year(own@) && crate::formats::has_four_digit_year(chosen@)
            ==> (is_earlier(child, identity) <==> own@ < chosen@) && (is_later(child, identity) <==> own@
            > chosen@),
        child.1.identity() matches RecurrenceIdView::Timed { date_time: own, .. } ==> identity matches RecurrenceIdView::Timed {
            date_time: chosen,
            ..
        } ==> own@.nanos == 0 && chosen@.nanos == 0 && crate::formats::has_four_digit_year(
            own@.at_offset(0).local_day(),
        ) && crate::formats::has_four_digit_year(chosen@.at_offset(0).local_day()) ==> (is_earlier(
            child,
            identity,
        ) <==> own@.seconds < chosen@.seconds) && (is_later(child, identity) <==> own@.seconds
            > chosen@.seconds && !is_chosen(child, identity)),
{
    let tail = "T00:00:00+00:00"@;
    text::lemma_text_order(tail, tail);
    if let RecurrenceIdView::AllDay(own) = child.1.identity() {
        if let RecurrenceIdView::AllDay(chosen) = identity {
            if crate::formats::has_four_digit_year(own@) && crate::formats::has_four_digit_year(chosen@) {
                let (a, b) = (crate::formats::iso_date(own@), crate::formats::iso_date(chosen@));
                crate::formats::law_order_of_written_days(own@, chosen@);
                crate::formats::law_order_of_written_days(chosen@, own@);
                text::law_order_of_texts(a, b, tail, tail);
                text::law_order_of_texts(b, a, tail, tail);
            }
        }
    }
    if let RecurrenceIdView::Timed { date_time: own, .. } = child.1.identity() {
        if let RecurrenceIdView::Timed { date_time: chosen, .. } = identity {
            if own@.nanos == 0 && chosen@.nanos == 0 && crate::formats::has_four_digit_year(
                own@.at_offset(0).local_day(),
            ) && crate::formats::has_four_digit_year(chosen@.at_offset(0).local_day()) {
                crate::formats::law_order_of_written_moments(own@.at_offset(0), chosen@.at_offset(0));
                crate::formats::law_order_of_written_moments(chosen@.at_offset(0), own@.at_offset(0));
            }
        }
    }
}

/// A series goes on by the rule that was asked for, and by what the split leaves for the future where
/// none was.
pub proof fn law_rule_of_the_future(
    master: EventView,
    identity: RecurrenceIdView,
    requested: RecurrenceView,
)
    ensures
        taken_recurrence(master, identity, Some(requested)) == Some(requested),
        recurrence_split::split_result(master, identity) matches Ok(split) ==> taken_recurrence(
            master,
            identity,
            None,
        ) == Some(split.future_recurrence),
        recurrence_split::split_result(master, identity) is Err ==> taken_recurrence(master, identity, None)
            is None,
{
}

/// Only exceptions after the changed occurrence that stand for an occurrence of the series are moved,
/// and each as its day is moved to the time of the changed occurrence.
pub proof fn law_exceptions_that_are_moved(
    master: EventView,
    edited: DetachedView,
    requested: Option<RecurrenceView>,
    child: (Uuid, DetachedView),
    recurrence: RecurrenceView,
    taken: RecurrenceView,
)
    requires
        edited is Modified,
        master.recurrence == Some(recurrence),
        taken_recurrence(master, edited.identity(), requested) == Some(taken),
        recurrence_split::split_result(master, edited.identity()) is Ok,
    ensures
        !is_later(child, edited.identity()) ==> rebased_child(master, edited, requested, child) is None,
        !occurrences::is_generated(
            master.schedule,
            child.1.identity(),
            occurrences::neighbours_of(master.schedule, recurrence, child.1.identity()),
        ) ==> rebased_child(master, edited, requested, child) is None,
        is_later(child, edited.identity()) && occurrences::is_generated(
            master.schedule,
            child.1.identity(),
            occurrences::neighbours_of(master.schedule, recurrence, child.1.identity()),
        ) ==> rebased_child(master, edited, requested, child) == following::rebase_outcome(
            master.schedule,
            edited->schedule,
            taken,
            child.1.identity(),
        ),
{
}

/// Whatever the dates show, an exception is moved only where it lies after the changed occurrence and
/// may be one of the series, and then to an occurrence that the new series may have.
pub proof fn law_moves_follow_the_dates(
    rebased: Option<RecurrenceIdView>,
    master: EventView,
    edited: DetachedView,
    requested: Option<RecurrenceView>,
    split: SplitView,
    future_id: Uuid,
    child: (Uuid, DetachedView),
)
    requires
        edited is Modified,
        is_moved(
            rebased,
            master,
            edited,
            requested,
            Ok::<SplitView, RecurrenceSplitError>(split),
            future_id,
            child,
        ),
    ensures
        !is_later(child, edited.identity()) ==> rebased is None,
        rebased matches Some(moved) ==> {
            &&& occurrences::is_finding(true, master, child.1.identity())
            &&& occurrences::is_finding(
                true,
                future_event(
                    master,
                    edited,
                    if requested is Some {
                        requested->0
                    } else {
                        split.future_recurrence
                    },
                    future_id,
                ),
                moved,
            )
        },
{
    if rebased is Some {
        let recurrence = if requested is Some {
            requested->0
        } else {
            split.future_recurrence
        };
        following::law_moved_exceptions(
            rebased,
            master.schedule,
            future_event(master, edited, recurrence, future_id),
            child.1.identity(),
        );
    }
}

/// A series is divided where the change is one that is supported, in a calendar that can be changed, the
/// split succeeds, the change can wait, the rule asked for can be edited, and every later exception finds
/// its place, no two of them the same.
pub proof fn law_edits_that_are_made(
    record: MasterRecord,
    edited: DetachedView,
    requested: Option<RecurrenceView>,
    split: SplitView,
    future_id: Uuid,
    rebased: Seq<Option<RecurrenceIdView>>,
    moved: Seq<(Uuid, DetachedView)>,
)
    requires
        edited is Modified,
        !record.calendar.read_only,
        following::edit_is_supported(
            record.master@.schedule,
            edited.identity(),
            edited->schedule,
            requested is Some,
        ),
        exceptions::occurrence_operation(
            record.calendar@,
            record.master.id,
            store::pending_view(record.pending),
            store::sync_view(record.sync_state),
        ) is Ok,
        requested matches Some(recurrence) ==> recurrence_form::editable_form(
            Some(recurrence),
            edited->schedule,
        ) is Some,
        moved_children(exceptions::child_views(record.children@), rebased, edited.identity()) == Some(moved),
        occurrences::are_distinct(detached_of(moved)),
    ensures
        edit_outcome(
            record,
            edited,
            requested,
            Ok::<SplitView, RecurrenceSplitError>(split),
            future_id,
            rebased,
        ) is Some,
{
}

/// Later exceptions that all find a place are all moved, and those before stay out of it.
pub proof fn law_later_exceptions_find_their_places(
    children: Seq<(Uuid, DetachedView)>,
    rebased: Seq<Option<RecurrenceIdView>>,
    identity: RecurrenceIdView,
)
    requires
        rebased.len() >= children.len(),
        forall|i: int|
            0 <= i < children.len() && is_later(#[trigger] children[i], identity) ==> rebased[i] is Some,
    ensures
        moved_children(children, rebased, identity) is Some,
        forall|i: int|
            0 <= i < children.len() && is_later(#[trigger] children[i], identity) ==> (moved_children(
                children,
                rebased,
                identity,
            )->0).contains((children[i].0, following::rebased(children[i].1, rebased[i]->0))),
    decreases children.len(),
{
    if children.len() > 0 {
        let shorter = children.drop_last();
        let last = children.len() - 1;
        assert forall|i: int| 0 <= i < shorter.len() && is_later(#[trigger] shorter[i], identity) implies rebased[i]
            is Some by {
            assert(is_later(children[i], identity));
        }
        law_later_exceptions_find_their_places(shorter, rebased, identity);
        let before = moved_children(shorter, rebased, identity)->0;
        let out = moved_children(children, rebased, identity)->0;
        assert(is_later(children[last], identity) ==> rebased[last] is Some);
        assert forall|i: int| 0 <= i < children.len() && is_later(#[trigger] children[i], identity) implies out.contains(
            (children[i].0, following::rebased(children[i].1, rebased[i]->0)),
        ) by {
            let wanted = (children[i].0, following::rebased(children[i].1, rebased[i]->0));
            if i < last {
                assert(is_later(shorter[i], identity));
                assert(before.contains(wanted));
                let k = choose|k: int| 0 <= k < before.len() && before[k] == wanted;
                assert(out[k] == wanted);
            } else {
                assert(out[before.len() as int] == wanted);
            }
        }
    }
}

/// What follows an occurrence is deleted exactly where the calendar can be changed, the event repeats,
/// something is left of its rule, and the change can wait.
pub proof fn law_deletions_of_following_that_are_made(
    record: MasterRecord,
    identity: RecurrenceIdView,
    left: Option<RecurrenceView>,
)
    ensures
        delete_outcome(record, identity, left) is Some <==> !record.calendar.read_only
            && record.master@.recurrence is Some && left is Some && exceptions::occurrence_operation(
            record.calendar@,
            record.master@.id,
            store::pending_view(record.pending),
            store::sync_view(record.sync_state),
        ) is Ok,
{
}

} // verus!
