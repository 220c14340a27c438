use calendar::backend::caldav::{CaldavDiscovery, DiscoveredCalendar, MappedEvent, ResourceRecord};
use calendar::backend::changes::{
    create_event_with_sync, delete_event_with_sync_undo, delete_event_with_undo,
    queue_orphan_event_creates, undo_delete_event, undo_event_with_sync, update_event,
    update_event_with_sync, StoredEvent,
};
use calendar::backend::exceptions::{
    cancel_occurrence_with_sync_undo, undo_occurrence_with_sync, upsert_occurrence_with_sync,
    MasterRecord,
};
use calendar::backend::memory::{
    overlapping_events, CalendarRepository, EventRepository, InMemoryRepository,
};
use calendar::backend::provision::{provision_caldav_account, seed_default_calendars, Slot};
use calendar::backend::reconcile::{
    finalize_event_delete, finalize_event_upload, reconcile_remote_changes,
    reconcile_remote_snapshot, reconcile_remote_snapshot_clearing_sync_token, replace_detached_events,
    IncomingResource, MappedResource, RemoteRecord,
};
use calendar::backend::rows;
use calendar::backend::series::{
    delete_this_and_following_with_sync_undo, distinct_remote_uid, edit_this_and_following_with_sync,
    edit_this_and_following_with_sync_and_recurrence,
    new_future_master_id, undo_this_and_following_with_sync, CurrentSeries,
};
use calendar::backend::store::StoreWrite;
use calendar::date::{Date, DateTime};
use calendar::model::{
    new_quick_add_event, validate_calendar, validate_event, Account, Calendar, CalendarSource,
    CalendarSyncState, DateTimeRange, DetachedEvent, Event, EventSchedule, EventSyncState,
    PendingSyncOperation, RangeOverlap, RecurrenceId, RecurrenceSpec, ReminderSpec,
};

const HOME: u128 = 3;
const REMOTE: u128 = 4;

fn day(year: i32, month: u32, day: u32) -> Date {
    Date::from_ymd_opt(year, month, day).unwrap()
}

fn instant(date: Date, hour: i64, minute: i64, offset: i32) -> DateTime {
    let seconds =
        (date.days() as i64 - 719163) * 86400 + hour * 3600 + minute * 60 - offset as i64;
    DateTime::new(seconds, 0, offset).unwrap()
}

fn days(start: Date, end: Date) -> EventSchedule {
    EventSchedule::AllDay { start_date: start, end_date_exclusive: end }
}

fn event(id: u128, calendar_id: u128) -> Event {
    Event {
        id,
        calendar_id,
        title: "Walk".to_string(),
        location: "Park".to_string(),
        description: "Slowly".to_string(),
        schedule: days(day(2026, 7, 20), day(2026, 7, 21)),
        recurrence: None,
        reminders: vec![ReminderSpec { seconds_before_start: 60, description: "Go".to_string() }],
    }
}

fn series(id: u128, calendar_id: u128, rule: &str) -> Event {
    let mut event = event(id, calendar_id);
    event.recurrence = Some(RecurrenceSpec::of_rule(rule.to_string()));
    event
}

fn home() -> Calendar {
    Calendar {
        id: HOME,
        name: "Home".to_string(),
        color: "#3366cc".to_string(),
        visible: true,
        read_only: false,
        source: CalendarSource::Local,
    }
}

fn remote() -> Calendar {
    Calendar {
        id: REMOTE,
        name: "Remote".to_string(),
        color: "#cc3333".to_string(),
        visible: true,
        read_only: false,
        source: CalendarSource::CalDav { account_id: 9 },
    }
}

fn read_only(mut calendar: Calendar) -> Calendar {
    calendar.read_only = true;
    calendar
}

fn sync_state(event_id: u128) -> EventSyncState {
    EventSyncState {
        calendar_id: REMOTE,
        event_id,
        remote_href: format!("https://example.org/{event_id}.ics"),
        remote_uid: format!("uid-{event_id}"),
        etag: Some("\"1\"".to_string()),
    }
}

fn record(master: Event, calendar: Calendar, sync: Option<EventSyncState>) -> MasterRecord {
    MasterRecord { master, calendar, pending: None, sync_state: sync, children: Vec::new() }
}

#[test]
fn events_and_calendars_are_checked_before_they_are_stored() {
    let mut untitled = event(1, HOME);
    untitled.title = " \t".to_string();
    assert!(validate_event(untitled).is_err());
    let mut backward = event(1, HOME);
    backward.schedule = days(day(2026, 7, 21), day(2026, 7, 20));
    assert!(validate_event(backward).is_err());
    let mut padded = event(1, HOME);
    padded.title = "  Walk ".to_string();
    let kept = validate_event(padded).unwrap();
    assert_eq!(kept.title, "Walk");
    assert_eq!(validate_event(kept).unwrap().title, "Walk");

    let mut grey = home();
    grey.name = " Home ".to_string();
    grey.color = "ABCDEF".to_string();
    let kept = validate_calendar(grey).unwrap();
    assert_eq!((kept.name.as_str(), kept.color.as_str()), ("Home", "#abcdef"));
    assert_eq!(validate_calendar(kept).unwrap().color, "#abcdef");
    let mut odd = home();
    odd.color = "#12345".to_string();
    assert!(validate_calendar(odd).is_err());
    let mut unnamed = home();
    unnamed.name = String::new();
    assert!(validate_calendar(unnamed).is_err());
}

#[test]
fn quick_events_take_a_day() {
    let quick = new_quick_add_event(8, HOME, "  Call ", day(2026, 7, 20)).unwrap();
    assert_eq!(quick.title, "Call");
    assert!(quick.schedule.same(&days(day(2026, 7, 20), day(2026, 7, 21))));
    assert!(new_quick_add_event(8, HOME, "  ", day(2026, 7, 20)).is_err());
}

#[test]
fn ranges_overlap_in_five_ways() {
    let at = |hour| instant(day(2026, 7, 20), hour, 0, 0);
    let range = |from, to| DateTimeRange::new(at(from), at(to)).unwrap();
    assert_eq!(range(1, 3).overlap(&range(3, 5)), RangeOverlap::Disjoint);
    assert_eq!(range(1, 4).overlap(&range(3, 5)), RangeOverlap::Intersection);
    assert_eq!(range(1, 6).overlap(&range(3, 5)), RangeOverlap::Contains);
    assert_eq!(range(3, 5).overlap(&range(1, 6)), RangeOverlap::ContainedIn);
    assert_eq!(range(3, 5).overlap(&range(3, 5)), RangeOverlap::Equal);
    assert!(DateTimeRange::new(at(3), at(3)).is_err());
}

#[test]
fn memory_keeps_events_by_identifier() {
    let mut kept = InMemoryRepository::new();
    assert!(kept.save_calendar(&home()).is_ok());
    assert_eq!(kept.list_calendars().len(), 1);
    assert_eq!(kept.get_calendar(HOME).unwrap().name, "Home");
    let walk = event(1, HOME);
    assert!(kept.save_event(&walk).is_ok());
    assert!(kept.save_event(&walk).is_err());
    let mut run = walk.clone();
    run.title = "Run".to_string();
    assert!(kept.update_event(&run).is_ok());
    assert_eq!(kept.get_event(1).unwrap().title, "Run");
    assert!(kept.update_event(&event(2, HOME)).is_err());
    assert_eq!(kept.list_events_for_calendar(HOME).len(), 1);
    assert!(kept.list_events_for_calendar(REMOTE).is_empty());
    let mut undo = kept.delete_event_with_undo(1).unwrap();
    assert!(kept.get_event(1).is_none());
    assert!(kept.undo_delete_event(&mut undo).is_ok());
    assert!(kept.undo_delete_event(&mut undo).is_err());
    assert!(kept.get_event(1).unwrap().same(&run));
    let mut again = kept.delete_event_with_undo(1).unwrap();
    assert_eq!(again.event.id, 1);
    kept.save_event(&walk).unwrap();
    assert!(kept.undo_delete_event(&mut again).is_err());
    assert!(kept.get_event(1).unwrap().same(&walk));
    assert!(kept.delete_event(1));
    assert!(kept.undo_delete_event(&mut undo).is_err());
    assert!(kept.undo_delete_event(&mut again).is_ok());
    assert!(kept.get_event(1).unwrap().same(&run));
    assert!(kept.delete_event(1));
    assert!(!kept.delete_event(1));
    assert!(kept.delete_event_with_undo(1).is_none());
    assert!(kept.delete_calendar(HOME));
    assert!(!kept.delete_calendar(HOME));
}

#[test]
fn memory_finds_events_of_a_range_in_order() {
    let mut kept = InMemoryRepository::new();
    let at = |hour| instant(day(2026, 7, 20), hour, 0, 0);
    for (id, from, to) in [(5, 10, 11), (3, 8, 9), (4, 8, 10), (6, 20, 21)] {
        let mut timed = event(id, HOME);
        timed.schedule = EventSchedule::Timed { start: at(from), end: at(to), timezone: None };
        kept.save_event(&timed).unwrap();
    }
    kept.save_event(&event(7, HOME)).unwrap();
    let found = kept.timed_events_in_range(&DateTimeRange::new(at(8), at(12)).unwrap());
    let found: Vec<u128> = found.iter().map(|event| event.id).collect();
    assert_eq!(found, vec![3, 4, 5]);
}

#[test]
fn overlap_is_that_of_instants() {
    let at = |nanos| DateTime::new(1_800_000_000, nanos, 0).unwrap();
    let timed = |id, from, to| {
        let mut timed = event(id, HOME);
        timed.schedule = EventSchedule::Timed { start: at(from), end: at(to), timezone: None };
        timed
    };
    let given = vec![timed(1, 500, 600), timed(2, 300, 400), timed(3, 100, 200), event(4, HOME)];
    let found = overlapping_events(&given, &DateTimeRange::new(at(200), at(600)).unwrap());
    let found: Vec<u128> = found.iter().map(|event| event.id).collect();
    assert_eq!(found, vec![2, 1]);
}

#[test]
fn rows_are_read_back_as_what_was_stored() {
    let mut stored = series(1, HOME, "RRULE:FREQ=DAILY");
    stored.recurrence.as_mut().unwrap().exdate.push("EXDATE;VALUE=DATE:20260722".to_string());
    stored.reminders.clear();
    let row = rows::make_event_row(&stored);
    assert!(rows::event_from_row(&row).unwrap().same(&stored));
    let mut timed = event(2, HOME);
    timed.reminders.clear();
    timed.schedule = EventSchedule::Timed {
        start: instant(day(2026, 7, 20), 9, 0, 7200),
        end: instant(day(2026, 7, 20), 10, 0, 7200),
        timezone: Some("Europe/Berlin".to_string()),
    };
    let row = rows::make_event_row(&timed);
    assert_eq!(row.end_unix - row.start_unix, 3600);
    assert!(rows::event_from_row(&row).unwrap().same(&timed));
    let mut broken = rows::make_event_row(&timed);
    broken.schedule.start_datetime = None;
    assert!(rows::event_from_row(&broken).is_err());
    let mut unknown = rows::make_event_row(&timed);
    unknown.schedule.schedule_type = Some("sometimes".to_string());
    assert!(rows::event_from_row(&unknown).is_err());

    let cancelled = DetachedEvent::Cancelled { recurrence_id: RecurrenceId::AllDay(day(2026, 7, 21)) };
    let row = rows::make_exception_row(77, &cancelled);
    let (id, read) = rows::detached_event_from_row(&row).unwrap();
    assert_eq!(id, 77);
    assert!(read.same(&cancelled));

    let kept = rows::calendar_from_row(&rows::make_calendar_row(&remote()));
    assert_eq!(kept.source, CalendarSource::CalDav { account_id: 9 });
    assert_eq!(kept.color, "#cc3333");
    let account = Account {
        id: 9,
        name: "Work".to_string(),
        server_url: "https://example.org".to_string(),
        username: "me".to_string(),
        enabled: false,
    };
    let kept = rows::account_from_row(&rows::make_account_row(&account));
    assert_eq!((kept.id, kept.enabled), (9, false));

    let waiting = PendingSyncOperation::Delete {
        calendar_id: REMOTE,
        event_id: 1,
        remote_href: "h".to_string(),
        remote_uid: "u".to_string(),
        base_etag: Some("e".to_string()),
    };
    let mut row = rows::make_pending_row(&waiting);
    assert!(matches!(
        rows::pending_sync_operation_from_row(&row).unwrap(),
        PendingSyncOperation::Delete { event_id: 1, .. }
    ));
    row.remote_href = None;
    assert!(rows::pending_sync_operation_from_row(&row).is_err());
}

#[test]
fn new_events_wait_for_the_server_they_belong_to() {
    let writes = create_event_with_sync(&event(1, HOME), &Some(home())).unwrap();
    assert_eq!(writes.len(), 1);
    assert!(matches!(&writes[0], StoreWrite::InsertEvent { event } if event.id == 1));
    let writes = create_event_with_sync(&event(1, REMOTE), &Some(remote())).unwrap();
    assert_eq!(writes.len(), 2);
    assert!(matches!(
        &writes[1],
        StoreWrite::PutPending { operation: PendingSyncOperation::Create { event_id: 1, remote_uid, .. } }
            if remote_uid == "00000000-0000-0000-0000-000000000001"
    ));
    assert!(create_event_with_sync(&event(1, REMOTE), &None).is_err());
    assert!(create_event_with_sync(&event(1, REMOTE), &Some(read_only(remote()))).is_err());
    let queued = queue_orphan_event_creates(REMOTE, &vec![5, 6]);
    assert_eq!(queued.len(), 2);
}

#[test]
fn changed_events_wait_with_the_validator_they_had() {
    let stored = StoredEvent {
        calendar: Some(remote()),
        pending: None,
        sync_state: Some(sync_state(1)),
    };
    let writes = update_event_with_sync(&event(1, REMOTE), &Some(stored), &Some(remote())).unwrap();
    assert!(writes.iter().any(|write| matches!(write, StoreWrite::UpdateEvent { .. })));
    assert!(writes.iter().any(|write| matches!(
        write,
        StoreWrite::PutPending { operation: PendingSyncOperation::Update { base_etag: Some(etag), .. } }
            if etag == "\"1\""
    )));
    assert!(update_event_with_sync(&event(1, REMOTE), &None, &Some(remote())).is_err());
}

#[test]
fn deleted_events_come_back_once() {
    let stored = StoredEvent {
        calendar: Some(remote()),
        pending: None,
        sync_state: Some(sync_state(1)),
    };
    let (writes, mut undo) = delete_event_with_sync_undo(&event(1, REMOTE), &stored).unwrap();
    assert!(writes.iter().any(|write| matches!(write, StoreWrite::DeleteEvent { id: 1 })));
    let tombstone = PendingSyncOperation::Delete {
        calendar_id: REMOTE,
        event_id: 1,
        remote_href: sync_state(1).remote_href,
        remote_uid: sync_state(1).remote_uid,
        base_etag: sync_state(1).etag,
    };
    let back = undo_event_with_sync(&undo, &Some(remote()), false, &Some(tombstone)).unwrap();
    assert!(back.iter().any(|write| matches!(
        write,
        StoreWrite::InsertEvent { event } if event.reminders.len() == 1
    )));
    assert!(undo_event_with_sync(&undo, &Some(remote()), true, &None).is_err());
    undo.mark_restored();
    assert!(undo_event_with_sync(&undo, &Some(remote()), false, &None).is_err());
}

#[test]
fn occurrences_are_changed_cancelled_and_restored() {
    let master = series(1, HOME, "RRULE:FREQ=DAILY;COUNT=3");
    let identity = RecurrenceId::AllDay(day(2026, 7, 21));
    let changed = DetachedEvent::Modified {
        recurrence_id: identity.clone(),
        title: "Longer walk".to_string(),
        location: String::new(),
        description: String::new(),
        schedule: days(day(2026, 7, 21), day(2026, 7, 23)),
        reminders: Vec::new(),
    };
    let kept = record(master, home(), None);
    let writes = upsert_occurrence_with_sync(&kept, &changed, 50).unwrap();
    assert!(writes.iter().any(|write| matches!(
        write,
        StoreWrite::InsertDetached { id: 50, master_id: 1, .. }
    )));
    let stray = DetachedEvent::Cancelled { recurrence_id: RecurrenceId::AllDay(day(2026, 8, 1)) };
    assert!(upsert_occurrence_with_sync(&kept, &stray, 50).is_err());
    let (writes, mut undo) = cancel_occurrence_with_sync_undo(&kept, &identity, 51).unwrap();
    assert!(writes.iter().any(|write| matches!(
        write,
        StoreWrite::InsertDetached { detached: DetachedEvent::Cancelled { .. }, .. }
    )));
    let cancelled = Some((51, DetachedEvent::Cancelled { recurrence_id: identity.clone() }));
    let back = undo_occurrence_with_sync(&undo, &cancelled, &None, 52).unwrap();
    assert!(back.iter().any(|write| matches!(write, StoreWrite::DeleteDetached { id: 51 })));
    undo.mark_restored();
    assert!(undo_occurrence_with_sync(&undo, &cancelled, &None, 52).is_err());
    let closed = record(series(1, HOME, "RRULE:FREQ=DAILY;COUNT=3"), read_only(home()), None);
    assert!(upsert_occurrence_with_sync(&closed, &changed, 50).is_err());
}

#[test]
fn the_rest_of_a_series_is_taken_over_by_a_new_event() {
    let kept = record(series(1, REMOTE, "RRULE:FREQ=DAILY;COUNT=5"), remote(), Some(sync_state(1)));
    let edited = DetachedEvent::Modified {
        recurrence_id: RecurrenceId::AllDay(day(2026, 7, 22)),
        title: "Run".to_string(),
        location: String::new(),
        description: String::new(),
        schedule: days(day(2026, 7, 22), day(2026, 7, 23)),
        reminders: Vec::new(),
    };
    let writes = edit_this_and_following_with_sync(&kept, &edited, 90).unwrap();
    assert!(writes.iter().any(|write| matches!(
        write,
        StoreWrite::UpdateEvent { event }
            if event.id == 1 && event.recurrence.as_ref().unwrap().rrule[0] == "RRULE:FREQ=DAILY;COUNT=2"
    )));
    assert!(writes.iter().any(|write| matches!(
        write,
        StoreWrite::InsertEvent { event }
            if event.id == 90
                && event.title == "Run"
                && event.recurrence.as_ref().unwrap().rrule[0] == "RRULE:FREQ=DAILY;COUNT=3"
    )));
    assert!(writes.iter().any(|write| matches!(
        write,
        StoreWrite::PutPending { operation: PendingSyncOperation::Create { event_id: 90, .. } }
    )));
    let weekly = RecurrenceSpec::of_rule("RRULE:FREQ=WEEKLY".to_string());
    let writes =
        edit_this_and_following_with_sync_and_recurrence(&kept, &edited, &weekly, 90).unwrap();
    assert!(writes.iter().any(|write| matches!(
        write,
        StoreWrite::InsertEvent { event }
            if event.recurrence.as_ref().unwrap().rrule[0] == "RRULE:FREQ=WEEKLY"
    )));
}

#[test]
fn events_are_replaced_deleted_and_restored_without_a_server() {
    let walk = event(1, HOME);
    assert_eq!(update_event(&walk, Some(HOME), true).unwrap().len(), 1);
    assert!(update_event(&walk, Some(REMOTE), false).is_ok());
    assert!(update_event(&walk, Some(REMOTE), true).is_err());
    assert!(update_event(&walk, None, false).is_err());
    let (writes, mut undo) = delete_event_with_undo(&walk);
    assert!(matches!(&writes[0], StoreWrite::DeleteEvent { id: 1 }));
    assert!(undo_delete_event(&undo, true).is_err());
    let back = undo_delete_event(&undo, false).unwrap();
    assert!(matches!(&back[0], StoreWrite::InsertEvent { event } if event.same(&walk)));
    undo.mark_restored();
    assert!(undo_delete_event(&undo, false).is_err());
}

#[test]
fn the_rest_of_a_series_is_deleted_and_restored() {
    let master = series(1, HOME, "RRULE:FREQ=DAILY;COUNT=5");
    let kept = record(master.clone(), home(), None);
    let (writes, mut undo) =
        delete_this_and_following_with_sync_undo(&kept, &RecurrenceId::AllDay(day(2026, 7, 22))).unwrap();
    let shortened = writes
        .iter()
        .find_map(|write| match write {
            StoreWrite::UpdateEvent { event } => Some(event.clone()),
            _ => None,
        })
        .unwrap();
    assert_eq!(shortened.recurrence.as_ref().unwrap().rrule[0], "RRULE:FREQ=DAILY;COUNT=2");
    let current = CurrentSeries {
        event: shortened,
        children: Vec::new(),
        pending: None,
        sync_state: None,
        calendar: home(),
    };
    let back = undo_this_and_following_with_sync(&undo, &current).unwrap();
    assert!(back.iter().any(|write| matches!(
        write,
        StoreWrite::UpdateEvent { event } if event.same(&master)
    )));
    let locked = CurrentSeries { calendar: read_only(home()), ..current };
    assert!(undo_this_and_following_with_sync(&undo, &locked).is_err());
    let changed = CurrentSeries { event: master.clone(), calendar: home(), ..locked };
    assert!(undo_this_and_following_with_sync(&undo, &changed).is_err());
    undo.mark_restored();
    let current = CurrentSeries { event: undo.truncated_event.clone(), ..changed };
    assert!(undo_this_and_following_with_sync(&undo, &current).is_err());
    let first = RecurrenceId::AllDay(day(2026, 7, 20));
    assert!(delete_this_and_following_with_sync_undo(&kept, &first).is_err());
}

#[test]
fn events_that_take_over_have_identifiers_of_their_own() {
    let uid = "00000000-0000-0000-0000-00000000005a";
    let mut before = sync_state(1);
    assert_eq!(distinct_remote_uid(90, &None), uid);
    before.remote_uid = uid.to_string();
    assert_eq!(distinct_remote_uid(90, &Some(before)), format!("{uid}-following"));
    let drawn = vec![(5, true), (6, false), (7, false)];
    assert_eq!(new_future_master_id(&drawn, &None), Ok(6));
    assert!(new_future_master_id(&vec![(5, true)], &None).is_err());
    let many: Vec<(u128, bool)> = (0..9).map(|id| (id, id < 8)).collect();
    assert!(new_future_master_id(&many, &None).is_err());
}

fn incoming(href: &str, fresh_id: u128, title: &str) -> IncomingResource {
    let mut mapped = event(0, REMOTE);
    mapped.title = title.to_string();
    IncomingResource {
        record: ResourceRecord {
            href: href.to_string(),
            response_status: None,
            etag: Some("\"2\"".to_string()),
            calendar_data: Some("data".to_string()),
        },
        fresh_id,
        mapped: Some(MappedResource {
            master: MappedEvent { event: mapped, remote_uid: format!("uid-{fresh_id}") },
            exceptions: Vec::new(),
        }),
    }
}

fn remote_record(states: Vec<EventSyncState>, pending: Vec<PendingSyncOperation>) -> RemoteRecord {
    RemoteRecord {
        calendar_id: REMOTE,
        calendar: Some(remote()),
        sync_state: Some(CalendarSyncState {
            calendar_id: REMOTE,
            remote_url: "https://example.org/cal/".to_string(),
            sync_token: Some("old".to_string()),
        }),
        pending,
        states,
    }
}

#[test]
fn snapshots_add_update_and_delete() {
    let known = sync_state(1);
    let gone = sync_state(2);
    let resources = vec![
        incoming(&known.remote_href, 101, "Changed"),
        incoming("https://example.org/new.ics", 102, "New"),
    ];
    let (writes, summary) =
        reconcile_remote_snapshot(&remote_record(vec![known, gone], Vec::new()), &resources).unwrap();
    assert_eq!((summary.added, summary.updated, summary.deleted, summary.skipped), (1, 1, 1, 0));
    assert!(writes.iter().any(|write| matches!(write, StoreWrite::InsertEvent { event } if event.id == 102)));
    assert!(writes.iter().any(|write| matches!(
        write,
        StoreWrite::InsertEvent { event } if event.id == 1 && event.title == "Changed"
    )));
    assert!(writes.iter().any(|write| matches!(
        write,
        StoreWrite::RemoveRemoteEvent { state } if state.event_id == 2
    )));
    let (cleared, _) = reconcile_remote_snapshot_clearing_sync_token(
        &remote_record(Vec::new(), Vec::new()),
        &Vec::new(),
    )
    .unwrap();
    assert!(cleared.iter().any(|write| matches!(
        write,
        StoreWrite::SetSyncToken { calendar_id: REMOTE, sync_token: None }
    )));
}

#[test]
fn local_changes_that_wait_are_not_overwritten() {
    let known = sync_state(1);
    let waiting = PendingSyncOperation::Update {
        calendar_id: REMOTE,
        event_id: 1,
        remote_href: known.remote_href.clone(),
        remote_uid: known.remote_uid.clone(),
        base_etag: known.etag.clone(),
    };
    let resources = vec![incoming(&known.remote_href, 101, "Theirs")];
    let (writes, summary) =
        reconcile_remote_snapshot(&remote_record(vec![known], vec![waiting]), &resources).unwrap();
    assert_eq!(summary.skipped, 1);
    assert!(!writes.iter().any(|write| matches!(write, StoreWrite::UpdateEvent { .. })));
}

#[test]
fn changes_move_the_token_on() {
    let known = sync_state(1);
    let mut removed = incoming(&known.remote_href, 101, "Gone");
    removed.record.response_status = Some(404);
    removed.mapped = None;
    let (writes, summary) = reconcile_remote_changes(
        &remote_record(vec![known], Vec::new()),
        "new",
        &vec![removed, incoming("https://example.org/new.ics", 102, "New")],
    )
    .unwrap();
    assert_eq!((summary.added, summary.deleted), (1, 1));
    assert!(writes.iter().any(|write| matches!(
        write,
        StoreWrite::SetSyncToken { sync_token: Some(token), .. } if token == "new"
    )));
    let mut unknown = remote_record(Vec::new(), Vec::new());
    unknown.sync_state = None;
    assert!(reconcile_remote_changes(&unknown, "new", &Vec::new()).is_err());
    let mut local = remote_record(Vec::new(), Vec::new());
    local.calendar = Some(home());
    assert!(reconcile_remote_changes(&local, "new", &Vec::new()).is_err());
}

#[test]
fn what_the_server_took_no_longer_waits() {
    let writes = finalize_event_upload(&sync_state(1));
    assert_eq!(writes.len(), 2);
    assert!(writes.iter().any(|write| matches!(write, StoreWrite::PutEventSync { .. })));
    assert!(writes.iter().any(|write| matches!(write, StoreWrite::DeletePending { event_id: 1 })));
    let writes = finalize_event_delete(1);
    assert!(writes.iter().any(|write| matches!(write, StoreWrite::DeletePending { event_id: 1 })));
}

#[test]
fn exceptions_are_replaced_as_a_whole() {
    let one = DetachedEvent::Cancelled { recurrence_id: RecurrenceId::AllDay(day(2026, 7, 21)) };
    let writes = replace_detached_events(true, 1, &vec![(60, one.clone())]).unwrap();
    assert!(matches!(&writes[0], StoreWrite::DeleteDetachedOf { master_id: 1 }));
    assert_eq!(writes.len(), 2);
    assert!(replace_detached_events(false, 1, &Vec::new()).is_err());
    assert!(replace_detached_events(true, 1, &vec![(60, one.clone()), (61, one)]).is_err());
}

#[test]
fn accounts_are_provisioned_with_their_calendars() {
    let account = Account {
        id: 9,
        name: "Work".to_string(),
        server_url: "https://example.org".to_string(),
        username: "me".to_string(),
        enabled: true,
    };
    let discovered = |href: &str, name: Option<&str>, writable| DiscoveredCalendar {
        href: href.to_string(),
        display_name: name.map(str::to_string),
        sync_token: Some("t".to_string()),
        color: Some("#FF0000FF".to_string()),
        writable,
    };
    let discovery = CaldavDiscovery {
        principal_url: "https://example.org/p/".to_string(),
        calendar_home_url: "https://example.org/cal/".to_string(),
        calendars: vec![
            discovered("https://example.org/cal/b/", Some("Beta"), true),
            discovered("https://example.org/cal/a/", None, false),
        ],
    };
    let slots = vec![
        Slot { existing: None, fresh_id: 200 },
        Slot { existing: Some((30, false)), fresh_id: 201 },
    ];
    let provisioning = provision_caldav_account(&account, &discovery, &slots).unwrap();
    assert_eq!(provisioning.calendars.len(), 2);
    let beta = provisioning.calendars.iter().find(|calendar| calendar.id == 200).unwrap();
    assert_eq!((beta.name.as_str(), beta.visible, beta.read_only), ("Beta", true, false));
    assert_eq!(beta.source, CalendarSource::CalDav { account_id: 9 });
    assert_eq!(beta.color.len(), 7);
    let other = provisioning.calendars.iter().find(|calendar| calendar.id == 30).unwrap();
    assert!(!other.visible && other.read_only);
    assert!(provisioning.writes.iter().any(|write| matches!(write, StoreWrite::PutAccount { .. })));
    let known: Vec<Slot> = discovery
        .calendars
        .iter()
        .map(|offered| {
            let id = provisioning.writes.iter().find_map(|write| match write {
                StoreWrite::PutCalendarSync { calendar_state } if calendar_state.remote_url == offered.href => {
                    Some(calendar_state.calendar_id)
                }
                _ => None,
            });
            let kept = provisioning.calendars.iter().find(|calendar| Some(calendar.id) == id).unwrap();
            Slot { existing: Some((kept.id, kept.visible)), fresh_id: 300 + kept.id }
        })
        .collect();
    let again = provision_caldav_account(&account, &discovery, &known).unwrap();
    let ids = |calendars: &Vec<Calendar>| -> Vec<(u128, bool)> {
        calendars.iter().map(|calendar| (calendar.id, calendar.visible)).collect()
    };
    assert_eq!(ids(&provisioning.calendars), vec![(30, false), (200, true)]);
    assert_eq!(ids(&again.calendars), ids(&provisioning.calendars));
    let elsewhere = CaldavDiscovery {
        calendars: vec![discovered("not an address", Some("x"), true)],
        ..discovery
    };
    let one = vec![Slot { existing: None, fresh_id: 1 }];
    assert!(provision_caldav_account(&account, &elsewhere, &one).is_err());
}

#[test]
fn default_calendars_are_made_once() {
    let (writes, initialized) = seed_default_calendars(false, &vec![home()], &Vec::new());
    assert_eq!(writes.len(), 1);
    assert!(initialized);
    let (writes, _) = seed_default_calendars(true, &vec![home()], &Vec::new());
    assert!(writes.is_empty());
}
