use calendar::backend::caldav::{CaldavError, ResourceRecord, ResourceWriteResult, SyncCollection};
use calendar::backend::credentials::attributes;
use calendar::backend::reconcile::RemoteSnapshotSummary;
use calendar::backend::reminders::reminder_occurrences_in_window;
use calendar::backend::store::StoreWrite;
use calendar::backend::sync::{
    calendars_of_account, changes_answered, incoming_resource, initial_pull_error,
    pull_calendar_full_snapshot, pull_calendar_snapshot, resource_url, resources_answered,
    InitialPull, InitialPullSummary, InitialPullWorkerError, PullAction, PullSyncError, Push, PushEvent,
    PushRequest, PushStage, PushSyncError,
};
use calendar::backend::RepositoryError;
use calendar::background::{
    check_reminders, enabled_accounts, reminder_notification, reminder_window_start,
    seed_startup_reminders, Delivered, SyncAction, SyncBatch, SyncEvent,
};
use calendar::date::{Date, DateTime};
use calendar::model::{
    Account, Calendar, CalendarSource, CalendarSyncState, Event, EventSchedule, PendingSyncOperation,
    RecurrenceSpec, ReminderSpec,
};
use calendar::time_format::TimeFormatPreference;

fn day(year: i32, month: u32, day: u32) -> Date {
    Date::from_ymd_opt(year, month, day).unwrap()
}

fn instant(date: Date, hour: i64, minute: i64, offset: i32) -> DateTime {
    let seconds =
        (date.days() as i64 - 719163) * 86400 + hour * 3600 + minute * 60 - offset as i64;
    DateTime::new(seconds, 0, offset).unwrap()
}

fn event(id: u128) -> Event {
    Event {
        id,
        calendar_id: 4,
        title: "Walk".to_string(),
        location: String::new(),
        description: String::new(),
        schedule: EventSchedule::Timed {
            start: instant(day(2026, 7, 20), 9, 0, 0),
            end: instant(day(2026, 7, 20), 10, 0, 0),
            timezone: None,
        },
        recurrence: None,
        reminders: Vec::new(),
    }
}

fn account(id: u128, enabled: bool) -> Account {
    Account {
        id,
        name: format!("Account {id}"),
        server_url: "https://example.org".to_string(),
        username: "me".to_string(),
        enabled,
    }
}

fn state(token: Option<&str>) -> Option<CalendarSyncState> {
    Some(CalendarSyncState {
        calendar_id: 4,
        remote_url: "https://example.org/cal/".to_string(),
        sync_token: token.map(str::to_string),
    })
}

fn create(event_id: u128) -> PendingSyncOperation {
    PendingSyncOperation::Create { calendar_id: 4, event_id, remote_uid: format!("uid-{event_id}") }
}

fn update(event_id: u128, etag: Option<&str>) -> PendingSyncOperation {
    PendingSyncOperation::Update {
        calendar_id: 4,
        event_id,
        remote_href: format!("https://example.org/cal/{event_id}.ics"),
        remote_uid: format!("uid-{event_id}"),
        base_etag: etag.map(str::to_string),
    }
}

fn delete(event_id: u128) -> PendingSyncOperation {
    PendingSyncOperation::Delete {
        calendar_id: 4,
        event_id,
        remote_href: format!("https://example.org/cal/{event_id}.ics"),
        remote_uid: format!("uid-{event_id}"),
        base_etag: Some("\"1\"".to_string()),
    }
}

#[test]
fn pulls_ask_for_changes_where_there_is_a_token() {
    assert!(matches!(
        pull_calendar_snapshot(&state(Some("t"))),
        PullAction::FetchChanges { url, sync_token } if url == "https://example.org/cal/" && sync_token == "t"
    ));
    assert!(matches!(
        pull_calendar_snapshot(&state(None)),
        PullAction::FetchResources { clearing: false, .. }
    ));
    assert!(matches!(
        pull_calendar_full_snapshot(&state(Some("t"))),
        PullAction::FetchResources { .. }
    ));
    assert!(matches!(
        pull_calendar_snapshot(&None),
        PullAction::Fail(PullSyncError::MissingCalendarSyncState)
    ));
}

#[test]
fn tokens_that_are_refused_lead_to_a_full_pull() {
    let url = "https://example.org/cal/".to_string();
    assert!(matches!(
        changes_answered(url.clone(), Err(CaldavError::HttpStatus { status: 403 })),
        PullAction::FetchResources { clearing: true, .. }
    ));
    assert!(matches!(
        changes_answered(url.clone(), Err(CaldavError::Transport)),
        PullAction::Fail(PullSyncError::Caldav(CaldavError::Transport))
    ));
    let changes = SyncCollection { sync_token: "n".to_string(), changes: Vec::new() };
    assert!(matches!(
        changes_answered(url, Ok(changes)),
        PullAction::TakeChanges { changes } if changes.sync_token == "n"
    ));
    assert!(matches!(
        resources_answered(true, Ok(Vec::new())),
        PullAction::TakeSnapshot { clearing: true, .. }
    ));
    assert!(matches!(
        resources_answered(false, Err(CaldavError::Url)),
        PullAction::Fail(PullSyncError::Caldav(CaldavError::Url))
    ));
}

#[test]
fn first_pulls_are_summed_up() {
    let pulled = RemoteSnapshotSummary { added: 2, updated: 1, deleted: 0, skipped: 3 };
    let summary = InitialPullSummary::empty().with_calendar(&pulled).with_calendar(&pulled);
    assert_eq!((summary.calendars, summary.added, summary.updated, summary.skipped), (2, 4, 2, 6));
    assert_eq!(
        initial_pull_error(PullSyncError::Caldav(CaldavError::Transport)),
        InitialPullWorkerError::Caldav
    );
    assert_eq!(
        initial_pull_error(PullSyncError::MissingCalendarSyncState),
        InitialPullWorkerError::MissingCalendarSyncState
    );
    assert_eq!(
        initial_pull_error(PullSyncError::Repository(RepositoryError)),
        InitialPullWorkerError::Repository
    );
}

#[test]
fn calendars_belong_to_their_account() {
    let calendar = |id, source| Calendar {
        id,
        name: String::new(),
        color: String::new(),
        visible: true,
        read_only: false,
        source,
    };
    let all = vec![
        calendar(1, CalendarSource::Local),
        calendar(2, CalendarSource::CalDav { account_id: 9 }),
        calendar(3, CalendarSource::CalDav { account_id: 8 }),
    ];
    let found = calendars_of_account(&all, 9);
    assert_eq!(found.len(), 1);
    assert_eq!(found[0].id, 2);
}

#[test]
fn first_pulls_take_each_calendar_until_one_fails() {
    let calendar = |id| Calendar {
        id,
        name: String::new(),
        color: String::new(),
        visible: true,
        read_only: false,
        source: CalendarSource::CalDav { account_id: 9 },
    };
    let all = vec![calendar(5), calendar(2)];
    let pulled = || Ok(RemoteSnapshotSummary { added: 1, updated: 0, deleted: 2, skipped: 0 });
    let first = InitialPull::begin(&all, 9);
    assert_eq!(first.due(), Some(5));
    let second = first.pulled(pulled());
    assert_eq!(second.due(), Some(2));
    let last = second.pulled(pulled());
    assert_eq!(last.due(), None);
    let summary = last.outcome().unwrap();
    assert_eq!((summary.calendars, summary.added, summary.deleted), (2, 2, 4));
    let failed = InitialPull::begin(&all, 9).pulled(Err(PullSyncError::MissingCalendarSyncState));
    assert_eq!(failed.due(), None);
    assert_eq!(failed.outcome(), Err(InitialPullWorkerError::MissingCalendarSyncState));
    assert_eq!(InitialPull::begin(&all, 8).due(), None);
}

#[test]
fn resources_come_with_what_was_read_of_them() {
    let record = |data: Option<&str>| ResourceRecord {
        href: "/a.ics".to_string(),
        response_status: None,
        etag: None,
        calendar_data: data.map(str::to_string),
    };
    assert!(incoming_resource(record(None), 5, 4).mapped.is_none());
    assert!(incoming_resource(record(Some("nothing")), 5, 4).mapped.is_none());
    let read = incoming_resource(
        record(Some(
            "BEGIN:VCALENDAR\r\nVERSION:2.0\r\nPRODID:x\r\nBEGIN:VEVENT\r\nUID:u\r\n\
             DTSTART:20260720T090000Z\r\nDTEND:20260720T100000Z\r\nSUMMARY:Read\r\nEND:VEVENT\r\n\
             END:VCALENDAR\r\n",
        )),
        5,
        4,
    );
    let mapped = read.mapped.unwrap();
    assert_eq!((mapped.master.event.id, mapped.master.event.title.as_str()), (5, "Read"));
    assert_eq!(mapped.master.remote_uid, "u");
}

#[test]
fn resources_are_named_after_their_event() {
    assert_eq!(
        resource_url("https://example.org/cal/", 1).unwrap(),
        "https://example.org/cal/00000000-0000-0000-0000-000000000001.ics"
    );
    assert!(resource_url("nothing", 1).is_err());
}

#[test]
fn pushes_count_every_change_once() {
    let operations = vec![create(1), update(2, Some("\"1\"")), update(3, None), delete(4), create(5)];
    let mut push = Push::begin(&state(None), operations).unwrap();
    let mut stored = 0;
    loop {
        let event = match &push.stage {
            PushStage::Load => {
                let id = match &push.operations[push.next] {
                    PendingSyncOperation::Create { event_id, .. }
                    | PendingSyncOperation::Update { event_id, .. }
                    | PendingSyncOperation::Delete { event_id, .. } => *event_id,
                };
                // One event is gone.
                PushEvent::Loaded(if id == 5 { None } else { Some(event(id)) })
            }
            PushStage::Send(PushRequest::Create { url, calendar_data }) => {
                assert!(url.ends_with("000000000001.ics"));
                assert!(calendar_data.contains("UID:uid-1"));
                PushEvent::Answered(Ok(ResourceWriteResult { etag: Some("\"9\"".to_string()) }))
            }
            PushStage::Send(PushRequest::Update { base_etag, .. }) => {
                assert_eq!(base_etag, "\"1\"");
                PushEvent::Answered(Err(CaldavError::HttpStatus { status: 412 }))
            }
            PushStage::Send(PushRequest::Delete { .. }) => {
                PushEvent::Answered(Err(CaldavError::HttpStatus { status: 404 }))
            }
            PushStage::Store(writes, _) => {
                assert!(writes.iter().any(|write| matches!(write, StoreWrite::DeletePending { .. })));
                stored += 1;
                PushEvent::Stored(true)
            }
            PushStage::Finished => break,
            PushStage::Failed(error) => panic!("{error:?}"),
        };
        push = push.step(event);
    }
    let summary = push.summary;
    assert_eq!((summary.created, summary.updated, summary.deleted), (1, 0, 1));
    assert_eq!((summary.conflicts, summary.skipped), (1, 2));
    assert_eq!(stored, 2);
}

#[test]
fn pushes_stop_at_a_failure() {
    assert!(matches!(
        Push::begin(&None, Vec::new()),
        Err(PushSyncError::MissingCalendarSyncState)
    ));
    let push = Push::begin(&state(None), vec![delete(1)]).unwrap();
    let push = push.step(PushEvent::Answered(Err(CaldavError::Transport)));
    assert!(matches!(push.stage, PushStage::Failed(PushSyncError::Caldav(CaldavError::Transport))));
    let push = Push::begin(&state(None), vec![delete(1)]).unwrap();
    let push = push.step(PushEvent::Answered(Ok(ResourceWriteResult { etag: None })));
    assert!(matches!(push.stage, PushStage::Store(..)));
    let push = push.step(PushEvent::Stored(false));
    assert!(matches!(push.stage, PushStage::Failed(PushSyncError::Repository(_))));
}

#[test]
fn credentials_are_kept_by_account() {
    let found = attributes(1);
    assert!(found.iter().any(|(_, value)| value == "00000000-0000-0000-0000-000000000001"));
}

#[test]
fn batches_go_through_the_enabled_accounts() {
    let accounts = vec![account(1, true), account(2, false), account(3, true)];
    assert_eq!(enabled_accounts(&accounts).len(), 2);
    let step = SyncBatch::new().step(SyncEvent::Requested);
    assert!(matches!(step.action, SyncAction::LoadAccounts));
    // A request that comes meanwhile is kept.
    let step = step.batch.step(SyncEvent::Requested);
    assert!(matches!(step.action, SyncAction::Nothing));
    let step = step.batch.step(SyncEvent::AccountsLoaded(Some(enabled_accounts(&accounts))));
    assert!(matches!(&step.action, SyncAction::LookUp(account) if account.id == 1));
    let step = step.batch.step(SyncEvent::PasswordLookedUp(true));
    assert!(matches!(&step.action, SyncAction::Synchronise(account) if account.id == 1));
    let step = step.batch.step(SyncEvent::Synchronised);
    assert!(matches!(&step.action, SyncAction::LookUp(account) if account.id == 3));
    let step = step.batch.step(SyncEvent::PasswordLookedUp(false));
    assert!(matches!(step.action, SyncAction::LoadAccounts));
}

fn reminded(recurrence: Option<&str>) -> Event {
    let mut event = event(1);
    event.recurrence = recurrence.map(|rule| RecurrenceSpec::of_rule(rule.to_string()));
    event.reminders = vec![
        ReminderSpec { seconds_before_start: 600, description: "Soon".to_string() },
        ReminderSpec { seconds_before_start: 3600, description: "In an hour".to_string() },
    ];
    event
}

#[test]
fn reminders_are_due_within_their_window() {
    let at = |hour, minute| instant(day(2026, 7, 20), hour, minute, 0);
    let due = reminder_occurrences_in_window(&reminded(None), &at(7, 0), &at(9, 0));
    let due: Vec<&str> = due.iter().map(|reminder| reminder.description.as_str()).collect();
    assert_eq!(due, vec!["In an hour", "Soon"]);
    // The window is open at its start and closed at its end.
    assert!(reminder_occurrences_in_window(&reminded(None), &at(8, 50), &at(9, 0)).is_empty());
    assert_eq!(reminder_occurrences_in_window(&reminded(None), &at(8, 0), &at(8, 50)).len(), 1);
    let daily = reminded(Some("RRULE:FREQ=DAILY;COUNT=3"));
    let from = instant(day(2026, 7, 21), 0, 0, 0);
    let to = instant(day(2026, 7, 23), 0, 0, 0);
    let due = reminder_occurrences_in_window(&daily, &from, &to);
    assert_eq!(due.len(), 4);
    assert!(due[0].occurrence_start.same_instant(&instant(day(2026, 7, 21), 9, 0, 0)));
}

#[test]
fn windows_that_meet_find_each_reminder_once() {
    let at = |hour, minute| instant(day(2026, 7, 20), hour, minute, 0);
    let event = reminded(None);
    let whole = reminder_occurrences_in_window(&event, &at(7, 0), &at(9, 0)).len();
    let first = reminder_occurrences_in_window(&event, &at(7, 0), &at(8, 0)).len();
    let second = reminder_occurrences_in_window(&event, &at(8, 0), &at(9, 0)).len();
    assert_eq!(whole, first + second);
}

#[test]
fn reminders_are_delivered_once() {
    let at = |hour, minute| instant(day(2026, 7, 20), hour, minute, 0);
    let events = vec![reminded(None)];
    let mut delivered = Delivered::new();
    let now = at(8, 55);
    assert!(reminder_window_start(&now).same_instant(&at(7, 55)));
    assert_eq!(check_reminders(&mut delivered, &now, &events).len(), 2);
    assert!(check_reminders(&mut delivered, &at(8, 56), &events).is_empty());
    // What was due before the start is not shown.
    let mut started = Delivered::new();
    seed_startup_reminders(&mut started, &at(8, 30), &events);
    let later = check_reminders(&mut started, &at(8, 55), &events);
    assert_eq!(later.len(), 1);
    assert_eq!(later[0].description, "Soon");
}

#[test]
fn reminders_are_told_in_one_notification() {
    let at = |hour, minute| instant(day(2026, 7, 20), hour, minute, 0);
    let mut delivered = Delivered::new();
    let shown = check_reminders(&mut delivered, &at(8, 55), &vec![reminded(None)]);
    let offsets = vec![Some(0); shown.len()];
    let told = reminder_notification(&shown, &offsets, TimeFormatPreference::TwentyFourHour, "").unwrap();
    assert!(told.0.contains('2') || told.1.contains("Walk"));
    assert!(reminder_notification(&Vec::new(), &Vec::new(), TimeFormatPreference::System, "").is_none());
}

#[test]
fn reminders_fall_their_seconds_before_the_start() {
    let mut event = event(1);
    let start = instant(day(2026, 1, 1), 10, 0, 0);
    event.schedule = EventSchedule::Timed {
        start,
        end: instant(day(2026, 1, 1), 11, 0, 0),
        timezone: None,
    };
    event.reminders =
        vec![ReminderSpec { seconds_before_start: 600, description: "r".to_string() }];
    let trigger = instant(day(2026, 1, 1), 9, 50, 0);
    let just_before = DateTime::new(trigger.timestamp() - 1, 0, 0).unwrap();
    let after = instant(day(2026, 1, 1), 9, 55, 0);
    assert!(reminder_occurrences_in_window(&event, &trigger, &after).is_empty());
    let due = reminder_occurrences_in_window(&event, &just_before, &trigger);
    assert_eq!(due.len(), 1);
    assert_eq!(due[0].event_id, 1);
    assert_eq!(due[0].occurrence_start, start);
    assert_eq!(due[0].trigger_at, trigger);
    assert_eq!(due[0].description, "r");
}
