use calendar::backend::caldav::mapping::{
    map_icalendar_event, parse_ical_duration, recurrence_spec, validate_recurrence,
};
use calendar::backend::caldav::multistatus::{
    parse_calendar_home_multistatus, parse_calendar_home_set, parse_current_user_principal,
    parse_multistatus, parse_status_code, parse_sync_collection,
};
use calendar::backend::caldav::requests;
use calendar::backend::caldav::serialize::serialize_icalendar_event;
use calendar::backend::caldav::xml::{parse_xml, NamespaceKind};
use calendar::backend::caldav::{
    CaldavError, DiscoveryWorkerError, EventMappingError, EventSerializationError,
};
use calendar::backend::ids;
use calendar::backend::urls;
use calendar::date::{Date, DateTime};
use calendar::model::{Event, EventSchedule, RecurrenceSpec, ReminderSpec};

fn day(year: i32, month: u32, day: u32) -> Date {
    Date::from_ymd_opt(year, month, day).unwrap()
}

fn instant(date: Date, hour: i64, minute: i64, offset: i32) -> DateTime {
    let seconds =
        (date.days() as i64 - 719163) * 86400 + hour * 3600 + minute * 60 - offset as i64;
    DateTime::new(seconds, 0, offset).unwrap()
}

fn event(schedule: EventSchedule) -> Event {
    Event {
        id: 21,
        calendar_id: 4,
        title: "Lunch, with friends; maybe".to_string(),
        location: "Café \"Süd\"".to_string(),
        description: "First line\nSecond line".to_string(),
        schedule,
        recurrence: None,
        reminders: Vec::new(),
    }
}

fn calendar_text(lines: &[&str]) -> String {
    let mut out = String::from("BEGIN:VCALENDAR\r\nVERSION:2.0\r\nPRODID:-//x//y//EN\r\n");
    for line in lines {
        out.push_str(line);
        out.push_str("\r\n");
    }
    out.push_str("END:VCALENDAR\r\n");
    out
}

const MULTISTATUS: &str = "<?xml version=\"1.0\"?>\
<d:multistatus xmlns:d=\"DAV:\" xmlns:c=\"urn:ietf:params:xml:ns:caldav\">\
<d:response><d:href> /cal/one.ics </d:href><d:propstat><d:prop>\
<d:getetag>&quot;1&quot;</d:getetag><c:calendar-data><![CDATA[BEGIN:VCALENDAR]]></c:calendar-data>\
</d:prop><d:status>HTTP/1.1 200 OK</d:status></d:propstat>\
<d:propstat><d:prop><d:getetag>lost</d:getetag></d:prop>\
<d:status>HTTP/1.1 404 Not Found</d:status></d:propstat></d:response>\
<d:response><d:href>/cal/two.ics</d:href><d:status>HTTP/1.1 404 Not Found</d:status></d:response>";

#[test]
fn resources_are_read_from_a_multistatus() {
    let document = format!("{MULTISTATUS}</d:multistatus>");
    let records = parse_multistatus(&document).unwrap();
    assert_eq!(records.len(), 2);
    assert_eq!(records[0].href, " /cal/one.ics ");
    assert_eq!(records[0].response_status, None);
    assert_eq!(records[0].etag.as_deref(), Some("\"1\""));
    assert_eq!(records[0].calendar_data.as_deref(), Some("BEGIN:VCALENDAR"));
    assert_eq!(records[1].href, "/cal/two.ics");
    assert_eq!(records[1].response_status, Some(404));
    assert!(records[1].etag.is_none());
}

#[test]
fn changes_come_with_exactly_one_token() {
    let one = format!("{MULTISTATUS}<d:sync-token>t1</d:sync-token></d:multistatus>");
    let collection = parse_sync_collection(&one).unwrap();
    assert_eq!(collection.sync_token, "t1");
    assert_eq!(collection.changes.len(), 2);
    let none = format!("{MULTISTATUS}</d:multistatus>");
    assert_eq!(
        parse_sync_collection(&none).unwrap_err().message(),
        "invalid CalDAV multistatus XML: missing root DAV:sync-token"
    );
    let two = format!(
        "{MULTISTATUS}<d:sync-token>a</d:sync-token><d:sync-token>b</d:sync-token></d:multistatus>"
    );
    assert!(parse_sync_collection(&two).unwrap_err().message().contains("multiple root"));
    let empty = format!("{MULTISTATUS}<d:sync-token> </d:sync-token></d:multistatus>");
    assert!(parse_sync_collection(&empty).unwrap_err().message().contains("empty root"));
}

#[test]
fn documents_that_are_no_multistatus_are_refused() {
    assert!(parse_multistatus("<a/>").is_err());
    assert!(parse_multistatus("<d:multistatus xmlns:d=\"DAV:\">").is_err());
    assert!(parse_multistatus("").is_err());
    assert!(parse_multistatus("<a></b>").is_err());
}

#[test]
fn xml_is_read_into_a_tree() {
    let root = parse_xml(
        "<x:root xmlns:x=\"DAV:\" xmlns:y=\"http://apple.com/ns/ical/\" k=\"a &amp; b\">\
         one &lt; <y:inner>two</y:inner><x:empty/></x:root>",
    )
    .unwrap();
    assert_eq!(root.namespace, NamespaceKind::Dav);
    assert_eq!(root.local_name, "root");
    assert_eq!(root.attribute("k").map(String::as_str), Some("a & b"));
    assert!(root.text_value().starts_with("one <"));
    assert_eq!(root.children.len(), 2);
    let inner = root.child(NamespaceKind::AppleIcal, "inner").unwrap();
    assert_eq!(inner.text_value(), "two");
    assert!(root.children[1].is_named(NamespaceKind::Dav, "empty"));
    assert!(root.child(NamespaceKind::Caldav, "inner").is_none());
}

#[test]
fn status_lines_hold_codes() {
    assert_eq!(parse_status_code("HTTP/1.1 207 Multi-Status"), Some(207));
    assert_eq!(parse_status_code("HTTP/1.1"), None);
    assert_eq!(parse_status_code("HTTP/1.1 abc"), None);
}

#[test]
fn discovery_follows_the_principal_and_the_home() {
    let principal = "<d:multistatus xmlns:d=\"DAV:\"><d:response><d:href>/</d:href><d:propstat><d:prop>\
        <d:current-user-principal><d:href>/principals/me/</d:href></d:current-user-principal>\
        </d:prop><d:status>HTTP/1.1 200 OK</d:status></d:propstat></d:response></d:multistatus>";
    assert_eq!(parse_current_user_principal(principal).unwrap(), "/principals/me/");
    assert_eq!(
        requests::principal_from_response("https://example.org/dav/", principal).unwrap(),
        "https://example.org/principals/me/"
    );
    assert!(parse_calendar_home_set(principal).is_err());
    let home = "<d:multistatus xmlns:d=\"DAV:\" xmlns:c=\"urn:ietf:params:xml:ns:caldav\"><d:response>\
        <d:href>/principals/me/</d:href><d:propstat><d:prop><c:calendar-home-set><d:href>/cal/</d:href>\
        </c:calendar-home-set></d:prop><d:status>HTTP/1.1 200 OK</d:status></d:propstat></d:response>\
        </d:multistatus>";
    assert_eq!(parse_calendar_home_set(home).unwrap(), "/cal/");
    assert_eq!(
        requests::calendar_home_from_response("https://example.org/principals/me/", home).unwrap(),
        "https://example.org/cal/"
    );
}

#[test]
fn calendars_are_discovered_with_their_properties() {
    let list = "<d:multistatus xmlns:d=\"DAV:\" xmlns:c=\"urn:ietf:params:xml:ns:caldav\" \
        xmlns:a=\"http://apple.com/ns/ical/\">\
        <d:response><d:href>/cal/work/</d:href><d:propstat><d:prop>\
        <d:resourcetype><d:collection/><c:calendar/></d:resourcetype><d:displayname>Work</d:displayname>\
        <d:sync-token>t7</d:sync-token><a:calendar-color>#FF0000FF</a:calendar-color>\
        <d:current-user-privilege-set><d:privilege><d:write/></d:privilege></d:current-user-privilege-set>\
        <c:supported-calendar-component-set><c:comp name=\"VEVENT\"/></c:supported-calendar-component-set>\
        </d:prop><d:status>HTTP/1.1 200 OK</d:status></d:propstat></d:response>\
        <d:response><d:href>/cal/tasks/</d:href><d:propstat><d:prop>\
        <d:resourcetype><c:calendar/></d:resourcetype>\
        <c:supported-calendar-component-set><c:comp name=\"VTODO\"/></c:supported-calendar-component-set>\
        </d:prop><d:status>HTTP/1.1 200 OK</d:status></d:propstat></d:response>\
        <d:response><d:href>/cal/</d:href><d:propstat><d:prop><d:resourcetype><d:collection/></d:resourcetype>\
        </d:prop><d:status>HTTP/1.1 200 OK</d:status></d:propstat></d:response></d:multistatus>";
    let calendars = parse_calendar_home_multistatus(list).unwrap();
    assert_eq!(calendars.len(), 1);
    assert_eq!(calendars[0].href, "/cal/work/");
    assert_eq!(calendars[0].display_name.as_deref(), Some("Work"));
    assert_eq!(calendars[0].sync_token.as_deref(), Some("t7"));
    assert_eq!(calendars[0].color.as_deref(), Some("#FF0000FF"));
    assert!(calendars[0].writable);
    let discovery = requests::discovery_from_response(
        "https://example.org/principals/me/",
        "https://example.org/cal/",
        list,
    )
    .unwrap();
    assert_eq!(discovery.calendars[0].href, "https://example.org/cal/work/");
    assert_eq!(discovery.calendar_home_url, "https://example.org/cal/");
}

#[test]
fn answers_of_servers_are_told_apart() {
    assert_eq!(
        requests::response_status(204, Some("\"e\"".to_string())).unwrap().etag.as_deref(),
        Some("\"e\"")
    );
    assert!(matches!(
        requests::response_status(412, None),
        Err(CaldavError::HttpStatus { status: 412 })
    ));
    assert_eq!(requests::response_body(207, Some("x".to_string())).unwrap(), "x");
    assert!(matches!(requests::response_body(207, None), Err(CaldavError::Transport)));
    assert!(matches!(
        requests::response_body(500, Some("x".to_string())),
        Err(CaldavError::HttpStatus { status: 500 })
    ));
    assert_eq!(
        DiscoveryWorkerError::from_caldav(&CaldavError::Transport),
        DiscoveryWorkerError::Http
    );
}

#[test]
fn requests_for_changes_hold_their_token() {
    let request = requests::sync_collection_request("a<b&c").unwrap();
    let root = parse_xml(&request).unwrap();
    assert!(root.is_named(NamespaceKind::Dav, "sync-collection"));
    assert_eq!(root.child(NamespaceKind::Dav, "sync-token").unwrap().text_value(), "a<b&c");
    assert_eq!(root.child(NamespaceKind::Dav, "sync-level").unwrap().text_value(), "1");
    assert!(root.child(NamespaceKind::Dav, "prop").is_some());
    assert!(requests::prepare_changes_request("ftp://example.org/", "t").is_err());
    assert!(requests::prepare_changes_request("https://example.org/", "t").is_ok());
    assert!(matches!(
        requests::prepare_changes_request("https://example.org/", " "),
        Err(CaldavError::InvalidSyncToken)
    ));
}

#[test]
fn addresses_are_those_of_http() {
    assert!(urls::is_http_url("https://example.org/dav"));
    assert!(urls::is_http_url("http://localhost:8080"));
    assert!(!urls::is_http_url("ftp://example.org/"));
    assert!(!urls::is_http_url("example.org"));
    assert!(!urls::is_http_url("mailto:me@example.org"));
    assert!(urls::is_url("mailto:me@example.org"));
    assert_eq!(
        urls::resolve_href("https://example.org/a/b", "../c").as_deref(),
        Some("https://example.org/c")
    );
    assert_eq!(urls::resolve_href("nothing", "c"), None);
}

#[test]
fn identifiers_are_random() {
    let first = ids::new_id();
    let second = ids::new_id();
    assert_ne!(first, second);
    assert_eq!(first >> 76 & 0xf, 4);
    assert_eq!(first >> 62 & 0x3, 2);
}

#[test]
fn durations_are_read_in_seconds() {
    assert_eq!(parse_ical_duration("-PT15M"), Some(-900));
    assert_eq!(parse_ical_duration("P1DT2H3M4S"), Some(93784));
    assert_eq!(parse_ical_duration("+P2W"), Some(1209600));
    assert_eq!(parse_ical_duration("P"), None);
    assert_eq!(parse_ical_duration("PT0S"), None);
    assert_eq!(parse_ical_duration("P1WT1H"), None);
    assert_eq!(parse_ical_duration("P1H"), None);
    assert_eq!(parse_ical_duration("PT5"), None);
    assert_eq!(parse_ical_duration(""), None);
    assert_eq!(parse_ical_duration("PT9223372036854775808S"), None);
}

#[test]
fn written_events_are_read_back() {
    let berlin = event(EventSchedule::Timed {
        start: instant(day(2026, 7, 20), 12, 0, 7200),
        end: instant(day(2026, 7, 20), 13, 30, 7200),
        timezone: Some("Europe/Berlin".to_string()),
    });
    let utc = event(EventSchedule::Timed {
        start: instant(day(2026, 7, 20), 12, 0, 0),
        end: instant(day(2026, 7, 21), 13, 30, 0),
        timezone: None,
    });
    let mut days = event(EventSchedule::AllDay {
        start_date: day(2026, 7, 20),
        end_date_exclusive: day(2026, 7, 23),
    });
    days.recurrence = Some(RecurrenceSpec {
        rrule: vec!["RRULE:FREQ=DAILY;COUNT=9".to_string()],
        rdate: Vec::new(),
        exdate: vec!["EXDATE;VALUE=DATE:20260722".to_string()],
    });
    days.reminders = vec![ReminderSpec {
        seconds_before_start: 900,
        description: "Soon".to_string(),
    }];
    for written in [berlin, utc, days] {
        let resource = serialize_icalendar_event(&written, "uid-1").unwrap();
        let read = map_icalendar_event(&resource, 21, 4).unwrap();
        assert_eq!(read.remote_uid, "uid-1");
        assert!(read.event.same(&written), "{:?} became {:?}", written, read.event);
    }
}

#[test]
fn plain_texts_of_every_length_are_read_back() {
    let every: Vec<char> = (b' '..=b'~').map(char::from).chain(['\n']).collect();
    let days = EventSchedule::AllDay {
        start_date: day(2026, 7, 20),
        end_date_exclusive: day(2026, 7, 22),
    };
    for length in 0..260usize {
        let value = |from: usize| -> String {
            (0..length).map(|k| every[(from + 7 * k + length) % every.len()]).collect()
        };
        let mut written = event(days.clone());
        written.title = value(1);
        written.location = " ".repeat(length);
        written.description = value(29);
        written.reminders = vec![
            ReminderSpec { seconds_before_start: 1 + length as i64, description: value(53) },
            ReminderSpec { seconds_before_start: 9223372036854775, description: String::new() },
        ];
        let uid = format!("u{}", "x;,\\: ".repeat(length));
        let resource = serialize_icalendar_event(&written, &uid).unwrap();
        let read = map_icalendar_event(&resource, 21, 4).unwrap();
        assert_eq!(read.remote_uid, uid);
        assert!(read.event.same(&written), "{:?} became {:?}", written, read.event);
    }
}

#[test]
fn plain_dates_are_read_back() {
    let first = day(0, 1, 1);
    let last = day(9999, 12, 31);
    let mut schedules = vec![EventSchedule::AllDay { start_date: first, end_date_exclusive: last }];
    for date in [first, day(999, 12, 31), day(1970, 1, 1), day(2026, 7, 20), last] {
        schedules.push(EventSchedule::Timed {
            start: instant(date, 0, 0, 0),
            end: instant(date, 23, 59, 0),
            timezone: None,
        });
    }
    for (zone, offset) in [
        ("America/Argentina/Buenos_Aires", -10800),
        ("Etc/GMT+5", -18000),
        ("Europe/Berlin", 7200),
        ("Asia/Kathmandu", 20700),
    ] {
        schedules.push(EventSchedule::Timed {
            start: instant(day(2026, 7, 20), 22, 30, offset),
            end: instant(day(2026, 7, 21), 1, 15, offset),
            timezone: Some(zone.to_string()),
        });
    }
    for schedule in schedules {
        let written = event(schedule);
        let resource = serialize_icalendar_event(&written, "uid-1").unwrap();
        let read = map_icalendar_event(&resource, 21, 4).unwrap();
        assert!(read.event.same(&written), "{:?} became {:?}", written, read.event);
    }
}

#[test]
fn plain_rules_are_read_back() {
    let berlin = EventSchedule::Timed {
        start: instant(day(2026, 1, 2), 9, 0, 3600),
        end: instant(day(2026, 1, 2), 10, 0, 3600),
        timezone: Some("Europe/Berlin".to_string()),
    };
    for rule in [
        "RRULE:FREQ=DAILY",
        "RRULE:FREQ=WEEKLY;INTERVAL=2;BYDAY=MO,TU,WE,TH,FR;COUNT=10",
        "RRULE:FREQ=YEARLY;BYMONTH=1,2,3,4,5,6,7,8,9,10,11;BYMONTHDAY=1,2,3,4,5,6,7,8,9,10,11,12,13;\
COUNT=40;WKST=MO",
    ] {
        let mut written = event(berlin.clone());
        written.recurrence = Some(RecurrenceSpec::of_rule(rule.to_string()));
        let resource = serialize_icalendar_event(&written, "uid-1").unwrap();
        let read = map_icalendar_event(&resource, 21, 4).unwrap();
        assert!(read.event.same(&written), "{:?} became {:?}", written, read.event);
    }
}

#[test]
fn instants_are_written_to_the_second() {
    let at = |nanos| EventSchedule::Timed {
        start: DateTime::new(1767225599, nanos, 0).unwrap(),
        end: DateTime::new(1767229200, 0, 0).unwrap(),
        timezone: None,
    };
    let whole = serialize_icalendar_event(&event(at(0)), "u").unwrap();
    let part = serialize_icalendar_event(&event(at(5)), "u").unwrap();
    let leap = serialize_icalendar_event(&event(at(1000000000)), "u").unwrap();
    assert!(whole.contains("\r\nDTSTART:20251231T235959Z\r\n"));
    assert!(part.contains("\r\nDTSTART:20251231T235959Z\r\n"));
    assert!(leap.contains("\r\nDTSTART:20251231T235960Z\r\n"));
    let days = EventSchedule::AllDay {
        start_date: day(2026, 1, 2),
        end_date_exclusive: day(2026, 1, 3),
    };
    let days = serialize_icalendar_event(&event(days), "u").unwrap();
    assert!(days.contains("\r\nDTSTART;VALUE=DATE:20260102\r\n"));
    let berlin = EventSchedule::Timed {
        start: instant(day(2026, 1, 2), 9, 0, 3600),
        end: instant(day(2026, 1, 2), 10, 0, 3600),
        timezone: Some("Europe/Berlin".to_string()),
    };
    let berlin = serialize_icalendar_event(&event(berlin), "u").unwrap();
    assert!(berlin.contains("\r\nDTEND;TZID=Europe/Berlin:20260102T100000\r\n"));
}

#[test]
fn names_of_tags_need_not_be_ascii() {
    let root = parse_xml("<é ä=\"x\" b='y'>z</é>").unwrap();
    assert_eq!(root.local_name, "é");
    let attributes = vec![("ä".to_string(), "x".to_string()), ("b".to_string(), "y".to_string())];
    assert_eq!(root.attributes, attributes);
}

#[test]
fn events_that_cannot_be_written_are_refused() {
    let days = |start, end| {
        event(EventSchedule::AllDay { start_date: start, end_date_exclusive: end })
    };
    let proper = days(day(2026, 7, 20), day(2026, 7, 21));
    assert_eq!(
        serialize_icalendar_event(&proper, "").unwrap_err(),
        EventSerializationError::EmptyUid
    );
    let backward = days(day(2026, 7, 20), day(2026, 7, 20));
    assert_eq!(
        serialize_icalendar_event(&backward, "u").unwrap_err(),
        EventSerializationError::InvalidSchedule
    );
    let mut odd = proper.clone();
    odd.recurrence = Some(RecurrenceSpec::of_rule("RRULE:FREQ=SOMETIMES".to_string()));
    assert_eq!(
        serialize_icalendar_event(&odd, "u").unwrap_err(),
        EventSerializationError::UnsupportedRecurrence
    );
    let mut late = proper;
    late.reminders.push(ReminderSpec { seconds_before_start: 0, description: "x".to_string() });
    assert_eq!(
        serialize_icalendar_event(&late, "u").unwrap_err(),
        EventSerializationError::UnsupportedReminders
    );
}

#[test]
fn resources_are_read_as_events() {
    let resource = calendar_text(&[
        "BEGIN:VEVENT",
        "UID:abc",
        "DTSTAMP:20260101T000000Z",
        "DTSTART;TZID=Europe/Berlin:20260720T090000",
        "DTEND;TZID=Europe/Berlin:20260720T100000",
        "SUMMARY:Planning",
        "RRULE:FREQ=WEEKLY;COUNT=3",
        "BEGIN:VALARM",
        "ACTION:DISPLAY",
        "TRIGGER:-PT10M",
        "DESCRIPTION:Go",
        "END:VALARM",
        "END:VEVENT",
    ]);
    let read = map_icalendar_event(&resource, 5, 6).unwrap();
    assert_eq!(read.remote_uid, "abc");
    assert_eq!((read.event.id, read.event.calendar_id), (5, 6));
    assert_eq!(read.event.title, "Planning");
    assert_eq!(read.event.recurrence.as_ref().unwrap().rrule, vec!["RRULE:FREQ=WEEKLY;COUNT=3"]);
    assert_eq!(read.event.reminders.len(), 1);
    assert_eq!(read.event.reminders[0].seconds_before_start, 600);
    match &read.event.schedule {
        EventSchedule::Timed { start, timezone, .. } => {
            assert!(start.same_instant(&instant(day(2026, 7, 20), 9, 0, 7200)));
            assert_eq!(timezone.as_deref(), Some("Europe/Berlin"));
        }
        EventSchedule::AllDay { .. } => panic!("the event has a start"),
    }
}

#[test]
fn long_lines_that_are_no_properties_are_refused() {
    let resource = format!("BEGIN:VCALENDAR\n{}!", "A".repeat(65536));
    assert!(matches!(map_icalendar_event(&resource, 5, 6), Err(EventMappingError::Parse(_))));
}

#[test]
fn resources_that_are_no_events_are_refused() {
    let refusal = |lines: &[&str]| map_icalendar_event(&calendar_text(lines), 1, 2).unwrap_err();
    assert!(matches!(refusal(&[]), EventMappingError::NoEvents));
    let plain = ["BEGIN:VEVENT", "UID:a", "DTSTART:20260720T090000Z", "DTEND:20260720T100000Z", "END:VEVENT"];
    let twice: Vec<&str> = plain.iter().chain(plain.iter()).copied().collect();
    assert!(matches!(refusal(&twice), EventMappingError::MultipleEvents));
    assert!(matches!(
        refusal(&["BEGIN:VEVENT", "DTSTART:20260720T090000Z", "END:VEVENT"]),
        EventMappingError::MissingUid
    ));
    assert!(matches!(
        refusal(&["BEGIN:VEVENT", "UID:a", "END:VEVENT"]),
        EventMappingError::MissingDtstart
    ));
    assert!(matches!(
        refusal(&["BEGIN:VEVENT", "UID:a", "DTSTART:20260720T090000", "DTEND:20260720T100000", "END:VEVENT"]),
        EventMappingError::FloatingTime
    ));
    assert!(matches!(
        refusal(&[
            "BEGIN:VEVENT",
            "UID:a",
            "DTSTART:20260720T090000Z",
            "DTEND:20260720T100000Z",
            "RRULE:FREQ=SOMETIMES",
            "END:VEVENT"
        ]),
        EventMappingError::UnsupportedRecurrence | EventMappingError::UnsupportedData(_)
    ));
    assert!(matches!(
        refusal(&[
            "BEGIN:VEVENT",
            "UID:a",
            "DTSTART;TZID=Nowhere:20260720T090000",
            "DTEND;TZID=Nowhere:20260720T100000",
            "END:VEVENT"
        ]),
        EventMappingError::UnsupportedData(_)
    ));
    assert!(matches!(
        map_icalendar_event("nothing", 1, 2).unwrap_err(),
        EventMappingError::Parse(_)
    ));
}

#[test]
fn alarms_that_are_not_understood_are_refused() {
    let with_alarm = |lines: &[&str]| {
        let mut all = vec![
            "BEGIN:VEVENT",
            "UID:a",
            "DTSTART:20260720T090000Z",
            "DTEND:20260720T100000Z",
            "BEGIN:VALARM",
        ];
        all.extend_from_slice(lines);
        all.extend_from_slice(&["END:VALARM", "END:VEVENT"]);
        match map_icalendar_event(&calendar_text(&all), 1, 2) {
            Err(EventMappingError::UnsupportedData(message)) => message,
            other => panic!("{other:?}"),
        }
    };
    assert_eq!(
        with_alarm(&["ACTION:EMAIL", "TRIGGER:-PT5M", "DESCRIPTION:x"]),
        "VALARM action is unsupported"
    );
    assert_eq!(with_alarm(&["ACTION:DISPLAY", "DESCRIPTION:x"]), "VALARM has no TRIGGER");
    assert_eq!(
        with_alarm(&["ACTION:DISPLAY", "TRIGGER;RELATED=END:-PT5M", "DESCRIPTION:x"]),
        "VALARM trigger must be related to START"
    );
    assert_eq!(
        with_alarm(&["ACTION:DISPLAY", "TRIGGER;VALUE=DATE-TIME:20260720T080000Z", "DESCRIPTION:x"]),
        "absolute VALARM triggers are unsupported"
    );
    assert_eq!(
        with_alarm(&["ACTION:DISPLAY", "TRIGGER:PT5M", "DESCRIPTION:x"]),
        "VALARM trigger must be a negative whole-second duration"
    );
    assert_eq!(
        with_alarm(&["ACTION:DISPLAY", "TRIGGER:-PT5M", "REPEAT:2", "DESCRIPTION:x"]),
        "repeating VALARMs are unsupported"
    );
    assert_eq!(
        with_alarm(&["ACTION:DISPLAY", "TRIGGER:-PT5M"]),
        "DISPLAY VALARM has no DESCRIPTION"
    );
}

#[test]
fn recurrences_are_read_from_the_lines_of_events() {
    let whole = EventSchedule::AllDay {
        start_date: day(2026, 7, 20),
        end_date_exclusive: day(2026, 7, 21),
    };
    let read = |lines: &str| {
        recurrence_spec(&format!("BEGIN:VEVENT\n{lines}\nEND:VEVENT\nRRULE:FREQ=DAILY"), &whole)
    };
    assert!(matches!(read("SUMMARY:Walk"), Ok(None)));
    let weekly = read("rrule:FREQ=WEEKLY;COUNT=3\r").unwrap().unwrap();
    assert_eq!(weekly.rrule, vec!["rrule:FREQ=WEEKLY;COUNT=3"]);
    assert!(validate_recurrence(&whole, &weekly).is_none());
    assert!(matches!(
        read("RRULE:FREQ=DAILY\nRRULE:FREQ=WEEKLY"),
        Err(EventMappingError::UnsupportedRecurrence)
    ));
    assert!(matches!(
        read("RDATE;VALUE=PERIOD:20260720T000000Z/PT1H"),
        Err(EventMappingError::UnsupportedRecurrence)
    ));
    let odd = RecurrenceSpec::of_rule("RRULE:FREQ=SOMETIMES".to_string());
    assert_eq!(validate_recurrence(&whole, &odd), Some("invalid recurrence properties"));
    let nowhere = EventSchedule::Timed {
        start: DateTime::new(0, 0, 0).unwrap(),
        end: DateTime::new(60, 0, 0).unwrap(),
        timezone: Some("Nowhere/Land".to_string()),
    };
    assert_eq!(validate_recurrence(&nowhere, &weekly), Some("unknown event timezone"));
}
