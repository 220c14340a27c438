use calendar::calendar_grid::month_grid;
use calendar::date::{Date, DateTime, Span, Time};
use calendar::formats;
use calendar::preferences;
use calendar::text;
use calendar::time_format::{format_time, TimeFormatPreference};
use calendar::view_state::{shift_month, ViewKind, ViewState};
use calendar::viewer_time::{now_local_fixed, to_local_fixed};
use calendar::weeks_buffer::{WeeksBuffer, TOTAL_ROWS, VISIBLE_START};
use calendar::zone;

fn day(year: i32, month: u32, day: u32) -> Date {
    Date::from_ymd_opt(year, month, day).unwrap()
}

/// The instant at which clocks ahead of UTC by `offset` show a date and time.
fn instant(date: Date, hour: i64, minute: i64, offset: i32) -> DateTime {
    let seconds =
        (date.days() as i64 - 719163) * 86400 + hour * 3600 + minute * 60 - offset as i64;
    DateTime::new(seconds, 0, offset).unwrap()
}

#[test]
fn dates_are_those_of_the_calendar() {
    assert_eq!(day(1970, 1, 1).days(), 719163);
    assert_eq!(day(1, 1, 1).days(), 1);
    assert!(Date::from_ymd_opt(2024, 2, 29).is_some());
    assert!(Date::from_ymd_opt(2023, 2, 29).is_none());
    assert!(Date::from_ymd_opt(1900, 2, 29).is_none());
    assert!(Date::from_ymd_opt(2000, 2, 29).is_some());
    assert!(Date::from_ymd_opt(2024, 13, 1).is_none());
    assert!(Date::from_ymd_opt(2024, 0, 1).is_none());
    assert!(Date::from_ymd_opt(2024, 4, 31).is_none());
    assert_eq!(day(2026, 7, 20).ymd(), (2026, 7, 20));
    assert_eq!(day(-4, 2, 29).ymd(), (-4, 2, 29));
    assert_eq!(day(2026, 7, 20).days_from_monday(), 0);
    assert_eq!(day(2026, 7, 19).days_from_monday(), 6);
}

#[test]
fn days_end_at_the_edges_of_the_calendar() {
    let last = day(262142, 12, 31);
    assert!(last.succ_opt().is_none());
    assert!(Date::from_ymd_opt(262143, 1, 1).is_none());
    let first = day(-262143, 1, 1);
    assert!(first.plus_days(-1).is_none());
    assert!(Date::from_ymd_opt(-262144, 12, 31).is_none());
    assert_eq!(day(2024, 2, 28).plus_days(2), Some(day(2024, 3, 1)));
    assert_eq!(day(2024, 2, 28).plus_days(i64::MAX), None);
}

#[test]
fn instants_have_local_dates_and_times() {
    let noon = instant(day(2026, 7, 20), 12, 0, 0);
    assert_eq!(noon.timestamp(), 1784548800);
    let shown = noon.with_offset(-12 * 3600 - 1);
    assert_eq!(shown.local_date(), day(2026, 7, 19));
    assert_eq!(shown.local_time().hour(), 23);
    assert_eq!(shown.local_time().minute(), 59);
    assert!(shown.same_instant(&noon));
    assert!(!shown.before(&noon));
    assert!(DateTime::new(0, 0, 86400).is_none());
    assert!(DateTime::new(0, 2_000_000_000, 0).is_none());
    assert!(DateTime::new(i64::MAX, 0, 0).is_none());
    // A leap second stands in the last second of a minute only.
    assert!(DateTime::new(59, 1_500_000_000, 0).is_some());
    assert!(DateTime::new(58, 1_500_000_000, 0).is_none());
}

#[test]
fn spans_lead_from_instant_to_instant() {
    let start = DateTime::new(100, 900_000_000, 3600).unwrap();
    let end = start.plus(Span { seconds: 1, nanos: 200_000_000 }).unwrap();
    assert_eq!((end.timestamp(), end.subsec_nanos(), end.offset()), (102, 100_000_000, 3600));
    assert_eq!(end.since(&start), Span { seconds: 1, nanos: 200_000_000 });
    assert_eq!(start.since(&end), Span { seconds: -2, nanos: 800_000_000 });
    let far = Span { seconds: 99_000_000_000_000, nanos: 0 };
    assert!(start.plus(far).is_none());
}

#[test]
fn times_are_those_of_a_clock() {
    let time = Time::from_hms_opt(13, 5, 59).unwrap();
    assert_eq!((time.hour(), time.minute(), time.seconds), (13, 5, 47159));
    assert!(Time::from_hms_opt(24, 0, 0).is_none());
    assert!(Time::from_hms_opt(0, 60, 0).is_none());
    assert!(Time::from_hms_opt(0, 0, 60).is_none());
}

#[test]
fn month_grid_begins_on_a_monday_and_covers_the_month() {
    let grid = month_grid(2026, 7);
    assert_eq!((grid[0].year, grid[0].month, grid[0].day), (2026, 6, 29));
    assert!(!grid[0].in_displayed_month);
    assert_eq!((grid[2].month, grid[2].day), (7, 1));
    assert!(grid[2].in_displayed_month);
    assert_eq!((grid[41].month, grid[41].day), (8, 9));
    let shown = grid.iter().filter(|cell| cell.in_displayed_month).count();
    assert_eq!(shown, 31);
    let grid = month_grid(2024, 12);
    assert_eq!((grid[41].year, grid[41].month, grid[41].day), (2025, 1, 5));
    let grid = month_grid(2024, 1);
    assert_eq!((grid[0].year, grid[0].month, grid[0].day), (2024, 1, 1));
}

#[test]
fn zones_show_instants_by_their_clocks() {
    assert!(zone::is_known("Europe/Berlin"));
    assert!(!zone::is_known("Europe/Nowhere"));
    let noon = instant(day(2026, 7, 20), 12, 0, 0);
    let shown = zone::in_zone(&noon, "Europe/Berlin").unwrap();
    assert_eq!(shown.offset(), 7200);
    assert!(shown.same_instant(&noon));
    let winter = zone::in_zone(&instant(day(2026, 1, 20), 12, 0, 0), "Europe/Berlin").unwrap();
    assert_eq!(winter.offset(), 3600);
    assert!(zone::in_zone(&noon, "Europe/Nowhere").is_none());
}

#[test]
fn zones_have_times_twice_and_never() {
    let half_past_two = Time::from_hms_opt(2, 30, 0).unwrap();
    let plain = zone::instant_in_zone("Europe/Berlin", &day(2026, 7, 20), half_past_two).unwrap();
    assert_eq!((plain.offset(), plain.local_time()), (7200, half_past_two));
    // Clocks are put forward, then back.
    assert!(zone::instant_in_zone("Europe/Berlin", &day(2026, 3, 29), half_past_two).is_none());
    assert!(zone::instant_in_zone("Europe/Berlin", &day(2026, 10, 25), half_past_two).is_none());
    assert!(zone::instant_in_zone("Nowhere", &day(2026, 7, 20), half_past_two).is_none());
}

#[test]
fn dates_and_instants_as_text() {
    let date = day(2026, 7, 5);
    assert_eq!(formats::compact_date_text(&date), "20260705");
    assert_eq!(formats::iso_date_text(&date), "2026-07-05");
    assert_eq!(formats::parse_compact_date("20260705"), Some(date));
    assert_eq!(formats::parse_compact_date("2026-07-05"), None);
    assert_eq!(formats::parse_compact_date("20260732"), None);
    let shown = instant(date, 14, 30, 7200);
    assert_eq!(formats::rfc3339_text(&shown), "2026-07-05T14:30:00+02:00");
    assert_eq!(formats::compact_local_text(&shown), "20260705T143000");
    assert_eq!(formats::compact_utc_text(&shown), "20260705T123000Z");
    let time = Time::from_hms_opt(9, 8, 7).unwrap();
    assert_eq!(formats::compact_date_time_text(&date, &time), "20260705T090807");
}

#[test]
fn times_with_twelve_and_with_twenty_four_hours() {
    let morning = Time::from_hms_opt(9, 5, 0).unwrap();
    let noon = Time::from_hms_opt(12, 0, 0).unwrap();
    let midnight = Time::from_hms_opt(0, 30, 0).unwrap();
    assert_eq!(format_time(&morning, TimeFormatPreference::TwelveHour, "24h"), "9:05 AM");
    assert_eq!(format_time(&noon, TimeFormatPreference::TwelveHour, "24h"), "12:00 PM");
    assert_eq!(format_time(&midnight, TimeFormatPreference::TwelveHour, ""), "12:30 AM");
    assert_eq!(format_time(&morning, TimeFormatPreference::TwentyFourHour, "12h"), "09:05");
    assert_eq!(format_time(&morning, TimeFormatPreference::System, "12h"), "9:05 AM");
    assert_eq!(format_time(&morning, TimeFormatPreference::System, "24h"), "09:05");
}

#[test]
fn saved_preference_is_loaded() {
    for preference in [
        TimeFormatPreference::System,
        TimeFormatPreference::TwelveHour,
        TimeFormatPreference::TwentyFourHour,
    ] {
        let saved = preferences::save_time_format_preference(preference);
        assert_eq!(preferences::load_time_format_preference(&Some(saved)), preference);
        let index = preferences::preference_index(preference);
        assert_eq!(preferences::preference_at(index), preference);
    }
    assert_eq!(preferences::load_time_format_preference(&None), TimeFormatPreference::System);
    assert_eq!(
        preferences::load_time_format_preference(&Some("time-format=other".to_string())),
        TimeFormatPreference::System
    );
    assert_eq!(preferences::preference_at(7), TimeFormatPreference::System);
}

#[test]
fn resolved_preference_shows_alike() {
    let time = Time::from_hms_opt(18, 45, 0).unwrap();
    for system in ["12h", "24h"] {
        let clock = preferences::system_clock_format(&Some(system.to_string()));
        let resolved = preferences::resolved_time_format(TimeFormatPreference::System, &clock);
        assert_eq!(
            format_time(&time, resolved, &clock),
            preferences::format_wall_time(&time, &None, &Some(system.to_string()))
        );
    }
    assert_eq!(
        preferences::resolved_time_format(TimeFormatPreference::System, "12h"),
        TimeFormatPreference::TwelveHour
    );
}

#[test]
fn views_move_by_months_and_weeks() {
    let mut view = ViewState::new(ViewKind::Month, day(2026, 1, 31));
    view.next();
    assert_eq!(view.active_date(), day(2026, 2, 28));
    view.previous();
    assert_eq!(view.active_date(), day(2026, 1, 28));
    view.previous();
    assert_eq!(view.active_date(), day(2025, 12, 28));
    view.set_view(ViewKind::Week);
    view.next();
    assert_eq!(view.active_date(), day(2026, 1, 4));
    view.set_view(ViewKind::Agenda);
    view.previous();
    assert_eq!(view.active_date(), day(2025, 12, 28));
    view.set_today(day(2026, 7, 22));
    let week = view.current_week_dates();
    assert_eq!(week[0], day(2026, 7, 20));
    assert_eq!(week[6], day(2026, 7, 26));
    assert_eq!(view.view(), ViewKind::Agenda);
}

#[test]
fn a_step_and_the_opposite_step_lead_back() {
    let start = day(2026, 5, 15);
    for kind in [ViewKind::Month, ViewKind::Week, ViewKind::Agenda] {
        let mut view = ViewState::new(kind, start);
        view.next();
        assert_ne!(view.active_date(), start);
        view.previous();
        assert_eq!(view.active_date(), start);
    }
    assert_eq!(shift_month(&day(2024, 3, 31), false), day(2024, 2, 29));
}

#[test]
fn sliding_the_weeks_moves_their_rows() {
    let mut buffer = WeeksBuffer::new(day(2026, 7, 20));
    assert_eq!(buffer.row_start(VISIBLE_START), day(2026, 7, 20));
    assert_eq!(buffer.row_start(0), day(2026, 6, 15));
    assert_eq!(buffer.row_dates(TOTAL_ROWS - 1)[6], day(2026, 9, 27));
    let below = buffer.row_start(VISIBLE_START + 1);
    buffer.shift_weeks(1);
    assert_eq!(buffer.row_start(VISIBLE_START), below);
    assert_eq!(buffer.first_visible_monday(), below);
}

#[test]
fn clocks_of_the_machine_show_instants() {
    let noon = instant(day(2026, 7, 20), 12, 0, 0);
    assert_eq!(to_local_fixed(&noon, Some(3600)).offset(), 3600);
    assert_eq!(to_local_fixed(&noon, Some(86400)).offset(), 0);
    assert_eq!(to_local_fixed(&noon, None).offset(), 0);
    let now = now_local_fixed(Some((1784548800, 250_000)), Some(-3600), &noon);
    assert_eq!((now.timestamp(), now.subsec_nanos(), now.offset()), (1784548800, 250_000_000, -3600));
    assert_eq!(now_local_fixed(None, Some(60), &noon).offset(), 0);
    assert_eq!(now_local_fixed(Some((i64::MAX, 0)), None, &noon).timestamp(), noon.timestamp());
}

#[test]
fn texts_are_trimmed_split_and_joined() {
    assert_eq!(text::trim("\u{3000} a b \n"), "a b");
    let parts = text::split_chars(&text::chars_of("a,,b"), ',');
    let parts: Vec<String> = parts.iter().map(text::string_of).collect();
    assert_eq!(parts, vec!["a".to_string(), String::new(), "b".to_string()]);
    assert_eq!(text::join_texts(&parts, ","), "a,,b");
    assert_eq!(text::parse_number(&text::chars_of("007"), 100), Some(7));
    assert_eq!(text::parse_number(&text::chars_of("101"), 100), None);
    assert_eq!(text::parse_number(&text::chars_of("1x"), 100), None);
    assert_eq!(text::signed_decimal_text(-45), "-45");
    assert_eq!(text::signed_decimal_text(i64::MIN), "-9223372036854775808");
    assert_eq!(text::two_digit_text(5), "05");
    assert!(text::text_less("Zoo", "apple"));
    assert!(!text::text_less("b", "b"));
    assert!(text::text_less("b", "ba"));
}

#[test]
fn instants_are_written_with_their_offsets() {
    let text = |seconds, nanos, offset| {
        formats::rfc3339_text(&DateTime::new(seconds, nanos, offset).unwrap())
    };
    assert_eq!(text(1767261600, 0, 0), "2026-01-01T10:00:00+00:00");
    assert_eq!(text(1767261600, 5000000, 7200), "2026-01-01T12:00:00.005+02:00");
    assert_eq!(text(1767261600, 2000, -18000), "2026-01-01T05:00:00.000002-05:00");
    assert_eq!(text(1767261600, 1500, 5430), "2026-01-01T11:30:30.000001500+01:31");
    assert_eq!(text(1767225599, 1500000000, 0), "2025-12-31T23:59:60.500+00:00");
    assert_eq!(text(-62167219201, 0, 0), "-0001-12-31T23:59:59+00:00");
    assert_eq!(text(253402300800, 0, 0), "+10000-01-01T00:00:00+00:00");
}

#[test]
fn lengths_of_time_lead_from_one_instant_to_another() {
    let start = DateTime::new(1767261600, 750000000, 3600).unwrap();
    for (seconds, nanos) in [(1767261600, 750000000), (1767261601, 0), (1767175199, 999999999), (0, 1)] {
        let end = DateTime::new(seconds, nanos, -7200).unwrap();
        let reached = start.plus(end.since(&start)).unwrap();
        assert_eq!(reached, end.with_offset(3600));
    }
    let later = start.plus(Span { seconds: 1, nanos: 500000000 }).unwrap();
    assert_eq!(later, DateTime::new(1767261602, 250000000, 3600).unwrap());
}

#[test]
fn sliding_weeks_leave_no_gap() {
    let before = WeeksBuffer::new(day(2026, 7, 20));
    let mut after = before;
    after.shift_weeks(TOTAL_ROWS as i32);
    let last = before.row_dates(TOTAL_ROWS - 1)[6];
    assert_eq!(after.row_start(0), last.plus_days(1).unwrap());
    assert_eq!(before.row_start(VISIBLE_START), day(2026, 7, 20));
}
