use calendar::agenda_presentation::AgendaEventState;
use calendar::agenda_render_plan::AgendaRange;
use calendar::backend::caldav::DiscoveryWorkerError;
use calendar::backend::sync::InitialPullWorkerError;
use calendar::date::{Date, DateTime, Time};
use calendar::model::{Account, Calendar, CalendarSource, Event, EventSchedule};
use calendar::month_view::{AgendaGroup, DayProjection, EventChip, ViewerLocalEnd, ViewerLocalSchedule};
use calendar::time_format::TimeFormatPreference;
use calendar::ui::agenda_view::{self, AgendaLook, AgendaPane, CardItem};
use calendar::ui::calendar_list::{self, CalendarChoice};
use calendar::ui::calendar_management::{
    self, poll_online_account, OnlineAction, OnlineEvent, OnlineStage,
};
use calendar::ui::colors;
use calendar::ui::date_chooser::DateChooser;
use calendar::ui::date_time_chooser::{
    self, shift_end_for_start_change, to_12_hour, to_24_hour, DateTimeChooser, Endpoint,
};
use calendar::ui::event_editor::{EventEditor, LocalOffsets, SaveRefusal, ScheduleForm};
use calendar::ui::event_popover::{format_relative_date, format_schedule, EventDetails};
use calendar::ui::month_view::{self as ui_month, BufferEdge, MonthPane};
use calendar::ui::quick_add_popover::{get_date_string_for_day, QuickAdd, QuickAddAction};
use calendar::ui::week_view::{self, EventTimes, WeekPane};
use calendar::weeks_buffer::WeeksBuffer;

#[test]
fn start_time_shift_preserves_duration() {
    let d = |year, month, day| Date::from_ymd_opt(year, month, day).unwrap();

    assert_eq!(
        shift_end_for_start_change(
            (d(2026, 7, 20), 9, 0),
            (d(2026, 7, 20), 2, 0),
            (d(2026, 7, 20), 10, 0),
        ),
        (d(2026, 7, 20), 3, 0),
        "moving Start from 09:00 to 02:00 moves End from 10:00 to 03:00",
    );

    assert_eq!(
        shift_end_for_start_change(
            (d(2026, 7, 20), 23, 30),
            (d(2026, 7, 21), 0, 30),
            (d(2026, 7, 21), 0, 30),
        ),
        (d(2026, 7, 21), 1, 30),
        "the End follows a Start shift across midnight",
    );
}

#[test]
fn get_date_string_for_day_header_wording() {
    // Fixed reference "today": Monday 2026-07-20.
    let today = Date::from_ymd_opt(2026, 7, 20).unwrap();
    let d = |y: i32, m: u32, day: u32| Date::from_ymd_opt(y, m, day).unwrap();

    // (label, target date, expected header wording)
    let cases: &[(&str, Date, &str)] = &[
        ("same day", d(2026, 7, 20), "New Event Today"),
        ("tomorrow", d(2026, 7, 21), "New Event Tomorrow"),
        ("yesterday", d(2026, 7, 19), "New Event Yesterday"),
        ("+2 days (Wed)", d(2026, 7, 22), "New Event Wednesday"),
        ("+3 days (Thu)", d(2026, 7, 23), "New Event Thursday"),
        ("+4 days (Fri)", d(2026, 7, 24), "New Event Friday"),
        ("+5 days (Sat)", d(2026, 7, 25), "New Event Saturday"),
        ("+6 days (Sun)", d(2026, 7, 26), "New Event Sunday"),
        ("+7 days", d(2026, 7, 27), "New Event on July 27"),
        (
            "+31 days (next month)",
            d(2026, 8, 20),
            "New Event on August 20",
        ),
        ("+365 days", d(2027, 7, 20), "New Event on July 20"),
        ("-2 days", d(2026, 7, 18), "New Event on July 18"),
        (
            "-35 days (last month)",
            d(2026, 6, 15),
            "New Event on June 15",
        ),
    ];

    for (label, date, expected) in cases {
        let got = get_date_string_for_day(*date, today);
        assert_eq!(
            got, *expected,
            "{label}: get_date_string_for_day({date:?}, today={today:?})",
        );
    }
}

#[test]
fn quick_adding_needs_a_title_and_a_calendar() {
    let day = Date::from_ymd_opt(2026, 7, 20).unwrap();
    let entered = |title: &str, calendar_id, date| QuickAdd {
        title: title.to_string(),
        calendar_id,
        date,
    };
    let complete = entered("  Call ", Some(3), Some(day));
    assert!(complete.can_save());
    assert!(matches!(
        complete.save(),
        QuickAddAction::Save { title, calendar_id: 3, .. } if title == "Call"
    ));
    assert!(matches!(complete.confirm(), QuickAddAction::Save { .. }));
    let untitled = entered("  ", Some(3), Some(day));
    assert!(untitled.lacks_title() && !untitled.can_save());
    assert!(matches!(untitled.save(), QuickAddAction::Nothing));
    assert!(matches!(untitled.confirm(), QuickAddAction::EditDetails));
    assert!(!entered("Call", None, Some(day)).can_save());
    assert!(matches!(entered("Call", Some(3), None).save(), QuickAddAction::Nothing));
    let closed = complete.closed();
    assert_eq!((closed.title.as_str(), closed.calendar_id, closed.date), ("", Some(3), None));
}

fn day(year: i32, month: u32, day: u32) -> Date {
    Date::from_ymd_opt(year, month, day).unwrap()
}

fn instant(date: Date, hour: i64, minute: i64, offset: i32) -> DateTime {
    let seconds =
        (date.days() as i64 - 719163) * 86400 + hour * 3600 + minute * 60 - offset as i64;
    DateTime::new(seconds, 0, offset).unwrap()
}

fn calendar(id: u128, name: &str, visible: bool, read_only: bool) -> Calendar {
    Calendar {
        id,
        name: name.to_string(),
        color: "#3366CC".to_string(),
        visible,
        read_only,
        source: CalendarSource::Local,
    }
}

fn event(id: u128, schedule: EventSchedule) -> Event {
    Event {
        id,
        calendar_id: 3,
        title: "Walk".to_string(),
        location: "  ".to_string(),
        description: " Slowly ".to_string(),
        schedule,
        recurrence: None,
        reminders: Vec::new(),
    }
}

#[test]
fn details_of_events_are_worded_from_today() {
    let today = day(2026, 7, 20);
    assert_eq!(format_relative_date(&day(2026, 7, 20), &today), "Today");
    assert_eq!(format_relative_date(&day(2026, 7, 21), &today), "Tomorrow");
    assert_eq!(format_relative_date(&day(2026, 7, 19), &today), "Yesterday");
    assert_eq!(format_relative_date(&day(2026, 12, 24), &today), "December 24");
    assert_eq!(format_relative_date(&day(2027, 1, 2), &today), "January 2, 2027");
    let whole = EventSchedule::AllDay {
        start_date: day(2026, 7, 20),
        end_date_exclusive: day(2026, 7, 21),
    };
    assert_eq!(format_schedule(&whole, &today), "Today");
    let longer = EventSchedule::AllDay {
        start_date: day(2026, 7, 20),
        end_date_exclusive: day(2026, 7, 25),
    };
    assert_eq!(format_schedule(&longer, &today), "Today – July 24");
    let timed = EventSchedule::Timed {
        start: instant(day(2026, 7, 20), 9, 5, 7200),
        end: instant(day(2026, 7, 20), 10, 0, 7200),
        timezone: None,
    };
    assert_eq!(format_schedule(&timed, &today), "Today, 09:05 – 10:00");
    let night = EventSchedule::Timed {
        start: instant(day(2026, 7, 20), 22, 0, 7200),
        end: instant(day(2026, 7, 21), 1, 0, 7200),
        timezone: None,
    };
    assert_eq!(format_schedule(&night, &today), "Today, 22:00 – Tomorrow, 01:00");
    let details = EventDetails::of_event(&event(1, whole.clone()), &Some(calendar(3, "A", true, true)), &today);
    assert_eq!(details.description.as_deref(), Some("Slowly"));
    assert!(details.location.is_none());
    assert_eq!(details.action_tooltip, "View Details");
    let details = EventDetails::of_event(&event(1, whole), &None, &today);
    assert_eq!(details.action_icon, "document-edit-symbolic");
}

#[test]
fn calendars_are_listed_by_name() {
    let all = vec![
        calendar(5, "b", true, false),
        calendar(2, "a", true, false),
        calendar(1, "a", false, false),
        calendar(4, "A", true, true),
    ];
    let ids = |choice| -> Vec<u128> {
        calendar_list::set_calendars(choice, &all).iter().map(|calendar| calendar.id).collect()
    };
    assert_eq!(ids(CalendarChoice::All), vec![4, 1, 2, 5]);
    assert_eq!(ids(CalendarChoice::Writable), vec![1, 2, 5]);
    assert_eq!(ids(CalendarChoice::VisibleWritable), vec![2, 5]);
    assert_eq!(calendar_list::select_calendar(&all, 1), Some(2));
    assert_eq!(calendar_list::select_calendar(&all, 9), None);
    assert_eq!(calendar_list::preselected(&all), Some(5));
    assert_eq!(calendar_list::tooltip("Home", false), "Home calendar — hidden");
    assert!(!calendar_list::toggled(true, true));
    assert!(calendar_list::toggled(true, false));
}

#[test]
fn colours_are_read_and_described() {
    assert_eq!(colors::sanitize_color(" #AbCdEf "), "abcdef");
    assert_eq!(colors::sanitize_color("##abcde"), "808080");
    assert_eq!(colors::sanitize_color("red"), "808080");
    assert_eq!(colors::hex_digits("#12-34xyzAB"), "1234AB");
    assert_eq!(colors::color_class("#3366CC"), "calendar-color-1");
    assert_eq!(colors::color_class("##339999"), "calendar-color-6");
    assert_eq!(colors::color_class("#123456"), "calendar-color-7");
    assert_eq!(colors::parse_color("#ff8000"), (255, 128, 0));
    assert_eq!(colors::parse_color("none"), (153, 153, 153));
    assert_eq!(colors::color_description("#62A0EA"), "Blue calendar color");
    assert_eq!(colors::color_description("#000000"), "Custom calendar color");
    assert_eq!(colors::preset_place("#becedd"), Some(6));
}

#[test]
fn choosing_a_start_moves_the_end() {
    let d = day(2026, 7, 20);
    let mut chooser = DateTimeChooser::set_date_times((d, 25, -3), (d, 23, 30));
    assert_eq!(chooser.start, (d, 23, 0));
    chooser.set_active_hour(11, true);
    assert_eq!((chooser.start, chooser.end), ((d, 23, 0), (d, 23, 30)));
    chooser.set_active_period(0);
    assert_eq!((chooser.start, chooser.end), ((d, 11, 0), (d, 11, 30)));
    chooser.set_active_minute(45);
    assert_eq!(chooser.end, (d, 12, 15));
    chooser.date_changed(Endpoint::Start, day(2026, 7, 22));
    assert_eq!(chooser.end, (day(2026, 7, 22), 12, 15));
    chooser.date_changed(Endpoint::End, day(2026, 7, 23));
    assert_eq!(chooser.end_caption(), "END · 1d 30m");
    chooser.active = Endpoint::End;
    chooser.set_active_hour(9, false);
    assert_eq!((chooser.start.1, chooser.end.1), (11, 9));
    let hours = chooser.hour_choices(true);
    assert_eq!((hours.len(), hours[8].label.as_str(), hours[8].selected), (12, "9", true));
    assert_eq!(chooser.hour_choices(false)[9].label, "09");
    let minutes = chooser.minute_choices();
    assert_eq!((minutes[3].label.as_str(), minutes[3].selected), ("15", true));
    chooser.set_end_date_time(d, 9, 0);
    assert_eq!(chooser.end_caption(), "END");
    assert!(chooser.duration_text().is_none());
    chooser.set_start_date_time(d, 8, 30);
    assert_eq!((chooser.start, chooser.end), ((d, 8, 30), (d, 9, 0)));
    assert_eq!(chooser.duration_text().as_deref(), Some("30m"));
}

#[test]
fn clocks_with_twelve_hours() {
    for hour in 0..24 {
        let period = if hour >= 12 { 1 } else { 0 };
        assert_eq!(to_24_hour(to_12_hour(hour), period), hour);
    }
    assert_eq!(to_24_hour(40, 0), 0);
    assert_eq!(to_24_hour(-2, 1), 13);
    assert_eq!(date_time_chooser::format_wall_time(13, 5, true), "1:05 PM");
    assert_eq!(date_time_chooser::format_wall_time(13, 5, false), "13:05");
    assert_eq!(date_time_chooser::format_wall_time(99, -1, true), "99:-1");
    assert_eq!(date_time_chooser::format_duration(0), "0m");
    assert_eq!(date_time_chooser::format_duration(1500), "1d 1hr");
    assert_eq!(date_time_chooser::format_duration(61), "1hr 1m");
}

fn editor() -> EventEditor {
    let d = day(2026, 7, 20);
    let mut editor = EventEditor {
        calendars: vec![calendar(3, "A", true, false), calendar(4, "B", true, false)],
        selected: 0,
        editing_event: None,
        original: None,
        title: String::new(),
        location: String::new(),
        description: String::new(),
        schedule: ScheduleForm {
            all_day: true,
            start_date: None,
            end_date: None,
            start_time: None,
            end_time: None,
        },
    };
    editor.set_create_defaults(" New ", 4, d);
    editor
}

const UTC: LocalOffsets = LocalOffsets { start: Some(0), end: Some(0) };

#[test]
fn new_events_are_saved_as_entered() {
    let mut editor = editor();
    let saved = editor.save_clicked(UTC).unwrap();
    assert_eq!((saved.title.as_str(), saved.calendar_id), ("New", 4));
    assert_ne!(saved.id, 0);
    editor.schedule.all_day = false;
    let saved = editor.save_given(77, LocalOffsets { start: Some(7200), end: Some(7200) }).unwrap();
    assert_eq!(saved.id, 77);
    let expected = EventSchedule::Timed {
        start: instant(day(2026, 7, 20), 9, 0, 7200),
        end: instant(day(2026, 7, 20), 10, 0, 7200),
        timezone: None,
    };
    assert!(saved.schedule.same(&expected));
}

#[test]
fn events_that_are_not_complete_are_refused() {
    let mut form = editor();
    form.selected = 2;
    assert_eq!(form.save_clicked(UTC).unwrap_err(), SaveRefusal::NoCalendar);
    assert_eq!(SaveRefusal::NoCalendar.message(), "Choose a writable calendar.");
    let mut form = editor();
    form.schedule.start_date = None;
    assert_eq!(form.save_clicked(UTC).unwrap_err(), SaveRefusal::NoStartDate);
    let mut form = editor();
    form.schedule.end_date = None;
    assert_eq!(form.save_clicked(UTC).unwrap_err(), SaveRefusal::NoEndDate);
    let mut form = editor();
    form.schedule.end_date = Some(day(262142, 12, 31));
    assert_eq!(form.save_clicked(UTC).unwrap_err(), SaveRefusal::EndOutOfRange);
    let mut form = editor();
    form.title = " ".to_string();
    assert_eq!(form.save_clicked(UTC).unwrap_err(), SaveRefusal::InvalidEvent);
    let mut form = editor();
    form.schedule.all_day = false;
    let gone = LocalOffsets { start: None, end: Some(0) };
    assert_eq!(form.save_clicked(gone).unwrap_err(), SaveRefusal::NoStartTime);
    form.schedule.end_time = None;
    assert_eq!(form.save_clicked(UTC).unwrap_err(), SaveRefusal::NoEndTime);
}

#[test]
fn ranges_at_the_edges_of_the_calendar_are_left() {
    let first = day(-262143, 1, 1);
    let last = day(262142, 12, 31);
    let mut form = editor();
    form.schedule = ScheduleForm {
        all_day: false,
        start_date: None,
        end_date: None,
        start_time: Some((first, 0, 0)),
        end_time: Some((last, 23, 59)),
    };
    form.schedule.schedule_changed(&None, UTC);
    assert_eq!(form.schedule.start_time, Some((first, 0, 0)));
    assert_eq!(form.schedule.end_time, Some((last, 23, 59)));
    assert_eq!((form.schedule.start_date, form.schedule.end_date), (Some(first), Some(last)));
}

#[test]
fn opened_events_keep_their_instants() {
    let schedule = EventSchedule::Timed {
        start: instant(day(2026, 7, 20), 9, 5, 7200),
        end: instant(day(2026, 7, 20), 10, 0, 7200),
        timezone: Some("Europe/Berlin".to_string()),
    };
    let opened = event(1, schedule.clone());
    let mut form = editor();
    form.set_event(&opened, UTC);
    // The clocks of the machine show other times, yet nothing was changed.
    let saved = form.save_clicked(UTC).unwrap();
    assert_eq!(saved.id, 1);
    assert!(saved.schedule.same(&schedule));
    // Only the start was moved behind the end: it is put an hour before it.
    form.schedule.start_time = Some((day(2026, 7, 20), 23, 0));
    form.schedule.schedule_changed(&form.original, LocalOffsets { start: Some(7200), end: Some(7200) });
    assert_eq!(form.schedule.start_time, Some((day(2026, 7, 20), 9, 0)));
}

#[test]
fn ranges_are_made_to_run_forward() {
    let mut form = editor();
    form.schedule.end_date = Some(day(2026, 7, 18));
    form.schedule.schedule_changed(&form.original, UTC);
    assert_eq!(form.schedule.end_date, Some(day(2026, 7, 20)));
    assert_eq!(form.schedule.end_time, Some((day(2026, 7, 20), 10, 0)));
    form.schedule.all_day = false;
    form.schedule.start_time = Some((day(2026, 7, 20), 23, 30));
    form.schedule.schedule_changed(&form.original, UTC);
    assert_eq!(form.schedule.end_time, Some((day(2026, 7, 21), 0, 30)));
    assert_eq!(form.schedule.end_date, Some(day(2026, 7, 21)));
}

fn chip(id: u128) -> EventChip {
    EventChip {
        event_id: id,
        title: format!("Event {id}"),
        calendar_id: 3,
        color: "#3366cc".to_string(),
        is_all_day: false,
        start_time: Time::from_hms_opt(9, 0, 0),
        viewer_local_end: ViewerLocalEnd::Timed(instant(day(2026, 7, 20), 10, 0, 0)),
        viewer_local_schedule: ViewerLocalSchedule::Timed {
            start: instant(day(2026, 7, 20), 9, 0, 0),
            end: instant(day(2026, 7, 20), 10, 0, 0),
        },
        original_recurrence_id: None,
    }
}

#[test]
fn events_that_overlap_stand_side_by_side() {
    let d = day(2026, 7, 20);
    let at = |hour| instant(d, hour, 0, 0);
    let times = |id, from, to| EventTimes { event_id: id, times: Some((at(from), at(to))) };
    let all = vec![
        times(1, 9, 12),
        times(2, 10, 11),
        times(3, 11, 13),
        times(4, 12, 14),
        EventTimes { event_id: 5, times: None },
        EventTimes { event_id: 6, times: Some((instant(day(2026, 7, 19), 22, 0, 0), at(1))) },
    ];
    let chips: Vec<EventChip> = (1..=7).map(chip).collect();
    let blocks = week_view::lay_out(&chips, &all, &d);
    let lanes: Vec<(u128, usize)> = blocks.iter().map(|block| (block.event_id, block.lane)).collect();
    assert_eq!(lanes, vec![(6, 0), (1, 0), (2, 1), (3, 1), (4, 0)]);
    assert!(blocks.iter().all(|block| block.lane_count == 2));
    assert_eq!((blocks[0].start, blocks[0].end), (0, 3600));
    for a in &blocks {
        for b in &blocks {
            if a.event_id != b.event_id && a.lane == b.lane {
                assert!(a.end <= b.start || b.end <= a.start);
            }
        }
    }
}

#[test]
fn weeks_scroll_to_the_current_time_once() {
    assert_eq!(week_view::format_hour(0), "12 AM");
    assert_eq!(week_view::format_hour(15), "3 PM");
    assert_eq!(week_view::weekday_name(6), "SUN");
    assert_eq!(week_view::next_tick(59, 999_999_999), 1000);
    assert_eq!(week_view::next_tick(0, 0), 60_000_000);
    let mut pane = WeekPane {
        active_date: day(2026, 7, 1),
        today: day(2026, 7, 20),
        eligible: true,
        pending: false,
    };
    assert!(!pane.week_contains(&day(2026, 7, 20)));
    pane.set_active_date(day(2026, 7, 26), true);
    assert!(pane.pending && !pane.eligible);
    pane.set_active_date(day(2026, 8, 1), true);
    assert!(!pane.pending);
    pane.set_active_date(day(2026, 7, 20), true);
    assert!(!pane.pending);
    pane.refresh_clock(day(2026, 7, 28), true);
    assert_eq!(pane.today, day(2026, 7, 28));
}

#[test]
fn months_are_rows_of_weeks() {
    let mut pane = MonthPane {
        buffer: WeeksBuffer::new(day(2026, 7, 20)),
        active_date: day(2026, 7, 31),
        title: (2026, 7),
    };
    assert_eq!(pane.row_month(5), (2026, 7));
    assert!(!pane.scrolled_to(5));
    assert!(pane.scrolled_to(0));
    assert_eq!((pane.title, pane.active_date), ((2026, 6), day(2026, 6, 30)));
    pane.navigate_next();
    assert_eq!(pane.active_date, day(2026, 7, 30));
    assert_eq!(pane.buffer.first_visible_monday(), day(2026, 6, 29));
    assert_eq!(pane.title, (2026, 7));
    assert!(!pane.scrolled_to(5));
    pane.navigate_previous();
    assert_eq!(pane.active_date, day(2026, 6, 30));
    assert_eq!(pane.buffer.first_visible_monday(), day(2026, 6, 1));
    pane.set_active_date(day(2026, 7, 27));
    assert_eq!(pane.buffer.first_visible_monday(), day(2026, 7, 27));
    assert_eq!((pane.title, pane.active_date), ((2026, 7), day(2026, 7, 27)));
    pane.set_active_date(day(2026, 6, 30));
    let mut elsewhere = MonthPane {
        buffer: WeeksBuffer::new(day(2026, 7, 20)),
        active_date: day(2026, 7, 31),
        title: (2026, 7),
    };
    elsewhere.go_today(day(2027, 1, 1));
    assert_eq!(elsewhere.buffer.first_visible_monday(), day(2026, 12, 28));
    assert_eq!((elsewhere.title, elsewhere.active_date), ((2026, 12), day(2027, 1, 1)));
    let dates = ui_month::buffer_dates(&pane.buffer);
    assert_eq!(dates.len(), 105);
    assert_eq!(
        ui_month::buffer_months(&dates),
        vec![(2026, 5), (2026, 6), (2026, 7), (2026, 8), (2026, 9)]
    );
    let empty = |date| DayProjection {
        date,
        in_displayed_month: true,
        all_day: Vec::new(),
        timed: Vec::new(),
    };
    let two = vec![day(2026, 7, 1), day(2026, 7, 2)];
    let found = ui_month::project_buffer_dates(&two, &vec![empty(day(2026, 7, 2)), empty(day(2026, 7, 1))]);
    assert_eq!((found[0].date, found[1].date), (two[0], two[1]));
    let cell = ui_month::day_cell(&day(2026, 8, 1), &day(2026, 8, 1), 2026, 7);
    assert_eq!(cell.label, "August");
    assert!(cell.first_day && cell.other_month && cell.today && cell.separator_side);
    assert_eq!(ui_month::overflow_label(5).as_deref(), Some("+2"));
    assert_eq!(ui_month::overflow_label(3), None);
    let look = ui_month::chip_look(&chip(1), &instant(day(2026, 7, 20), 11, 0, 0));
    assert_eq!((look.time.as_deref(), look.past), (Some("09:00"), true));
    let full = DayProjection {
        all_day: vec![chip(1), chip(2)],
        timed: vec![chip(3), chip(4)],
        ..empty(day(2026, 7, 20))
    };
    let shown: Vec<u128> = ui_month::shown_chips(&full).iter().map(|chip| chip.event_id).collect();
    assert_eq!(shown, vec![1, 2, 3]);
}

#[test]
fn dates_are_chosen_on_a_grid() {
    let mut chooser = DateChooser {
        display_year: 2026,
        display_month: 1,
        selected: day(2026, 1, 15),
        today: day(2026, 1, 20),
    };
    let buttons = chooser.populate_grid();
    assert_eq!(buttons.iter().filter(|button| button.selected).count(), 1);
    assert_eq!(buttons.iter().filter(|button| button.today).count(), 1);
    assert!(buttons[0].other_month);
    assert_eq!(buttons[0].label, "29");
    chooser.previous_month();
    assert_eq!(chooser.heading(), "December 2025");
    chooser.next_month();
    chooser.choose_cell(&buttons[0].cell);
    assert_eq!((chooser.selected, chooser.display_month), (day(2025, 12, 29), 12));
    chooser.set_date(day(2026, 7, 20));
    assert_eq!(chooser.heading(), "July 2026");
}

#[test]
fn agendas_show_rows_and_gaps() {
    let walk = event(
        1,
        EventSchedule::Timed {
            start: instant(day(2026, 7, 13), 9, 0, 0),
            end: instant(day(2026, 7, 13), 10, 0, 0),
            timezone: None,
        },
    );
    let look = AgendaLook {
        compact: false,
        preference: TimeFormatPreference::TwentyFourHour,
        system_format: String::new(),
    };
    let now = instant(day(2026, 7, 20), 9, 30, 0);
    let mut row = agenda_view::create_event_row(&chip(1), &walk, &look, &now);
    assert_eq!(row.time, "09:00–10:00");
    assert_eq!(row.state, AgendaEventState::Current);
    assert_eq!(row.accessible_label(), "09:00–10:00: Walk, currently running");
    assert_eq!(row.now_label(), "NOW");
    assert_eq!(row.color, "3366cc");
    row.refresh(&instant(day(2026, 7, 20), 10, 0, 0));
    assert_eq!(row.state, AgendaEventState::Past);
    assert_eq!(row.accessible_label(), "09:00–10:00: Walk");
    let card = agenda_view::create_event_card(&vec![chip(1), chip(2), chip(1)], &vec![walk], &look, &now);
    let rows = card.iter().filter(|item| matches!(item, CardItem::Row(_))).count();
    assert_eq!((card.len(), rows), (4, 2));

    let today = day(2026, 7, 20);
    let label = |from, to, compact| agenda_view::empty_range_label(&from, &to, &today, compact);
    assert_eq!(label(today, day(2026, 7, 21), false), "nothing today");
    assert_eq!(label(day(2026, 7, 21), day(2026, 7, 22), false), "nothing tomorrow");
    assert_eq!(label(day(2026, 7, 19), today, false), "nothing yesterday");
    assert_eq!(label(day(2026, 7, 24), day(2026, 7, 25), true), "nothing 24 Jul");
    assert_eq!(label(day(2026, 7, 24), day(2026, 8, 2), false), "nothing 24 Jul – 1 Aug");
    assert_eq!(label(day(2026, 7, 24), day(2026, 8, 2), true), "nothing for 9 days");
    let rail = agenda_view::create_date_rail(&today, &today);
    assert_eq!((rail.weekday.as_str(), rail.number.as_str(), rail.month.as_str()), ("MON", "20", "JUL"));
    let gap = AgendaGroup::EmptyRange { start_date: today, end_date_exclusive: day(2026, 7, 21) };
    assert!(agenda_view::is_empty_today(&gap, &today));
    assert_eq!(agenda_view::place_of(&vec![gap], &today), Some(0));
}

#[test]
fn agendas_are_filled_again_when_asked_meanwhile() {
    let today = day(2026, 7, 20);
    let mut pane = AgendaPane {
        active_date: today,
        range: AgendaRange::new(&today, 56),
        clock_date: today,
        guarded: false,
        deferred: false,
        pending: false,
        pending_bottom: false,
        target: None,
    };
    assert!(pane.set_active_date(day(2026, 1, 1), today));
    assert_eq!(pane.active_date, today);
    assert!(!pane.queue_work());
    assert_eq!(pane.begin_work(), Some(today));
    assert!(!pane.queue_work());
    assert!(!pane.reached_bottom());
    assert!(pane.finish_work());
    assert!(pane.pending);
    let end = pane.range.end_date_exclusive;
    pane.begin_work();
    pane.finish_work();
    assert!(pane.reached_bottom());
    pane.begin_work();
    assert_eq!(pane.range.end_date_exclusive, end.plus_days(28).unwrap());
    pane.finish_work();
    assert!(pane.refresh_clock(day(2026, 7, 21)));
    assert_eq!(pane.range.start_date, day(2026, 7, 21));
}

#[test]
fn online_accounts_are_added_step_by_step() {
    let step = poll_online_account(OnlineStage::Discovery, OnlineEvent::Waiting);
    assert_eq!((step.stage, step.action), (OnlineStage::Discovery, OnlineAction::Wait));
    let step = poll_online_account(OnlineStage::Discovery, OnlineEvent::Discovered(Ok(())));
    assert_eq!(step.action, OnlineAction::StoreCredential);
    let step = poll_online_account(step.stage, OnlineEvent::Stored(true));
    assert_eq!(step.action, OnlineAction::Provision);
    let refused = poll_online_account(step.stage, OnlineEvent::Provisioned(Err("full".to_string())));
    assert_eq!(refused.action, OnlineAction::DeleteCredential);
    assert_eq!(refused.message.as_deref(), Some("full"));
    assert!(refused.forget_password && refused.stage.is_busy());
    let cleaned = poll_online_account(refused.stage, OnlineEvent::Cleaned);
    assert_eq!((cleaned.stage, cleaned.action), (OnlineStage::Idle, OnlineAction::Stop));
    let step = poll_online_account(step.stage, OnlineEvent::Provisioned(Ok(())));
    assert_eq!(step.action, OnlineAction::Pull);
    let done = poll_online_account(step.stage, OnlineEvent::Pulled(Ok(())));
    assert_eq!((done.stage, done.action), (OnlineStage::Idle, OnlineAction::Refresh));
    let failed = poll_online_account(
        OnlineStage::Discovery,
        OnlineEvent::Discovered(Err(DiscoveryWorkerError::Http)),
    );
    assert_eq!(failed.message.as_deref(), Some("Could not connect to the CalDAV server."));
    let stopped = poll_online_account(OnlineStage::Store, OnlineEvent::Stopped);
    assert_eq!(
        stopped.message.as_deref(),
        Some("The credential store worker stopped unexpectedly.")
    );
    let unread = poll_online_account(
        OnlineStage::InitialPull,
        OnlineEvent::Pulled(Err(InitialPullWorkerError::Repository)),
    );
    assert!(unread.message.unwrap().contains("disk space"));
}

#[test]
fn accounts_are_listed_by_name() {
    let account = |id, name: &str| Account {
        id,
        name: name.to_string(),
        server_url: "https://dav.example".to_string(),
        username: "alex".to_string(),
        enabled: true,
    };
    let listed = calendar_management::listed_accounts(vec![
        account(1, "work"),
        account(3, "Home"),
        account(2, "Home"),
    ]);
    let ids: Vec<u128> = listed.iter().map(|account| account.id).collect();
    assert_eq!(ids, vec![2, 3, 1]);
}

#[test]
fn accounts_and_calendars_are_entered() {
    let entered = |url: &str, password: &str| {
        calendar_management::entered_account(9, " Work ", url, " me ", password)
    };
    let account = entered(" https://example.org/ ", "p").unwrap();
    assert_eq!((account.name.as_str(), account.server_url.as_str()), ("Work", "https://example.org/"));
    assert!(account.enabled);
    assert!(entered("example.org", "p").is_none());
    assert!(entered("https://example.org/", "").is_none());
    let made = calendar_management::new_calendar("Home", "#ABCDEF").unwrap();
    assert_eq!(made.color, "#abcdef");
    assert!(calendar_management::new_calendar(" ", "#ABCDEF").is_err());
    let mut closed = calendar(5, "Feed", true, true);
    let kept = calendar_management::edited_calendar(&closed, "Other", "#000000", false).unwrap();
    assert_eq!((kept.name.as_str(), kept.visible), ("Feed", false));
    assert_eq!(calendar_management::subtitle(&closed), "Read-only local calendar");
    assert!(!calendar_management::is_removable(&closed));
    closed.read_only = false;
    assert!(calendar_management::is_removable(&closed));
    let kept = calendar_management::edited_calendar(&closed, "Other", "#000000", false).unwrap();
    assert_eq!((kept.name.as_str(), kept.color.as_str()), ("Other", "#000000"));
}

#[test]
fn weeks_slide_without_end() {
    let mut pane = MonthPane {
        buffer: WeeksBuffer::new(day(2026, 7, 20)),
        active_date: day(2026, 7, 22),
        title: (2026, 7),
    };
    assert_eq!(pane.recycle(BufferEdge::Bottom), -1);
    assert_eq!(pane.buffer.first_visible_monday(), day(2026, 7, 27));
    assert_eq!((pane.active_date, pane.title), (day(2026, 7, 22), (2026, 7)));
    for _ in 0..30 {
        assert_eq!(pane.recycle(BufferEdge::Top), 1);
    }
    assert_eq!(pane.buffer.first_visible_monday(), day(2025, 12, 29));
}
