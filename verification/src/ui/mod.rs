//! What the windows show and decide, apart from the widgets.
pub mod agenda_view;
pub mod calendar_list;
pub mod calendar_management;
pub mod colors;
pub mod date_chooser;
pub mod date_time_chooser;
pub mod month_view;
pub mod names;
pub mod quick_add_popover;
pub mod week_view;
pub mod event_editor;
pub mod event_popover;
