//! Calendar core: dates, recurrence rules, projections and synchronisation decisions.
pub mod agenda_presentation;
pub mod agenda_render_plan;
pub mod backend;
pub mod background;
pub mod calendar_grid;
pub mod date;
pub mod expansion;
pub mod formats;
pub mod lines;
pub mod lists;
pub mod model;
pub mod month_view;
pub mod preferences;
pub mod recurrence_form;
pub mod recurrence_split;
pub mod rules;
pub mod sorting;
pub mod text;
pub mod time_format;
pub mod ui;
pub mod upcoming;
pub mod view_state;
pub mod viewer_time;
pub mod weeks_buffer;
pub mod zone;
