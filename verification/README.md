# Calendar

A calendar for the desktop: months, weeks and an agenda of events, quick adding, an editor, reminders,
and online calendars that are kept in step with CalDAV servers.

- `src/` is the library: dates and recurrences, what the views show, what is stored and how stored
  changes are made and taken back, what is asked of servers and what their answers mean. All of it is
  written in Verus. Contracts say what each function returns; `law_*` functions say what holds of
  several of them together.
- `tests/` runs the library, with the crates it calls.
- `app/` is the program around it: the database, the network, the keyring and the windows.

What the library takes from other crates (chrono, chrono-tz, icalendar, quick-xml, reqwest's addresses,
rrule, uuid) stands behind small functions whose doc comments say what is relied on. Times of recurring
events that name no zone are read by the clocks of the machine; contracts that depend on them say so.
