//! A week with its hours.
use vstd::prelude::*;

use crate::date;
use crate::date::{Date, DateTime, DateTimeView};
use crate::lists;
use crate::model::Uuid;
use crate::month_view;
use crate::month_view::{ChipView, EventChip};
use crate::sorting;
use crate::sorting::Ranked;
use crate::text;

verus! {

// ---------------------------------------------------------------------------------------------
// Events on a day
// ---------------------------------------------------------------------------------------------

/// When an event begins and ends by the clocks of the machine; nothing for one on whole days.
#[derive(Clone, Copy, Debug)]
pub struct EventTimes {
    pub event_id: Uuid,
    pub times: Option<(DateTime, DateTime)>,
}

/// The times of the last event of a list with an identifier.
pub open spec fn times_of(all: Seq<EventTimes>, id: Uuid) -> Option<(DateTime, DateTime)>
    decreases all.len(),
{
    if all.len() == 0 {
        None
    } else if all.last().event_id == id {
        all.last().times
    } else {
        times_of(all.drop_last(), id)
    }
}

/// The times of the last event of a list with an identifier.
fn find_times(all: &Vec<EventTimes>, id: Uuid) -> (r: Option<(DateTime, DateTime)>)
    ensures
        r == times_of(all@, id),
{
    let mut i: usize = all.len();
    assert(all@.take(i as int) =~= all@);
    while i > 0
        invariant
            i <= all@.len(),
            times_of(all@, id) == times_of(all@.take(i as int), id),
        decreases i,
    {
        assert(all@.take(i as int).drop_last() =~= all@.take(i - 1));
        if all[i - 1].event_id == id {
            return all[i - 1].times;
        }
        i -= 1;
    }
    None
}

/// The part of an event that lies on a day, in seconds of that day.
#[derive(Clone, Copy, Debug, PartialEq, Eq, Structural)]
pub struct Segment {
    /// The place of the event among those of the day.
    pub place: usize,
    pub event_id: Uuid,
    pub start: u32,
    pub end: u32,
}

impl View for Segment {
    type V = Segment;

    open spec fn view(&self) -> Segment {
        *self
    }
}

/// The second of a day at which an instant lies; the edge of the day where it lies on another.
pub open spec fn second_on(v: DateTimeView, day: int, edge: int) -> int {
    if v.local_day() == day {
        v.local_second()
    } else {
        edge
    }
}

/// The part of an event that lies on a day.
pub open spec fn segment_of(place: int, id: Uuid, times: Option<(DateTime, DateTime)>, day: int) -> Option<
    Segment,
> {
    match times {
        Some((start, end)) => {
            let first = second_on(start@, day, 0);
            let last = second_on(end@, day, 86400);
            if first < last {
                Some(
                    Segment {
                        place: place as usize,
                        event_id: id,
                        start: first as u32,
                        end: last as u32,
                    },
                )
            } else {
                None
            }
        },
        None => None,
    }
}

/// The parts of events that lie on a day.
pub open spec fn segments_of(chips: Seq<ChipView>, times: Seq<EventTimes>, day: int) -> Seq<Segment>
    decreases chips.len(),
{
    if chips.len() == 0 {
        seq![]
    } else {
        let before = segments_of(chips.drop_last(), times, day);
        match segment_of(
            chips.len() - 1,
            chips.last().event_id,
            times_of(times, chips.last().event_id),
            day,
        ) {
            Some(segment) => before.push(segment),
            None => before,
        }
    }
}

/// The second of a day at which an instant lies.
fn find_second(instant: &DateTime, day: &Date, edge: u32) -> (r: u32)
    requires
        edge <= 86400,
    ensures
        r == second_on(instant@, day@, edge as int),
        r <= 86400,
{
    if instant.local_date().same(day) {
        instant.local_time().seconds
    } else {
        edge
    }
}

/// The parts of events that lie on a day.
fn find_segments(chips: &Vec<EventChip>, times: &Vec<EventTimes>, day: &Date) -> (r: Vec<Segment>)
    ensures
        r@ == segments_of(lists::views_of(chips@), times@, day@),
{
    let ghost all = lists::views_of(chips@);
    let mut out: Vec<Segment> = Vec::new();
    assert(out@ =~= segments_of(all.take(0), times@, day@));
    for i in 0..chips.len()
        invariant
            all == lists::views_of(chips@),
            out@ == segments_of(all.take(i as int), times@, day@),
    {
        let id: Uuid = chips[i].event_id;
        assert(all.take(i + 1).drop_last() =~= all.take(i as int));
        assert(all.take(i + 1).last().event_id == id);
        if let Some((start, end)) = find_times(times, id) {
            let first: u32 = find_second(&start, day, 0);
            let last: u32 = find_second(&end, day, 86400);
            if last > first {
                out.push(Segment { place: i, event_id: id, start: first, end: last });
            }
        }
    }
    assert(all.take(all.len() as int) =~= all);
    out
}

/// The order of the parts of a day: by start, then by end, then by event.
pub open spec fn by_time() -> spec_fn(Segment, Segment) -> bool {
    |a: Segment, b: Segment|
        a.start < b.start || (a.start == b.start && (a.end < b.end || (a.end == b.end && a.event_id
            < b.event_id)))
}

impl Ranked for Segment {
    open spec fn order() -> spec_fn(Segment, Segment) -> bool {
        by_time()
    }

    fn comes_before(&self, other: &Segment) -> (r: bool) {
        self.start < other.start || (self.start == other.start && (self.end < other.end || (self.end
            == other.end && self.event_id < other.event_id)))
    }
}

// ---------------------------------------------------------------------------------------------
// Lanes
// ---------------------------------------------------------------------------------------------

/// The lanes of a day: where each ends so far, and which one each part is in.
pub struct Lanes {
    pub ends: Seq<u32>,
    pub lanes: Seq<int>,
}

/// The first lane from `i` on that has ended by a second; a new one where there is none.
pub open spec fn free_lane(ends: Seq<u32>, start: u32, i: int) -> int
    decreases ends.len() - i,
{
    if i >= ends.len() || ends[i] <= start {
        i
    } else {
        free_lane(ends, start, i + 1)
    }
}

/// The lanes after the parts of a list were put into them, each into the first that is free.
pub open spec fn lanes_of(segments: Seq<Segment>) -> Lanes
    decreases segments.len(),
{
    if segments.len() == 0 {
        Lanes { ends: seq![], lanes: seq![] }
    } else {
        let before = lanes_of(segments.drop_last());
        let segment = segments.last();
        let lane = free_lane(before.ends, segment.start, 0);
        Lanes {
            ends: if lane < before.ends.len() {
                before.ends.update(lane, segment.end)
            } else {
                before.ends.push(segment.end)
            },
            lanes: before.lanes.push(lane),
        }
    }
}

proof fn lemma_free_lane(ends: Seq<u32>, start: u32, i: int)
    requires
        0 <= i <= ends.len(),
    ensures
        i <= free_lane(ends, start, i) <= ends.len(),
        free_lane(ends, start, i) < ends.len() ==> ends[free_lane(ends, start, i)] <= start,
        forall|k: int| i <= k < free_lane(ends, start, i) ==> (#[trigger] ends[k]) > start,
    decreases ends.len() - i,
{
    if i < ends.len() && ends[i] > start {
        lemma_free_lane(ends, start, i + 1);
    }
}

/// An event on the grid of a week.
#[derive(Clone, Copy, Debug, PartialEq, Eq, Structural)]
pub struct TimedBlock {
    /// The place of the event among those of the day.
    pub place: usize,
    pub event_id: Uuid,
    pub start: u32,
    pub end: u32,
    pub lane: usize,
    pub lane_count: usize,
}

/// The parts of a day side by side, where they are given in order.
pub open spec fn blocks_of(segments: Seq<Segment>) -> Seq<TimedBlock> {
    let lanes = lanes_of(segments);
    Seq::new(
        segments.len(),
        |i: int|
            TimedBlock {
                place: segments[i].place,
                event_id: segments[i].event_id,
                start: segments[i].start,
                end: segments[i].end,
                lane: lanes.lanes[i] as usize,
                lane_count: (if lanes.ends.len() > 0 {
                    lanes.ends.len()
                } else {
                    1
                }) as usize,
            },
    )
}

/// Put parts into lanes.
fn put_into_lanes(segments: &Vec<Segment>) -> (r: (Vec<usize>, usize))
    ensures
        r.0@.len() == segments@.len(),
        lanes_of(segments@).lanes.len() == segments@.len(),
        forall|i: int|
            0 <= i < segments@.len() ==> #[trigger] r.0@[i] == lanes_of(segments@).lanes[i],
        r.1 == lanes_of(segments@).ends.len(),
{
    let mut ends: Vec<u32> = Vec::new();
    let mut lanes: Vec<usize> = Vec::new();
    assert(ends@ =~= lanes_of(segments@.take(0)).ends);
    for n in 0..segments.len()
        invariant
            ends@ == lanes_of(segments@.take(n as int)).ends,
            lanes@.len() == n,
            lanes_of(segments@.take(n as int)).lanes.len() == n,
            forall|i: int|
                0 <= i < n ==> #[trigger] lanes@[i] == lanes_of(segments@.take(n as int)).lanes[i],
    {
        let segment = segments[n];
        let ghost before = lanes_of(segments@.take(n as int));
        assert(segments@.take(n + 1).drop_last() =~= segments@.take(n as int));
        assert(segments@.take(n + 1).last() == segment);
        let mut lane: usize = 0;
        while lane < ends.len() && ends[lane] > segment.start
            invariant
                lane <= ends@.len(),
                free_lane(ends@, segment.start, lane as int) == free_lane(ends@, segment.start, 0),
            decreases ends@.len() - lane,
        {
            lane += 1;
        }
        assert(lane == free_lane(before.ends, segment.start, 0));
        if lane < ends.len() {
            ends.set(lane, segment.end);
        } else {
            ends.push(segment.end);
        }
        lanes.push(lane);
    }
    assert(segments@.take(segments@.len() as int) =~= segments@);
    (lanes, ends.len())
}

/// The events of a day side by side: those that overlap stand in different lanes, each in the first
/// that is free where it begins.
pub fn lay_out(chips: &Vec<EventChip>, times: &Vec<EventTimes>, day: &Date) -> (r: Vec<TimedBlock>)
    ensures
        r@ == blocks_of(
            sorting::sorted(segments_of(lists::views_of(chips@), times@, day@), by_time()),
        ),
{
    let found = find_segments(chips, times, day);
    assert(lists::views_of(found@) =~= found@);
    let segments = sorting::sort(found);
    assert(lists::views_of(segments@) =~= segments@);
    let (lanes, used): (Vec<usize>, usize) = put_into_lanes(&segments);
    let lane_count: usize = if used > 0 {
        used
    } else {
        1
    };
    let mut out: Vec<TimedBlock> = Vec::new();
    for i in 0..segments.len()
        invariant
            lanes@.len() == segments@.len(),
            forall|k: int|
                0 <= k < segments@.len() ==> #[trigger] lanes@[k] == lanes_of(
                    segments@,
                ).lanes[k],
            used == lanes_of(segments@).ends.len(),
            lane_count == (if used > 0 {
                used
            } else {
                1
            }),
            out@.len() == i,
            forall|k: int| 0 <= k < i ==> #[trigger] out@[k] == blocks_of(segments@)[k],
    {
        let segment = segments[i];
        out.push(
            TimedBlock {
                place: segment.place,
                event_id: segment.event_id,
                start: segment.start,
                end: segment.end,
                lane: lanes[i],
                lane_count,
            },
        );
    }
    assert(out@ =~= blocks_of(segments@));
    out
}

/// Whether every part of a list is longer than nothing.
pub open spec fn have_length(segments: Seq<Segment>) -> bool {
    forall|i: int| 0 <= i < segments.len() ==> (#[trigger] segments[i]).start < segments[i].end
}

/// Every part that lies on a day is longer than nothing.
pub proof fn lemma_segments_have_length(chips: Seq<ChipView>, times: Seq<EventTimes>, day: int)
    ensures
        have_length(segments_of(chips, times, day)),
    decreases chips.len(),
{
    if chips.len() > 0 {
        lemma_segments_have_length(chips.drop_last(), times, day);
        let found = times_of(times, chips.last().event_id);
        if let Some((start, end)) = found {
            let first = second_on(start@, day, 0);
            let last = second_on(end@, day, 86400);
            assert(0 <= first <= 86400 && 0 <= last <= 86400);
        }
    }
}

/// Two events of one lane do not overlap: the later one begins when the earlier one has ended.
pub proof fn law_lanes_do_not_overlap(segments: Seq<Segment>)
    requires
        have_length(segments),
    ensures
        lanes_of(segments).lanes.len() == segments.len(),
        forall|i: int|
            0 <= i < segments.len() ==> 0 <= (#[trigger] lanes_of(segments).lanes[i]) < lanes_of(
                segments,
            ).ends.len(),
        forall|i: int, j: int|
            #![trigger lanes_of(segments).lanes[i], lanes_of(segments).lanes[j]]
            0 <= i < j < segments.len() && lanes_of(segments).lanes[i] == lanes_of(
                segments,
            ).lanes[j] ==> segments[i].end <= segments[j].start,
{
    lemma_lanes(segments);
}

proof fn lemma_lanes(segments: Seq<Segment>)
    requires
        have_length(segments),
    ensures
        lanes_of(segments).lanes.len() == segments.len(),
        lanes_of(segments).ends.len() <= segments.len(),
        forall|i: int|
            0 <= i < segments.len() ==> 0 <= (#[trigger] lanes_of(segments).lanes[i]) < lanes_of(
                segments,
            ).ends.len(),
        forall|i: int|
            0 <= i < segments.len() ==> segments[i].end <= lanes_of(
                segments,
            ).ends[#[trigger] lanes_of(segments).lanes[i]],
        forall|i: int, j: int|
            #![trigger lanes_of(segments).lanes[i], lanes_of(segments).lanes[j]]
            0 <= i < j < segments.len() && lanes_of(segments).lanes[i] == lanes_of(
                segments,
            ).lanes[j] ==> segments[i].end <= segments[j].start,
    decreases segments.len(),
{
    if segments.len() > 0 {
        let rest = segments.drop_last();
        assert forall|i: int| 0 <= i < rest.len() implies (#[trigger] rest[i]).start
            < rest[i].end by {
            assert(rest[i] == segments[i]);
        }
        lemma_lanes(rest);
        let before = lanes_of(rest);
        let after = lanes_of(segments);
        let segment = segments.last();
        let n = segments.len() - 1;
        lemma_free_lane(before.ends, segment.start, 0);
        let lane = free_lane(before.ends, segment.start, 0);
        assert(segment == segments[n]);
        assert(after.lanes[n] == lane);
        assert forall|i: int| 0 <= i < n implies after.lanes[i] == before.lanes[i] && segments[i]
            == rest[i] by {}
        assert forall|i: int| 0 <= i < segments.len() implies segments[i].end
            <= after.ends[#[trigger] after.lanes[i]] by {
            if i < n {
                assert(rest[i].end <= before.ends[before.lanes[i]]);
            }
        }
        assert forall|i: int, j: int|
            #![trigger after.lanes[i], after.lanes[j]]
            0 <= i < j < segments.len() && after.lanes[i] == after.lanes[j] implies segments[i].end
            <= segments[j].start by {
            if j < n {
                assert(before.lanes[i] == before.lanes[j]);
                assert(rest[i].end <= rest[j].start);
            } else {
                assert(rest[i].end <= before.ends[before.lanes[i]]);
            }
        }
    }
}

/// Whether a list names, for each lane of a day, a part in it that is there at a second.
pub open spec fn fill_the_lanes(segments: Seq<Segment>, places: Seq<int>, second: int) -> bool {
    &&& places.len() == lanes_of(segments).ends.len()
    &&& forall|l: int|
        0 <= l < places.len() ==> 0 <= (#[trigger] places[l]) < segments.len()
            && lanes_of(segments).lanes[places[l]] == l && segments[places[l]].start <= second
            < segments[places[l]].end
}

/// There are no more lanes than events at some one time.
pub proof fn law_lanes_are_needed(segments: Seq<Segment>)
    requires
        have_length(segments),
        sorting::is_sorted(segments, by_time()),
    ensures
        exists|places: Seq<int>, second: int| fill_the_lanes(segments, places, second),
    decreases segments.len(),
{
    if segments.len() == 0 {
        assert(fill_the_lanes(segments, seq![], 0));
    } else {
        let rest = segments.drop_last();
        assert forall|i: int| 0 <= i < rest.len() implies (#[trigger] rest[i]).start
            < rest[i].end by {
            assert(rest[i] == segments[i]);
        }
        lemma_lanes(rest);
        assert forall|i: int, j: int| 0 <= i < j < rest.len() implies !(by_time())(
            #[trigger] rest[j],
            #[trigger] rest[i],
        ) by {
            assert(!(by_time())(segments[j], segments[i]));
        }
        let before = lanes_of(rest);
        let after = lanes_of(segments);
        let n = segments.len() - 1;
        let segment = segments[n];
        lemma_free_lane(before.ends, segment.start, 0);
        let lane = free_lane(before.ends, segment.start, 0);
        if lane < before.ends.len() {
            law_lanes_are_needed(rest);
            let (places, second) = choose|places: Seq<int>, second: int|
                fill_the_lanes(rest, places, second);
            assert forall|l: int| 0 <= l < places.len() implies 0 <= (#[trigger] places[l])
                < segments.len() && after.lanes[places[l]] == l && segments[places[l]].start
                <= second < segments[places[l]].end by {
                assert(rest[places[l]] == segments[places[l]]);
            }
            assert(fill_the_lanes(segments, places, second));
        } else {
            lemma_last_of_lanes(rest);
            let lasts = choose|lasts: Seq<int>| end_the_lanes(rest, lasts);
            let places = lasts.push(n);
            let second = segment.start as int;
            assert forall|l: int| 0 <= l < places.len() implies 0 <= (#[trigger] places[l])
                < segments.len() && after.lanes[places[l]] == l && segments[places[l]].start
                <= second < segments[places[l]].end by {
                if l < lasts.len() {
                    let i = lasts[l];
                    assert(rest[i] == segments[i]);
                    assert(before.ends[l] > segment.start);
                    assert(!(by_time())(segments[n], segments[i]));
                }
            }
            assert(fill_the_lanes(segments, places, second));
        }
    }
}

/// Whether a list names, for each lane of a day, the part with which it ends so far.
pub open spec fn end_the_lanes(segments: Seq<Segment>, lasts: Seq<int>) -> bool {
    &&& lasts.len() == lanes_of(segments).ends.len()
    &&& forall|l: int|
        0 <= l < lasts.len() ==> 0 <= (#[trigger] lasts[l]) < segments.len() && lanes_of(
            segments,
        ).lanes[lasts[l]] == l && segments[lasts[l]].end == lanes_of(segments).ends[l]
}

proof fn lemma_last_of_lanes(segments: Seq<Segment>)
    requires
        have_length(segments),
    ensures
        exists|lasts: Seq<int>| end_the_lanes(segments, lasts),
    decreases segments.len(),
{
    if segments.len() == 0 {
        assert(end_the_lanes(segments, seq![]));
    } else {
        let rest = segments.drop_last();
        assert forall|i: int| 0 <= i < rest.len() implies (#[trigger] rest[i]).start
            < rest[i].end by {
            assert(rest[i] == segments[i]);
        }
        lemma_lanes(rest);
        lemma_last_of_lanes(rest);
        let before = lanes_of(rest);
        let after = lanes_of(segments);
        let n = segments.len() - 1;
        let lasts = choose|lasts: Seq<int>| end_the_lanes(rest, lasts);
        lemma_free_lane(before.ends, segments[n].start, 0);
        let lane = free_lane(before.ends, segments[n].start, 0);
        let now = if lane < lasts.len() {
            lasts.update(lane, n)
        } else {
            lasts.push(n)
        };
        assert forall|l: int| 0 <= l < now.len() implies 0 <= (#[trigger] now[l]) < segments.len()
            && after.lanes[now[l]] == l && segments[now[l]].end == after.ends[l] by {
            if l != lane {
                assert(now[l] == lasts[l]);
                assert(rest[lasts[l]] == segments[lasts[l]]);
            }
        }
        assert(end_the_lanes(segments, now));
    }
}

/// The order of the parts of a day is one.
proof fn lemma_by_time_is_order()
    ensures
        sorting::is_order(by_time()),
{
}

/// The events of a day are laid out without overlap, in no more lanes than there are events at some
/// one time.
pub proof fn law_day_is_laid_out(chips: Seq<ChipView>, times: Seq<EventTimes>, day: int)
    ensures
        ({
            let segments = sorting::sorted(segments_of(chips, times, day), by_time());
            &&& forall|i: int, j: int|
                #![trigger lanes_of(segments).lanes[i], lanes_of(segments).lanes[j]]
                0 <= i < j < segments.len() && lanes_of(segments).lanes[i] == lanes_of(
                    segments,
                ).lanes[j] ==> segments[i].end <= segments[j].start
            &&& exists|places: Seq<int>, second: int| fill_the_lanes(segments, places, second)
        }),
{
    let found = segments_of(chips, times, day);
    let segments = sorting::sorted(found, by_time());
    lemma_by_time_is_order();
    lemma_segments_have_length(chips, times, day);
    sorting::law_sorted(found, by_time());
    assert forall|i: int| 0 <= i < segments.len() implies (#[trigger] segments[i]).start
        < segments[i].end by {
        assert(segments.contains(segments[i]));
        assert(found.contains(segments[i]));
    }
    law_lanes_do_not_overlap(segments);
    law_lanes_are_needed(segments);
}

// ---------------------------------------------------------------------------------------------
// Headings
// ---------------------------------------------------------------------------------------------

/// An hour of the day, such as `9 AM`.
pub open spec fn hour_text(hour: int) -> Seq<char> {
    if hour == 0 {
        "12 AM"@
    } else if hour < 12 {
        text::decimal(hour as nat) + " AM"@
    } else if hour == 12 {
        "12 PM"@
    } else {
        text::decimal((hour - 12) as nat) + " PM"@
    }
}

/// An hour of the day.
pub fn format_hour(hour: u32) -> (r: String)
    ensures
        r@ == hour_text(hour as int),
{
    if hour == 0 {
        String::from_str("12 AM")
    } else if hour < 12 {
        text::joined(text::decimal_text(hour as u64).as_str(), " AM")
    } else if hour == 12 {
        String::from_str("12 PM")
    } else {
        text::joined(text::decimal_text((hour - 12) as u64).as_str(), " PM")
    }
}

/// The heading of a column, Monday being the first.
pub open spec fn column_heading(index: int) -> Seq<char> {
    if index == 0 {
        "MON"@
    } else if index == 1 {
        "TUE"@
    } else if index == 2 {
        "WED"@
    } else if index == 3 {
        "THU"@
    } else if index == 4 {
        "FRI"@
    } else if index == 5 {
        "SAT"@
    } else {
        "SUN"@
    }
}

/// The heading of a column.
pub fn weekday_name(index: usize) -> (r: &'static str)
    requires
        index < 7,
    ensures
        r@ == column_heading(index as int),
{
    match index {
        0 => "MON",
        1 => "TUE",
        2 => "WED",
        3 => "THU",
        4 => "FRI",
        5 => "SAT",
        _ => "SUN",
    }
}

// ---------------------------------------------------------------------------------------------
// Scrolling to the current time
// ---------------------------------------------------------------------------------------------

/// The week that is shown, and whether to scroll to the current time.
#[derive(Clone, Copy, Debug, PartialEq, Eq, Structural)]
pub struct WeekPane {
    pub active_date: Date,
    pub today: Date,
    /// Whether the pane has not been scrolled to the current time yet.
    pub eligible: bool,
    pub pending: bool,
}

/// Whether a day lies in the week of another.
pub open spec fn same_week(day: int, other: int) -> bool {
    month_view::monday_of(day) == month_view::monday_of(other)
}

impl WeekPane {
    /// Whether the week that is shown contains a date.
    pub fn week_contains(&self, date: &Date) -> (r: bool)
        ensures
            r == same_week(self.active_date@, date@),
    {
        let shown: i64 = self.active_date.days() as i64 - self.active_date.days_from_monday() as i64;
        let other: i64 = date.days() as i64 - date.days_from_monday() as i64;
        shown == other
    }

    /// The pane once it was asked to scroll: it scrolls once, while it is on screen and shows the
    /// current week.
    pub open spec fn requested(self, mapped: bool) -> WeekPane {
        if self.eligible && mapped && same_week(self.active_date@, self.today@) {
            WeekPane { eligible: false, pending: true, ..self }
        } else {
            self
        }
    }

    /// Ask to scroll to the current time.
    pub fn request_initial_scroll(&mut self, mapped: bool)
        ensures
            *final(self) == old(self).requested(mapped),
    {
        if self.eligible && mapped && self.week_contains(&self.today) {
            self.eligible = false;
            self.pending = true;
        }
    }

    /// Show the week of another date: scroll where the current week comes into view, and no longer
    /// where it is out of view.
    pub fn set_active_date(&mut self, date: Date, mapped: bool)
        ensures
            *final(self) == ({
                let shown = WeekPane { active_date: date, ..*old(self) };
                if !same_week(date@, old(self).today@) {
                    WeekPane { pending: false, ..shown }
                } else if !same_week(old(self).active_date@, old(self).today@) {
                    shown.requested(mapped)
                } else {
                    shown
                }
            }),
    {
        let was_current = self.week_contains(&self.today);
        self.active_date = date;
        let is_current = self.week_contains(&self.today);
        if is_current && !was_current {
            self.request_initial_scroll(mapped);
        } else if !is_current {
            self.pending = false;
        }
    }

    /// The clock shows a date: where it is another than before, scroll to it or no longer scroll.
    pub fn refresh_clock(&mut self, today: Date, mapped: bool)
        ensures
            *final(self) == ({
                let shown = WeekPane { today, ..*old(self) };
                if today@ == old(self).today@ {
                    shown
                } else if same_week(old(self).active_date@, today@) {
                    shown.requested(mapped)
                } else {
                    WeekPane { pending: false, ..shown }
                }
            }),
    {
        let changed = !self.today.same(&today);
        self.today = today;
        if changed {
            if self.week_contains(&today) {
                self.request_initial_scroll(mapped);
            } else {
                self.pending = false;
            }
        }
    }
}

/// The microseconds up to the next minute, at least a thousandth of a second.
pub open spec fn tick_delay(second: int, nanos: int) -> int {
    let left = 60000000 - (second * 1000000 + nanos / 1000);
    if left < 1000 {
        1000
    } else {
        left
    }
}

/// The microseconds after which a clock that shows minutes is to be looked at again.
pub fn next_tick(second: u32, nanos: u32) -> (r: u64)
    requires
        second < 60,
    ensures
        r == tick_delay(second as int, nanos as int),
{
    let elapsed: u64 = second as u64 * 1000000 + nanos as u64 / 1000;
    if elapsed >= 60000000 || 60000000 - elapsed < 1000 {
        1000
    } else {
        60000000 - elapsed
    }
}

/// The part of an event on a day covers just the seconds of the day that the event lasts through.
pub proof fn law_part_of_a_day(place: usize, id: Uuid, start: DateTime, end: DateTime, day: int, second: int)
    requires
        start@.local_day() <= day <= end@.local_day(),
        0 <= second < 86400,
    ensures
        ({
            let from = start@.local_day() * 86400 + start@.local_second();
            let to = end@.local_day() * 86400 + end@.local_second();
            let lasts = from <= day * 86400 + second < to;
            match segment_of(place as int, id, Some((start, end)), day) {
                Some(segment) => segment.place == place && segment.event_id == id && (lasts
                    <==> segment.start <= second < segment.end),
                None => !lasts,
            }
        }),
        segment_of(place as int, id, None, day) is None,
{
    date::law_what_clocks_show(start@);
    date::law_what_clocks_show(end@);
    assert(0 <= start@.local_second() < 86400 && 0 <= end@.local_second() < 86400);
    assert(start@.local_day() < day ==> start@.local_day() * 86400 + 86400 <= day * 86400);
    assert(day < end@.local_day() ==> day * 86400 + 86400 <= end@.local_day() * 86400);
}

/// Every event with a part on the day has its part laid out, and nothing else is.
pub proof fn law_parts_of_a_day(chips: Seq<ChipView>, times: Seq<EventTimes>, day: int, segment: Segment)
    ensures
        segments_of(chips, times, day).contains(segment) <==> exists|i: int|
            0 <= i < chips.len() && segment_of(
                i,
                #[trigger] chips[i].event_id,
                times_of(times, chips[i].event_id),
                day,
            ) == Some(segment),
    decreases chips.len(),
{
    let out = segments_of(chips, times, day);
    if chips.len() > 0 {
        let shorter = chips.drop_last();
        let before = segments_of(shorter, times, day);
        law_parts_of_a_day(shorter, times, day, segment);
        let last = chips.len() - 1;
        let of_last = segment_of(last, chips[last].event_id, times_of(times, chips[last].event_id), day);
        if out.contains(segment) {
            let k = choose|k: int| 0 <= k < out.len() && out[k] == segment;
            if k < before.len() {
                assert(before[k] == segment);
                assert(before.contains(segment));
                let i = choose|i: int|
                    0 <= i < shorter.len() && segment_of(
                        i,
                        #[trigger] shorter[i].event_id,
                        times_of(times, shorter[i].event_id),
                        day,
                    ) == Some(segment);
                assert(chips[i].event_id == shorter[i].event_id);
            } else {
                assert(of_last == Some(segment));
            }
        }
        if exists|i: int|
            0 <= i < chips.len() && segment_of(
                i,
                #[trigger] chips[i].event_id,
                times_of(times, chips[i].event_id),
                day,
            ) == Some(segment) {
            let i = choose|i: int|
                0 <= i < chips.len() && segment_of(
                    i,
                    #[trigger] chips[i].event_id,
                    times_of(times, chips[i].event_id),
                    day,
                ) == Some(segment);
            if i < last {
                assert(shorter[i].event_id == chips[i].event_id);
                let k = choose|k: int| 0 <= k < before.len() && before[k] == segment;
                assert(out[k] == segment);
            } else {
                assert(out == before.push(segment));
                assert(out[before.len() as int] == segment);
            }
        }
    }
}

/// The times of an event are those listed last for it.
pub proof fn law_times_listed_last(all: Seq<EventTimes>, id: Uuid, i: int)
    requires
        0 <= i < all.len(),
        all[i].event_id == id,
        forall|k: int| i < k < all.len() ==> (#[trigger] all[k]).event_id != id,
    ensures
        times_of(all, id) == all[i].times,
    decreases all.len(),
{
    if i < all.len() - 1 {
        assert(all[all.len() - 1].event_id != id);
        let shorter = all.drop_last();
        assert(shorter[i] == all[i]);
        assert forall|k: int| i < k < shorter.len() implies (#[trigger] shorter[k]).event_id != id by {
            assert(all[k].event_id != id);
        }
        law_times_listed_last(shorter, id, i);
    }
}

/// Parts are laid out from the earliest start on; of those with one start the one that ends first is
/// first, and of those with the same times the one with the lesser identifier.
pub proof fn law_order_of_parts(a: Segment, b: Segment)
    ensures
        a.start < b.start ==> by_time()(a, b) && !by_time()(b, a),
        a.start == b.start && a.end < b.end ==> by_time()(a, b) && !by_time()(b, a),
        a.start == b.start && a.end == b.end ==> (by_time()(a, b) <==> a.event_id < b.event_id),
{
}

/// Blocks that overlap in time stand in different lanes, and all blocks share the same number of lanes.
pub proof fn law_blocks_stand_side_by_side(segments: Seq<Segment>, i: int, j: int)
    requires
        have_length(segments),
        segments.len() <= usize::MAX,
        0 <= i < j < segments.len(),
    ensures
        blocks_of(segments).len() == segments.len(),
        blocks_of(segments)[i].lane < blocks_of(segments)[i].lane_count,
        blocks_of(segments)[i].lane_count == blocks_of(segments)[j].lane_count,
        segments[i].end > segments[j].start ==> blocks_of(segments)[i].lane != blocks_of(segments)[j].lane,
        blocks_of(segments)[i].start == segments[i].start,
        blocks_of(segments)[i].end == segments[i].end,
        blocks_of(segments)[i].place == segments[i].place,
        blocks_of(segments)[i].event_id == segments[i].event_id,
{
    law_lanes_do_not_overlap(segments);
    lemma_lanes(segments);
    let lanes = lanes_of(segments);
    assert(0 <= lanes.lanes[i] < lanes.ends.len() && 0 <= lanes.lanes[j] < lanes.ends.len());
}

/// An hour is named by a number from one to twelve and the half of the day that it lies in.
pub proof fn law_names_of_hours(hour: int)
    requires
        0 <= hour < 24,
    ensures
        exists|shown: nat|
            1 <= shown <= 12 && shown % 12 == hour % 12 && hour_text(hour) == #[trigger] text::decimal(shown)
                + (if hour < 12 {
                " AM"@
            } else {
                " PM"@
            }),
{
    reveal_strlit("12 AM");
    reveal_strlit("12 PM");
    reveal_strlit(" AM");
    reveal_strlit(" PM");
    reveal_with_fuel(text::decimal, 3);
    assert(text::decimal(12) =~= seq!['1', '2']);
    assert(text::decimal(12) + " AM"@ =~= "12 AM"@);
    assert(text::decimal(12) + " PM"@ =~= "12 PM"@);
    let shown: nat = if hour % 12 == 0 {
        12
    } else {
        (hour % 12) as nat
    };
    let half = if hour < 12 {
        " AM"@
    } else {
        " PM"@
    };
    assert(hour_text(hour) == text::decimal(shown) + half);
}

/// The heading of a column is the name of its day of the week, which begins on Monday, in three capital
/// letters.
pub proof fn law_headings_of_columns(index: int)
    requires
        0 <= index < 7,
    ensures
        column_heading(index) == text::upper(crate::ui::names::weekday_letters(index)),
{
    reveal_strlit("MON");
    reveal_strlit("TUE");
    reveal_strlit("WED");
    reveal_strlit("THU");
    reveal_strlit("FRI");
    reveal_strlit("SAT");
    reveal_strlit("SUN");
    reveal_strlit("Mon");
    reveal_strlit("Tue");
    reveal_strlit("Wed");
    reveal_strlit("Thu");
    reveal_strlit("Fri");
    reveal_strlit("Sat");
    reveal_strlit("Sun");
    assert(column_heading(index) =~= text::upper(crate::ui::names::weekday_letters(index)));
}

/// The clock is looked at again when the next minute begins, or a millisecond from now where it begins
/// sooner than that.
pub proof fn law_next_minute(second: int, nanos: int)
    requires
        0 <= second < 60,
        0 <= nanos < 1000000000,
    ensures
        ({
            let now = second * 1000000 + nanos / 1000;
            &&& now <= 59999000 ==> now + tick_delay(second, nanos) == 60000000
            &&& now > 59999000 ==> tick_delay(second, nanos) == 1000
        }),
{
}

/// The pane is scrolled to the current time once, when it is there to be seen and shows the week of
/// today.
pub proof fn law_scrolled_once(pane: WeekPane, mapped: bool)
    ensures
        ({
            let after = pane.requested(mapped);
            let wanted = pane.eligible && mapped && month_view::monday_of(pane.active_date@)
                == month_view::monday_of(pane.today@);
            &&& wanted ==> after.pending && !after.eligible
            &&& !wanted ==> after == pane
            &&& after.active_date == pane.active_date && after.today == pane.today
            &&& wanted ==> after.requested(mapped) == after
        }),
{
}

} // verus!
