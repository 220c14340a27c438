//! Lists of calendars to choose from.
use vstd::prelude::*;

use crate::lines;
use crate::lists;
use crate::model::{Calendar, CalendarView, Uuid};
use crate::sorting;
use crate::sorting::Ranked;
use crate::text;

verus! {

/// The order of calendars: by name, then by identifier.
pub open spec fn by_name() -> spec_fn(CalendarView, CalendarView) -> bool {
    |a: CalendarView, b: CalendarView|
        text::text_before(a.name, b.name) || (a.name == b.name && a.id < b.id)
}

impl Ranked for Calendar {
    open spec fn order() -> spec_fn(CalendarView, CalendarView) -> bool {
        by_name()
    }

    fn comes_before(&self, other: &Calendar) -> (r: bool) {
        if text::text_less(self.name.as_str(), other.name.as_str()) {
            return true;
        }
        text::same_text(self.name.as_str(), other.name.as_str()) && self.id < other.id
    }
}

/// Which calendars a list offers.
#[derive(Clone, Copy, Debug, PartialEq, Eq, Structural)]
pub enum CalendarChoice {
    All,
    /// Those that can be changed.
    Writable,
    /// Those that can be changed and are shown.
    VisibleWritable,
}

/// Whether a list offers a calendar.
pub open spec fn offers(choice: CalendarChoice) -> spec_fn(CalendarView) -> bool {
    |calendar: CalendarView|
        match choice {
            CalendarChoice::All => true,
            CalendarChoice::Writable => !calendar.read_only,
            CalendarChoice::VisibleWritable => calendar.visible && !calendar.read_only,
        }
}

/// The calendars that a list offers, in order.
pub open spec fn offered(choice: CalendarChoice, calendars: Seq<CalendarView>) -> Seq<CalendarView> {
    sorting::sorted(calendars.filter(offers(choice)), by_name())
}

/// The calendars that a list offers, in order.
pub fn set_calendars(choice: CalendarChoice, calendars: &Vec<Calendar>) -> (r: Vec<Calendar>)
    ensures
        lists::views_of(r@) == offered(choice, lists::views_of(calendars@)),
{
    let ghost all = lists::views_of(calendars@);
    let mut kept: Vec<Calendar> = Vec::new();
    proof {
        reveal(Seq::filter);
        assert(lists::views_of(kept@) =~= all.take(0).filter(offers(choice)));
    }
    for i in 0..calendars.len()
        invariant
            all == lists::views_of(calendars@),
            lists::views_of(kept@) == all.take(i as int).filter(offers(choice)),
    {
        let calendar = &calendars[i];
        proof {
            assert(all.take(i + 1) =~= all.take(i as int).push(calendar@));
            lines::lemma_filter_push(all.take(i as int), calendar@, offers(choice));
        }
        let keeps = match choice {
            CalendarChoice::All => true,
            CalendarChoice::Writable => !calendar.read_only,
            CalendarChoice::VisibleWritable => calendar.visible && !calendar.read_only,
        };
        if keeps {
            let ghost before = kept@;
            kept.push(calendar.clone());
            proof {
                lists::lemma_views_push(before, kept@.last());
            }
        }
    }
    assert(all.take(all.len() as int) =~= all);
    sorting::sort(kept)
}

/// The order of calendars is one.
pub proof fn lemma_by_name_is_order()
    ensures
        sorting::is_order(by_name()),
{
    assert forall|a: CalendarView, b: CalendarView, c: CalendarView|
        #![trigger (by_name())(a, b), (by_name())(b, c)]
        !(by_name())(a, b) && !(by_name())(b, c) implies !(by_name())(a, c) by {
        text::lemma_text_order(a.name, b.name);
        text::lemma_text_order(b.name, c.name);
        text::lemma_text_order(a.name, c.name);
        if text::text_before(a.name, c.name) {
            if text::text_before(b.name, a.name) {
                text::lemma_text_order_transitive(b.name, a.name, c.name);
            }
            if text::text_before(c.name, b.name) {
                text::lemma_text_order_transitive(a.name, c.name, b.name);
            }
        }
    }
    assert forall|a: CalendarView, b: CalendarView| #[trigger]
        (by_name())(a, b) implies !(by_name())(b, a) by {
        text::lemma_text_order(a.name, b.name);
    }
}

/// What a list offers stands in order.
pub proof fn law_offered_in_order(choice: CalendarChoice, calendars: Seq<CalendarView>)
    ensures
        sorting::is_sorted(offered(choice, calendars), by_name()),
        offered(choice, calendars).to_multiset() == calendars.filter(offers(choice)).to_multiset(),
{
    lemma_by_name_is_order();
    sorting::law_sorted(calendars.filter(offers(choice)), by_name());
}

/// The calendar that a list selects at first: the first of it.
pub fn preselected(calendars: &Vec<Calendar>) -> (r: Option<Uuid>)
    ensures
        r == (if calendars@.len() > 0 {
            Some(calendars@[0]@.id)
        } else {
            None
        }),
{
    if calendars.len() > 0 {
        Some(calendars[0].id)
    } else {
        None
    }
}

/// The place of the first calendar with an identifier in a list.
pub fn select_calendar(calendars: &Vec<Calendar>, id: Uuid) -> (r: Option<usize>)
    ensures
        match r {
            Some(i) => i < calendars@.len() && calendars@[i as int]@.id == id && forall|k: int|
                0 <= k < i ==> (#[trigger] calendars@[k])@.id != id,
            None => forall|k: int| 0 <= k < calendars@.len() ==> (#[trigger] calendars@[k])@.id != id,
        },
{
    for i in 0..calendars.len()
        invariant
            forall|k: int| 0 <= k < i ==> (#[trigger] calendars@[k])@.id != id,
    {
        if calendars[i].id == id {
            return Some(i);
        }
    }
    None
}

// ---------------------------------------------------------------------------------------------
// A row of a list
// ---------------------------------------------------------------------------------------------

/// What a row says of a calendar.
pub open spec fn row_tooltip(name: Seq<char>, visible: bool) -> Seq<char> {
    name + " calendar — "@ + (if visible {
        "visible"@
    } else {
        "hidden"@
    })
}

/// What a row says of a calendar.
pub fn tooltip(name: &str, visible: bool) -> (r: String)
    ensures
        r@ == row_tooltip(name@, visible),
{
    let mut out = text::joined(name, " calendar — ");
    if visible {
        out.append("visible");
    } else {
        out.append("hidden");
    }
    assert(out@ =~= row_tooltip(name@, visible));
    out
}

/// Whether a calendar is shown after its row was pressed, where the change was accepted or not.
pub fn toggled(visible: bool, accepted: bool) -> (r: bool)
    ensures
        r == (if accepted {
            !visible
        } else {
            visible
        }),
{
    if accepted {
        !visible
    } else {
        visible
    }
}

/// The calendars that are offered: all of them, those that can be changed, or those that can be changed
/// and are shown; in the order of their names.
pub proof fn law_calendars_to_choose(choice: CalendarChoice, calendars: Seq<CalendarView>, calendar: CalendarView)
    ensures
        offered(choice, calendars).contains(calendar) <==> calendars.contains(calendar) && (choice
            == CalendarChoice::All || (choice == CalendarChoice::Writable && !calendar.read_only) || (
        choice == CalendarChoice::VisibleWritable && !calendar.read_only && calendar.visible)),
        forall|i: int, j: int|
            #![trigger offered(choice, calendars)[i], offered(choice, calendars)[j]]
            0 <= i < j < offered(choice, calendars).len() ==> offered(choice, calendars)[i].name
                == offered(choice, calendars)[j].name || !text::text_before(
                offered(choice, calendars)[j].name,
                offered(choice, calendars)[i].name,
            ),
{
    law_offered_in_order(choice, calendars);
    let kept = calendars.filter(offers(choice));
    let out = offered(choice, calendars);
    broadcast use vstd::seq_lib::group_to_multiset_ensures;

    assert(out.contains(calendar) <==> kept.contains(calendar)) by {
        assert(out.contains(calendar) <==> out.to_multiset().count(calendar) > 0);
        assert(kept.contains(calendar) <==> kept.to_multiset().count(calendar) > 0);
    }
    if kept.contains(calendar) {
        calendars.lemma_filter_contains_rev(offers(choice), calendar);
    }
    if calendars.contains(calendar) && offers(choice)(calendar) {
        let i = choose|i: int| 0 <= i < calendars.len() && calendars[i] == calendar;
        calendars.lemma_filter_contains(offers(choice), i);
    }
}

/// What is said of a calendar in the list: its name, and whether it is shown.
pub proof fn law_what_is_said_of_a_calendar(name: Seq<char>)
    ensures
        row_tooltip(name, true) == name + " calendar — visible"@,
        row_tooltip(name, false) == name + " calendar — hidden"@,
{
    reveal_strlit(" calendar — ");
    reveal_strlit("visible");
    reveal_strlit("hidden");
    reveal_strlit(" calendar — visible");
    reveal_strlit(" calendar — hidden");
    assert(row_tooltip(name, true) =~= name + " calendar — visible"@);
    assert(row_tooltip(name, false) =~= name + " calendar — hidden"@);
}

} // verus!
