//! Setting up accounts and calendars.
use vstd::prelude::*;

use crate::backend::caldav::{CaldavDiscovery, DiscoveredCalendar, DiscoveredView};
use crate::backend::store;
use crate::backend::store::{StoreView, StoreWrite, WriteView};
use crate::backend::urls;
use crate::backend::RepositoryError;
use crate::lists;
use crate::model;
use crate::model::{Account, AccountView, Calendar, CalendarSource, CalendarSyncState, CalendarSyncView, CalendarView, Uuid};
use crate::text;

verus! {

/// The name of a calendar that a server offers: what the server calls it, trimmed, or a name for
/// any.
pub open spec fn discovered_name(display_name: Option<Seq<char>>) -> Seq<char> {
    match display_name {
        Some(name) => if text::trimmed(name).len() > 0 {
            text::trimmed(name)
        } else {
            "CalDAV Calendar"@
        },
        None => "CalDAV Calendar"@,
    }
}

/// The name of a calendar that a server offers.
pub fn discovered_calendar_name(discovered: &DiscoveredCalendar) -> (r: String)
    ensures
        r@ == discovered_name(discovered@.display_name),
{
    if let Some(name) = &discovered.display_name {
        let trimmed = text::trim_chars(&text::chars_of(name.as_str()));
        if trimmed.len() > 0 {
            return text::string_of(&trimmed);
        }
    }
    "CalDAV Calendar".to_owned()
}

/// A text without one hash sign before it.
pub open spec fn without_hash(value: Seq<char>) -> Seq<char> {
    if value.len() > 0 && value[0] == '#' {
        value.skip(1)
    } else {
        value
    }
}

/// Whether a text is a colour in hexadecimal digits, with or without its opacity.
pub open spec fn is_color_digits(value: Seq<char>) -> bool {
    (value.len() == 6 || value.len() == 8) && forall|i: int|
        0 <= i < value.len() ==> text::is_hex_digit(#[trigger] value[i])
}

/// The colour of a calendar that a server offers: a hash sign and six small digits, without any
/// opacity; blue where the server gives none that can be read.
pub open spec fn discovered_color(color: Option<Seq<char>>) -> Seq<char> {
    match color {
        Some(color) => {
            let value = without_hash(text::trimmed(color));
            if is_color_digits(value) {
                seq!['#'] + text::lower(value.take(6))
            } else {
                "#3584e4"@
            }
        },
        None => "#3584e4"@,
    }
}

/// Whether all characters of a text are hexadecimal digits.
fn all_hex(value: &Vec<char>) -> (r: bool)
    ensures
        r == (forall|i: int| 0 <= i < value@.len() ==> text::is_hex_digit(#[trigger] value@[i])),
{
    for i in 0..value.len()
        invariant
            forall|k: int| 0 <= k < i ==> text::is_hex_digit(#[trigger] value@[k]),
    {
        if !text::hex_digit(value[i]) {
            return false;
        }
    }
    true
}

/// The colour of a calendar that a server offers.
pub fn normalize_discovered_color(color: &Option<String>) -> (r: String)
    ensures
        r@ == discovered_color(model::text_view(*color)),
{
    if let Some(color) = color {
        let trimmed = text::trim_chars(&text::chars_of(color.as_str()));
        let from: usize = if trimmed.len() > 0 && trimmed[0] == '#' {
            1
        } else {
            0
        };
        let value = text::slice(&trimmed, from, trimmed.len());
        assert(value@ =~= without_hash(trimmed@));
        if (value.len() == 6 || value.len() == 8) && all_hex(&value) {
            let digits = text::lower_chars(&text::slice(&value, 0, 6));
            assert(value@.subrange(0, 6) =~= value@.take(6));
            let mut out = String::new();
            out.push('#');
            let r = text::joined(out.as_str(), text::string_of(&digits).as_str());
            assert(r@ =~= seq!['#'] + text::lower(value@.take(6)));
            return r;
        }
    }
    "#3584e4".to_owned()
}

// ---------------------------------------------------------------------------------------------
// A remote account
// ---------------------------------------------------------------------------------------------

/// Whether no two calendars of a list have the same address.
pub open spec fn have_distinct_hrefs(calendars: Seq<DiscoveredView>) -> bool {
    forall|i: int, j: int|
        0 <= i < j < calendars.len() ==> (#[trigger] calendars[i]).href != (
        #[trigger] calendars[j]).href
}

/// Whether the calendars that a server offers can be set up: each has an address for HTTP requests,
/// and no two the same.
pub open spec fn can_provision(calendars: Seq<DiscoveredView>) -> bool {
    &&& forall|i: int| 0 <= i < calendars.len() ==> urls::is_http((#[trigger] calendars[i]).href)
    &&& have_distinct_hrefs(calendars)
}

/// Whether the calendars that a server offers can be set up.
fn check_provision(calendars: &Vec<DiscoveredCalendar>) -> (r: bool)
    ensures
        r == can_provision(lists::views_of(calendars@)),
{
    let ghost all = lists::views_of(calendars@);
    for i in 0..calendars.len()
        invariant
            all == lists::views_of(calendars@),
            forall|k: int| 0 <= k < i ==> urls::is_http((#[trigger] all[k]).href),
            forall|a: int, b: int|
                0 <= a < b < i ==> (#[trigger] all[a]).href != (#[trigger] all[b]).href,
    {
        assert(all[i as int] == calendars@[i as int]@);
        if !urls::is_http_url(calendars[i].href.as_str()) {
            return false;
        }
        for j in 0..i
            invariant
                all == lists::views_of(calendars@),
                i < calendars@.len(),
                all[i as int] == calendars@[i as int]@,
                forall|k: int| 0 <= k < j ==> (#[trigger] all[k]).href != all[i as int].href,
        {
            assert(all[j as int] == calendars@[j as int]@);
            if text::same_text(calendars[j].href.as_str(), calendars[i].href.as_str()) {
                assert(all[j as int].href == all[i as int].href);
                return false;
            }
        }
    }
    true
}

/// What is known of a calendar before it is set up: its identifier and whether it is shown, where
/// it was set up before, or a new identifier.
#[derive(Clone, Copy, Debug)]
pub struct Slot {
    /// The calendar that stands for the same address, where there is one.
    pub existing: Option<(Uuid, bool)>,
    /// The identifier of a new calendar.
    pub fresh_id: Uuid,
}

/// The calendar that stands for one that a server offers. A new one is shown; one that was set up
/// before stays shown or hidden.
pub open spec fn provisioned_calendar(account_id: Uuid, discovered: DiscoveredView, slot: Slot) -> CalendarView {
    let (id, visible) = match slot.existing {
        Some(existing) => existing,
        None => (slot.fresh_id, true),
    };
    CalendarView {
        id,
        name: discovered_name(discovered.display_name),
        color: discovered_color(discovered.color),
        visible,
        read_only: !discovered.writable,
        source: CalendarSource::CalDav { account_id },
    }
}

/// The writes that set up one calendar.
pub open spec fn calendar_writes(account_id: Uuid, discovered: DiscoveredView, slot: Slot) -> Seq<WriteView> {
    let calendar = provisioned_calendar(account_id, discovered, slot);
    seq![
        WriteView::PutCalendar { calendar },
        WriteView::PutCalendarSync {
            calendar_state: CalendarSyncView {
                calendar_id: calendar.id,
                remote_url: discovered.href,
                sync_token: discovered.sync_token,
            },
        },
    ]
}

/// The writes that set up calendars, one after the other.
pub open spec fn calendars_writes(
    account_id: Uuid,
    calendars: Seq<DiscoveredView>,
    slots: Seq<Slot>,
) -> Seq<WriteView>
    decreases calendars.len(),
{
    if calendars.len() == 0 {
        seq![]
    } else {
        calendars_writes(account_id, calendars.drop_last(), slots) + calendar_writes(
            account_id,
            calendars.last(),
            slots[calendars.len() - 1],
        )
    }
}

/// A list that is in the order of its addresses, with one more entry at its place.
pub open spec fn put_by_href(
    entries: Seq<(Seq<char>, CalendarView)>,
    entry: (Seq<char>, CalendarView),
) -> Seq<(Seq<char>, CalendarView)>
    decreases entries.len(),
{
    if entries.len() == 0 || !text::text_before(entry.0, entries.last().0) {
        entries.push(entry)
    } else {
        put_by_href(entries.drop_last(), entry).push(entries.last())
    }
}

/// The calendars that stand for those that a server offers, each with its address, in the order of
/// their addresses.
pub open spec fn provisioned(
    account_id: Uuid,
    calendars: Seq<DiscoveredView>,
    slots: Seq<Slot>,
) -> Seq<(Seq<char>, CalendarView)>
    decreases calendars.len(),
{
    if calendars.len() == 0 {
        seq![]
    } else {
        let last = calendars.last();
        put_by_href(
            provisioned(account_id, calendars.drop_last(), slots),
            (last.href, provisioned_calendar(account_id, last, slots[calendars.len() - 1])),
        )
    }
}

/// The calendars of a list of calendars with addresses.
pub open spec fn calendars_of(entries: Seq<(Seq<char>, CalendarView)>) -> Seq<CalendarView> {
    Seq::new(entries.len(), |i: int| entries[i].1)
}

/// The values of a list of calendars with addresses.
pub open spec fn entry_views(entries: Seq<(String, Calendar)>) -> Seq<(Seq<char>, CalendarView)> {
    Seq::new(entries.len(), |i: int| (entries[i].0@, entries[i].1@))
}

/// Put an entry at its place in a list that is in the order of its addresses.
fn put_entry(entries: &mut Vec<(String, Calendar)>, entry: (String, Calendar))
    ensures
        entry_views(final(entries)@) == put_by_href(entry_views(old(entries)@), (entry.0@, entry.1@)),
{
    let ghost all = entry_views(entries@);
    let ghost new = (entry.0@, entry.1@);
    let mut at: usize = entries.len();
    assert(all.take(all.len() as int) =~= all);
    assert(all.skip(all.len() as int) =~= seq![]);
    assert(put_by_href(all, new) =~= put_by_href(all.take(at as int), new) + all.skip(at as int));
    while at > 0 && text::text_less(entry.0.as_str(), entries[at - 1].0.as_str())
        invariant
            at <= entries@.len(),
            all == entry_views(entries@),
            new == (entry.0@, entry.1@),
            put_by_href(all, new) == put_by_href(all.take(at as int), new) + all.skip(at as int),
        decreases at,
    {
        proof {
            assert(all[at - 1] == (entries@[at - 1].0@, entries@[at - 1].1@));
            assert(all.take(at as int).last() == all[at - 1]);
            assert(all.take(at as int).drop_last() =~= all.take(at - 1));
            assert(all.skip(at - 1) =~= seq![all[at - 1]] + all.skip(at as int));
            assert(put_by_href(all.take(at - 1), new).push(all[at - 1]) + all.skip(at as int)
                =~= put_by_href(all.take(at - 1), new) + all.skip(at - 1));
        }
        at -= 1;
    }
    proof {
        if at > 0 {
            assert(all[at - 1] == (entries@[at - 1].0@, entries@[at - 1].1@));
            assert(all.take(at as int).last() == all[at - 1]);
        }
        assert(put_by_href(all.take(at as int), new) == all.take(at as int).push(new));
    }
    entries.insert(at, entry);
    assert(entry_views(entries@) =~= all.take(at as int).push(new) + all.skip(at as int));
}

/// What setting up an account changes and which calendars it leaves.
pub struct Provisioning {
    pub writes: Vec<StoreWrite>,
    pub calendars: Vec<Calendar>,
}

/// Set up an account with the calendars that its server offers, in the order of their addresses.
/// Refused where an address is no address for HTTP requests, or occurs twice. `slots` holds what is
/// known of each calendar.
pub fn provision_caldav_account(account: &Account, discovery: &CaldavDiscovery, slots: &Vec<Slot>) -> (r:
    Result<Provisioning, RepositoryError>)
    requires
        slots@.len() == discovery.calendars@.len(),
    ensures
        match r {
            Ok(done) => can_provision(discovery@.calendars) && store::write_views(done.writes@)
                == seq![WriteView::PutAccount { account: account@ }] + calendars_writes(
                account.id,
                discovery@.calendars,
                slots@,
            ) && lists::views_of(done.calendars@) == calendars_of(
                provisioned(account.id, discovery@.calendars, slots@),
            ),
            Err(_) => !can_provision(discovery@.calendars),
        },
{
    if !check_provision(&discovery.calendars) {
        return Err(RepositoryError);
    }
    let ghost all = lists::views_of(discovery.calendars@);
    let mut writes: Vec<StoreWrite> = Vec::new();
    let mut entries: Vec<(String, Calendar)> = Vec::new();
    writes.push(StoreWrite::PutAccount { account: account.clone() });
    let ghost first = seq![WriteView::PutAccount { account: account@ }];
    assert(store::write_views(writes@) =~= first + calendars_writes(account.id, all.take(0), slots@));
    assert(entry_views(entries@) =~= provisioned(account.id, all.take(0), slots@));
    for i in 0..discovery.calendars.len()
        invariant
            all == lists::views_of(discovery.calendars@),
            slots@.len() == discovery.calendars@.len(),
            first == seq![WriteView::PutAccount { account: account@ }],
            store::write_views(writes@) == first + calendars_writes(
                account.id,
                all.take(i as int),
                slots@,
            ),
            entry_views(entries@) == provisioned(account.id, all.take(i as int), slots@),
    {
        let discovered = &discovery.calendars[i];
        let slot = slots[i];
        let (id, visible): (Uuid, bool) = match slot.existing {
            Some(existing) => existing,
            None => (slot.fresh_id, true),
        };
        let calendar = Calendar {
            id,
            name: discovered_calendar_name(discovered),
            color: normalize_discovered_color(&discovered.color),
            visible,
            read_only: !discovered.writable,
            source: CalendarSource::CalDav { account_id: account.id },
        };
        let state = CalendarSyncState {
            calendar_id: id,
            remote_url: discovered.href.clone(),
            sync_token: model::copy_text(&discovered.sync_token),
        };
        let ghost before = writes@;
        writes.push(StoreWrite::PutCalendar { calendar: calendar.clone() });
        writes.push(StoreWrite::PutCalendarSync { calendar_state: state });
        put_entry(&mut entries, (discovered.href.clone(), calendar));
        proof {
            lists::lemma_views_take(discovery.calendars@, i as int);
            assert(store::write_views(writes@) =~= store::write_views(before) + calendar_writes(
                account.id,
                discovered@,
                slot,
            ));
            assert(store::write_views(writes@) =~= first + calendars_writes(
                account.id,
                all.take(i + 1),
                slots@,
            ));
        }
    }
    proof {
        lists::lemma_views_all(discovery.calendars@);
    }
    let calendars = entry_calendars(&entries);
    Ok(Provisioning { writes, calendars })
}

/// The calendars of a list of calendars with addresses.
fn entry_calendars(entries: &Vec<(String, Calendar)>) -> (r: Vec<Calendar>)
    ensures
        lists::views_of(r@) == calendars_of(entry_views(entries@)),
{
    let mut calendars: Vec<Calendar> = Vec::new();
    for i in 0..entries.len()
        invariant
            calendars@.len() == i,
            forall|k: int| 0 <= k < i ==> (#[trigger] calendars@[k])@ == entries@[k].1@,
    {
        calendars.push(entries[i].1.clone());
    }
    assert(lists::views_of(calendars@) =~= calendars_of(entry_views(entries@)));
    calendars
}

proof fn lemma_put_by_href(
    entries: Seq<(Seq<char>, CalendarView)>,
    entry: (Seq<char>, CalendarView),
)
    requires
        is_in_order(entries),
    ensures
        is_in_order(put_by_href(entries, entry)),
        put_by_href(entries, entry).to_multiset() == entries.to_multiset().insert(entry),
    decreases entries.len(),
{
    broadcast use vstd::seq_lib::group_to_multiset_ensures;

    let put = put_by_href(entries, entry);
    if entries.len() == 0 || !text::text_before(entry.0, entries.last().0) {
        assert forall|i: int, j: int| 0 <= i < j < put.len() implies !text::text_before(
            (#[trigger] put[j]).0,
            (#[trigger] put[i]).0,
        ) by {
            if j < entries.len() {
                assert(!text::text_before(entries[j].0, entries[i].0));
            } else {
                let last = entries.len() - 1;
                if i < last {
                    assert(!text::text_before(entries[last].0, entries[i].0));
                    lemma_not_before_transitive(entry.0, entries[last].0, entries[i].0);
                }
            }
        }
    } else {
        let before = entries.drop_last();
        assert forall|i: int, j: int| 0 <= i < j < before.len() implies !text::text_before(
            (#[trigger] before[j]).0,
            (#[trigger] before[i]).0,
        ) by {
            assert(!text::text_before(entries[j].0, entries[i].0));
        }
        lemma_put_by_href(before, entry);
        let first = put_by_href(before, entry);
        assert(entries =~= before.push(entries.last()));
        assert forall|i: int, j: int| 0 <= i < j < put.len() implies !text::text_before(
            (#[trigger] put[j]).0,
            (#[trigger] put[i]).0,
        ) by {
            if j < first.len() {
                assert(!text::text_before(first[j].0, first[i].0));
            } else {
                assert(first.to_multiset().contains(first[i]));
                if first[i] == entry {
                    text::lemma_text_order(entry.0, entries.last().0);
                } else {
                    assert(before.to_multiset().contains(first[i]));
                    let n = choose|n: int| 0 <= n < before.len() && before[n] == first[i];
                    assert(!text::text_before(entries[entries.len() - 1].0, entries[n].0));
                }
            }
        }
        assert(first.push(entries.last()).to_multiset() =~= entries.to_multiset().insert(entry));
    }
}

/// Two texts of which neither comes before the next.
proof fn lemma_not_before_transitive(a: Seq<char>, b: Seq<char>, c: Seq<char>)
    requires
        !text::text_before(a, b),
        !text::text_before(b, c),
    ensures
        !text::text_before(a, c),
{
    text::lemma_text_order(a, b);
    text::lemma_text_order(b, c);
    text::lemma_text_order(a, c);
    if text::text_before(a, c) {
        if b != c {
            text::lemma_text_order_transitive(a, c, b);
        }
    }
}

/// Whether entries are in the order of their addresses.
pub open spec fn is_in_order(entries: Seq<(Seq<char>, CalendarView)>) -> bool {
    forall|i: int, j: int|
        0 <= i < j < entries.len() ==> !text::text_before(
            (#[trigger] entries[j]).0,
            (#[trigger] entries[i]).0,
        )
}

/// The calendars that are set up come in the order of their addresses, and each that the server
/// offers is among them once.
pub proof fn law_provisioned_in_order(account_id: Uuid, calendars: Seq<DiscoveredView>, slots: Seq<Slot>)
    ensures
        is_in_order(provisioned(account_id, calendars, slots)),
        provisioned(account_id, calendars, slots).to_multiset() == Seq::new(
            calendars.len(),
            |i: int|
                (calendars[i].href, provisioned_calendar(account_id, calendars[i], slots[i])),
        ).to_multiset(),
    decreases calendars.len(),
{
    broadcast use vstd::seq_lib::group_to_multiset_ensures;

    let all = Seq::new(
        calendars.len(),
        |i: int| (calendars[i].href, provisioned_calendar(account_id, calendars[i], slots[i])),
    );
    if calendars.len() == 0 {
        assert(all =~= seq![]);
    } else {
        let before = calendars.drop_last();
        law_provisioned_in_order(account_id, before, slots);
        let first = Seq::new(
            before.len(),
            |i: int| (before[i].href, provisioned_calendar(account_id, before[i], slots[i])),
        );
        assert(all =~= first.push(all.last()));
        lemma_put_by_href(provisioned(account_id, before, slots), all.last());
    }
}

/// Whether a calendar of an account stands for an address.
pub open spec fn stands_for(store: StoreView, account_id: Uuid, href: Seq<char>, id: Uuid) -> bool {
    &&& store.calendars.contains_key(id)
    &&& store.calendars[id].source == CalendarSource::CalDav { account_id }
    &&& store.calendar_sync.contains_key(id)
    &&& store.calendar_sync[id].remote_url == href
}

/// Whether a slot says what a store knows of an address: the calendar of the account that stands for
/// it, the first where there are several.
pub open spec fn is_slot_of(store: StoreView, account_id: Uuid, href: Seq<char>, slot: Slot) -> bool {
    match slot.existing {
        Some((id, visible)) => {
            &&& stands_for(store, account_id, href, id)
            &&& visible == store.calendars[id].visible
            &&& forall|other: Uuid| #[trigger]
                stands_for(store, account_id, href, other) ==> id <= other
        },
        None => forall|other: Uuid| !(#[trigger] stands_for(store, account_id, href, other)),
    }
}

/// Whether slots say what a store knows of the calendars that a server offers, and their new
/// identifiers are those of no other calendar.
pub open spec fn are_slots_of(
    store: StoreView,
    account_id: Uuid,
    calendars: Seq<DiscoveredView>,
    slots: Seq<Slot>,
) -> bool {
    &&& slots.len() == calendars.len()
    &&& forall|i: int|
        0 <= i < slots.len() ==> is_slot_of(
            store,
            account_id,
            calendars[i].href,
            #[trigger] slots[i],
        ) && !store.calendars.contains_key(slots[i].fresh_id)
    &&& forall|i: int, j: int|
        0 <= i < j < slots.len() ==> (#[trigger] slots[i]).fresh_id != (#[trigger] slots[j]).fresh_id
}

/// The identifier of the calendar that a slot leads to.
pub open spec fn slot_id(slot: Slot) -> Uuid {
    match slot.existing {
        Some((id, _)) => id,
        None => slot.fresh_id,
    }
}

/// What stands in a store after the writes that set up calendars: each under its own identifier, and
/// all else as before.
proof fn lemma_calendars_written(
    store: StoreView,
    account_id: Uuid,
    calendars: Seq<DiscoveredView>,
    slots: Seq<Slot>,
)
    requires
        slots.len() >= calendars.len(),
        forall|i: int, j: int|
            0 <= i < j < calendars.len() ==> slot_id(#[trigger] slots[i]) != slot_id(
                #[trigger] slots[j],
            ),
    ensures
        ({
            let after = store::applied_all(store, calendars_writes(account_id, calendars, slots));
            &&& forall|i: int|
                #![trigger slots[i]]
                0 <= i < calendars.len() ==> {
                    let id = slot_id(slots[i]);
                    &&& after.calendars.contains_key(id)
                    &&& after.calendars[id] == provisioned_calendar(
                        account_id,
                        calendars[i],
                        slots[i],
                    )
                    &&& after.calendar_sync.contains_key(id)
                    &&& after.calendar_sync[id].remote_url == calendars[i].href
                }
            &&& forall|id: Uuid|
                (forall|i: int| 0 <= i < calendars.len() ==> slot_id(#[trigger] slots[i]) != id)
                    ==> #[trigger] store::stored(after.calendars, id) == store::stored(
                    store.calendars,
                    id,
                ) && store::stored(after.calendar_sync, id) == store::stored(
                    store.calendar_sync,
                    id,
                )
        }),
    decreases calendars.len(),
{
    if calendars.len() > 0 {
        let n = calendars.len() - 1;
        let first = calendars_writes(account_id, calendars.drop_last(), slots);
        let last = calendar_writes(account_id, calendars.last(), slots[n]);
        let middle = store::applied_all(store, first);
        let after = store::applied_all(store, calendars_writes(account_id, calendars, slots));
        let calendar = provisioned_calendar(account_id, calendars.last(), slots[n]);
        lemma_calendars_written(store, account_id, calendars.drop_last(), slots);
        store::lemma_applied_all_concat(store, first, last);
        store::lemma_applied_one(middle, last[0]);
        store::lemma_applied_push(middle, seq![last[0]], last[1]);
        assert(seq![last[0]].push(last[1]) =~= last);
        assert(after.calendars == middle.calendars.insert(calendar.id, calendar));
        assert(after.calendar_sync == middle.calendar_sync.insert(
            calendar.id,
            CalendarSyncView {
                calendar_id: calendar.id,
                remote_url: calendars.last().href,
                sync_token: calendars.last().sync_token,
            },
        ));
        assert(calendar.id == slot_id(slots[n]));
        assert forall|i: int| #![trigger slots[i]] 0 <= i < calendars.len() implies ({
            let id = slot_id(slots[i]);
            &&& after.calendars.contains_key(id)
            &&& after.calendars[id] == provisioned_calendar(account_id, calendars[i], slots[i])
            &&& after.calendar_sync.contains_key(id)
            &&& after.calendar_sync[id].remote_url == calendars[i].href
        }) by {
            if i < n {
                assert(calendars.drop_last()[i] == calendars[i]);
                assert(slot_id(slots[i]) != slot_id(slots[n]));
            }
        }
        assert forall|id: Uuid|
            (forall|i: int| 0 <= i < calendars.len() ==> slot_id(#[trigger] slots[i])
                != id) implies #[trigger] store::stored(after.calendars, id) == store::stored(
            store.calendars,
            id,
        ) && store::stored(after.calendar_sync, id) == store::stored(store.calendar_sync, id) by {
            assert(slot_id(slots[n]) != id);
            assert(store::stored(middle.calendars, id) == store::stored(store.calendars, id));
        }
    }
}

/// Slots that say what a store knows of different addresses lead to different calendars.
proof fn lemma_slots_differ(
    store: StoreView,
    account_id: Uuid,
    calendars: Seq<DiscoveredView>,
    slots: Seq<Slot>,
)
    requires
        have_distinct_hrefs(calendars),
        are_slots_of(store, account_id, calendars, slots),
    ensures
        forall|i: int, j: int|
            0 <= i < j < slots.len() ==> slot_id(#[trigger] slots[i]) != slot_id(#[trigger] slots[j]),
{
    assert forall|i: int, j: int| 0 <= i < j < slots.len() implies slot_id(#[trigger] slots[i])
        != slot_id(#[trigger] slots[j]) by {
        assert(calendars[i].href != calendars[j].href);
        assert(slots[i].fresh_id != slots[j].fresh_id);
        assert(is_slot_of(store, account_id, calendars[i].href, slots[i]));
        assert(is_slot_of(store, account_id, calendars[j].href, slots[j]));
    }
}

/// Setting up an account once more gives the same calendars: each address that was set up leads to
/// the calendar that stood for it before, with its identifier, shown or hidden as it was.
pub proof fn law_setting_up_again_keeps_calendars(
    store: StoreView,
    account: AccountView,
    calendars: Seq<DiscoveredView>,
    slots: Seq<Slot>,
    again: Seq<DiscoveredView>,
    later: Seq<Slot>,
)
    requires
        can_provision(calendars),
        are_slots_of(store, account.id, calendars, slots),
        are_slots_of(
            store::applied_all(
                store,
                seq![WriteView::PutAccount { account }] + calendars_writes(
                    account.id,
                    calendars,
                    slots,
                ),
            ),
            account.id,
            again,
            later,
        ),
    ensures
        forall|i: int, j: int|
            #![trigger slots[i], later[j]]
            0 <= i < slots.len() && 0 <= j < later.len() && calendars[i].href == again[j].href ==> {
                let first = provisioned_calendar(account.id, calendars[i], slots[i]);
                let second = provisioned_calendar(account.id, again[j], later[j]);
                first.id == second.id && first.visible == second.visible
            },
        again == calendars ==> provisioned(account.id, again, later) == provisioned(
            account.id,
            calendars,
            slots,
        ),
{
    let put = WriteView::PutAccount { account };
    let writes = calendars_writes(account.id, calendars, slots);
    let opened = store::applied(store, put);
    let after = store::applied_all(store, seq![put] + writes);
    store::lemma_applied_all_concat(store, seq![put], writes);
    store::lemma_applied_one(store, put);
    lemma_slots_differ(store, account.id, calendars, slots);
    lemma_calendars_written(opened, account.id, calendars, slots);
    assert forall|i: int, j: int|
        #![trigger slots[i], later[j]]
        0 <= i < slots.len() && 0 <= j < later.len() && calendars[i].href == again[j].href implies ({
        let first = provisioned_calendar(account.id, calendars[i], slots[i]);
        let second = provisioned_calendar(account.id, again[j], later[j]);
        first.id == second.id && first.visible == second.visible
    }) by {
        let href = calendars[i].href;
        let id = slot_id(slots[i]);
        assert(is_slot_of(store, account.id, href, slots[i]));
        assert(is_slot_of(after, account.id, href, later[j]));
        assert(stands_for(after, account.id, href, id));
        let (found, _) = later[j].existing->0;
        assert(stands_for(after, account.id, href, found));
        if exists|k: int| 0 <= k < slots.len() && slot_id(#[trigger] slots[k]) == found {
            let k = choose|k: int| 0 <= k < slots.len() && slot_id(#[trigger] slots[k]) == found;
            assert(calendars[k].href == href);
            assert(k == i);
        } else {
            assert(store::stored(after.calendars, found) == store::stored(store.calendars, found));
            assert(stands_for(store, account.id, href, found));
        }
    }
    if again == calendars {
        lemma_same_provisioned(account.id, calendars, slots, later);
    }
}

/// Slots that lead to the same calendars set up the same calendars.
proof fn lemma_same_provisioned(
    account_id: Uuid,
    calendars: Seq<DiscoveredView>,
    slots: Seq<Slot>,
    later: Seq<Slot>,
)
    requires
        slots.len() >= calendars.len(),
        later.len() >= calendars.len(),
        forall|i: int, j: int|
            #![trigger slots[i], later[j]]
            0 <= i < calendars.len() && i == j ==> provisioned_calendar(
                account_id,
                calendars[i],
                slots[i],
            ) == provisioned_calendar(account_id, calendars[j], later[j]),
    ensures
        provisioned(account_id, calendars, later) == provisioned(account_id, calendars, slots),
    decreases calendars.len(),
{
    if calendars.len() > 0 {
        let n = calendars.len() - 1;
        assert forall|i: int, j: int|
            #![trigger slots[i], later[j]]
            0 <= i < calendars.drop_last().len() && i == j implies provisioned_calendar(
            account_id,
            calendars.drop_last()[i],
            slots[i],
        ) == provisioned_calendar(account_id, calendars.drop_last()[j], later[j]) by {}
        lemma_same_provisioned(account_id, calendars.drop_last(), slots, later);
        assert(provisioned_calendar(account_id, calendars[n], slots[n]) == provisioned_calendar(
            account_id,
            calendars[n],
            later[n],
        ));
    }
}

// ---------------------------------------------------------------------------------------------
// The calendars of a new store
// ---------------------------------------------------------------------------------------------

/// The writes that add calendars, those with an identifier that is taken left out.
pub open spec fn seed_writes(defaults: Seq<CalendarView>, taken: Set<Uuid>) -> Seq<WriteView>
    decreases defaults.len(),
{
    if defaults.len() == 0 {
        seq![]
    } else {
        let first = defaults[0];
        let rest = seed_writes(defaults.drop_first(), taken.insert(first.id));
        if taken.contains(first.id) {
            rest
        } else {
            seq![WriteView::PutCalendar { calendar: first }] + rest
        }
    }
}

/// Whether a list holds an identifier.
fn holds(ids: &Vec<Uuid>, id: Uuid) -> (r: bool)
    ensures
        r == ids@.contains(id),
{
    for i in 0..ids.len()
        invariant
            forall|k: int| 0 <= k < i ==> ids@[k] != id,
    {
        if ids[i] == id {
            return true;
        }
    }
    false
}

/// Give a new store its first calendars: nothing where it had them before. `taken` holds the
/// identifiers of the calendars that are there. The result says whether calendars were added, which
/// is to be remembered.
pub fn seed_default_calendars(initialized: bool, defaults: &Vec<Calendar>, taken: &Vec<Uuid>) -> (r: (
    Vec<StoreWrite>,
    bool,
))
    ensures
        r.1 == !initialized,
        store::write_views(r.0@) == if initialized {
            seq![]
        } else {
            seed_writes(lists::views_of(defaults@), taken@.to_set())
        },
{
    let mut writes: Vec<StoreWrite> = Vec::new();
    assert(store::write_views(writes@) =~= seq![]);
    if initialized {
        return (writes, false);
    }
    let mut seen: Vec<Uuid> = Vec::new();
    for i in 0..taken.len()
        invariant
            seen@ == taken@.take(i as int),
    {
        seen.push(taken[i]);
        assert(seen@ =~= taken@.take(i + 1));
    }
    let ghost all = lists::views_of(defaults@);
    assert(seen@ =~= taken@);
    assert(all.skip(0) =~= all);
    assert(store::write_views(writes@) + seed_writes(all, seen@.to_set()) =~= seed_writes(
        all,
        taken@.to_set(),
    ));
    for i in 0..defaults.len()
        invariant
            all == lists::views_of(defaults@),
            store::write_views(writes@) + seed_writes(all.skip(i as int), seen@.to_set())
                == seed_writes(all, taken@.to_set()),
    {
        let id = defaults[i].id;
        let ghost before = store::write_views(writes@);
        let ghost rest = all.skip(i as int);
        proof {
            assert(rest[0] == defaults@[i as int]@);
            assert(rest.drop_first() =~= all.skip(i + 1));
            assert(seen@.push(id).to_set() =~= seen@.to_set().insert(id)) by {
                assert forall|other: Uuid| seen@.push(id).contains(other) <==> seen@.contains(other)
                    || other == id by {
                    if seen@.contains(other) {
                        let n = choose|n: int| 0 <= n < seen@.len() && seen@[n] == other;
                        assert(seen@.push(id)[n] == other);
                    }
                    assert(seen@.push(id)[seen@.len() as int] == id);
                }
            }
        }
        if !holds(&seen, id) {
            let write = StoreWrite::PutCalendar { calendar: defaults[i].clone() };
            proof {
                store::lemma_write_views_push(writes@, write);
            }
            writes.push(write);
            assert(before + (seq![write@] + seed_writes(all.skip(i + 1), seen@.push(id).to_set()))
                =~= store::write_views(writes@) + seed_writes(
                all.skip(i + 1),
                seen@.push(id).to_set(),
            ));
        }
        seen.push(id);
    }
    assert(store::write_views(writes@) + seq![] =~= store::write_views(writes@));
    (writes, true)
}

/// A calendar that was found on a server stands in the calendar that stood for its address, as visible
/// as that was, or in a new visible one. It belongs to the account, and is read-only exactly where the
/// server does not let it be written.
pub proof fn law_calendar_of_an_address(account_id: Uuid, discovered: DiscoveredView, slot: Slot)
    ensures
        ({
            let calendar = provisioned_calendar(account_id, discovered, slot);
            &&& slot.existing matches Some((id, visible)) ==> calendar.id == id && calendar.visible
                == visible
            &&& slot.existing is None ==> calendar.id == slot.fresh_id && calendar.visible
            &&& calendar.read_only == !discovered.writable
            &&& calendar.source == (CalendarSource::CalDav { account_id })
            &&& calendar.name == discovered_name(discovered.display_name)
            &&& calendar.color == discovered_color(discovered.color)
        }),
{
}

/// A calendar is named as its server names it, without white space around it, and gets a name where
/// the server gives none.
pub proof fn law_names_of_found_calendars(name: Seq<char>)
    ensures
        discovered_name(None) == "CalDAV Calendar"@,
        text::trimmed(name).len() == 0 ==> discovered_name(Some(name)) == "CalDAV Calendar"@,
        text::trimmed(name).len() > 0 ==> discovered_name(Some(name)) == text::trimmed(name),
{
}

/// A colour of six or eight hexadecimal digits, with or without a mark, is taken over as a mark and its
/// first six digits in small letters; any other gives way to blue.
pub proof fn law_colors_of_found_calendars(digits: Seq<char>)
    requires
        digits.len() > 0,
        !text::is_white(digits[0]),
        !text::is_white(digits.last()),
        digits[0] != '#',
    ensures
        discovered_color(None) == "#3584e4"@,
        (digits.len() == 6 || digits.len() == 8) && (forall|i: int|
            0 <= i < digits.len() ==> ('0' <= #[trigger] digits[i] <= '9') || ('a' <= digits[i] <= 'f')
                || ('A' <= digits[i] <= 'F')) ==> discovered_color(Some(digits)) == seq!['#']
            + text::lower(digits.take(6)) && discovered_color(Some(seq!['#'] + digits)) == seq!['#']
            + text::lower(digits.take(6)),
        digits.len() != 6 && digits.len() != 8 ==> discovered_color(Some(digits)) == "#3584e4"@
            && discovered_color(Some(seq!['#'] + digits)) == "#3584e4"@,
        (exists|i: int|
            0 <= i < digits.len() && !text::is_hex_digit(#[trigger] digits[i])) ==> discovered_color(
            Some(digits),
        ) == "#3584e4"@,
{
    let marked = seq!['#'] + digits;
    assert(marked[0] == '#' && marked.last() == digits.last());
    assert(text::trimmed_start(digits) == digits && text::trimmed_end(digits) == digits);
    assert(!text::is_white('#'));
    assert(text::trimmed_start(marked) == marked && text::trimmed_end(marked) == marked);
    assert(marked.skip(1) =~= digits);
}

/// After an account was set up, every calendar that was found is stored, with its address and how far
/// it was read. This is of calendars that stand in different rows.
pub proof fn law_found_calendars_are_stored(
    store: StoreView,
    account_id: Uuid,
    calendars: Seq<DiscoveredView>,
    slots: Seq<Slot>,
    i: int,
)
    requires
        slots.len() == calendars.len(),
        0 <= i < calendars.len(),
        forall|a: int, b: int|
            0 <= a < b < slots.len() ==> slot_id(#[trigger] slots[a]) != slot_id(#[trigger] slots[b]),
    ensures
        ({
            let after = store::applied_all(store, calendars_writes(account_id, calendars, slots));
            let calendar = provisioned_calendar(account_id, calendars[i], slots[i]);
            &&& store::stored(after.calendars, calendar.id) == Some(calendar)
            &&& store::stored(after.calendar_sync, calendar.id) == Some(
                CalendarSyncView {
                    calendar_id: calendar.id,
                    remote_url: calendars[i].href,
                    sync_token: calendars[i].sync_token,
                },
            )
        }),
    decreases calendars.len(),
{
    let before = calendars.drop_last();
    let n = calendars.len() - 1;
    let first = calendars_writes(account_id, before, slots);
    let last = calendar_writes(account_id, calendars.last(), slots[n]);
    store::lemma_applied_all_concat(store, first, last);
    let middle = store::applied_all(store, first);
    assert(last =~= seq![last[0]].push(last[1]));
    store::lemma_applied_push(middle, seq![last[0]], last[1]);
    store::lemma_applied_one(middle, last[0]);
    if i < n {
        lemma_calendars_writes_prefix(account_id, before, slots, slots.drop_last());
        law_found_calendars_are_stored(store, account_id, before, slots.drop_last(), i);
        assert(slots.drop_last()[i] == slots[i]);
        assert(slot_id(slots[i]) != slot_id(slots[n]));
    }
}

proof fn lemma_calendars_writes_prefix(
    account_id: Uuid,
    calendars: Seq<DiscoveredView>,
    slots: Seq<Slot>,
    shorter: Seq<Slot>,
)
    requires
        shorter.len() >= calendars.len(),
        slots.len() >= calendars.len(),
        forall|i: int| 0 <= i < calendars.len() ==> #[trigger] shorter[i] == slots[i],
    ensures
        calendars_writes(account_id, calendars, slots) == calendars_writes(
            account_id,
            calendars,
            shorter,
        ),
    decreases calendars.len(),
{
    if calendars.len() > 0 {
        lemma_calendars_writes_prefix(account_id, calendars.drop_last(), slots, shorter);
        assert(shorter[calendars.len() - 1] == slots[calendars.len() - 1]);
    }
}

/// A default calendar is stored where its identifier is not taken, and left out where it is.
pub proof fn law_default_calendars_are_stored_once(defaults: Seq<CalendarView>, taken: Set<Uuid>, i: int)
    requires
        0 <= i < defaults.len(),
        forall|a: int, b: int|
            0 <= a < b < defaults.len() ==> (#[trigger] defaults[a]).id != (#[trigger] defaults[b]).id,
    ensures
        seed_writes(defaults, taken).contains(WriteView::PutCalendar { calendar: defaults[i] })
            <==> !taken.contains(defaults[i].id),
    decreases defaults.len(),
{
    let first = defaults[0];
    let tail = defaults.drop_first();
    let rest = seed_writes(tail, taken.insert(first.id));
    let out = seed_writes(defaults, taken);
    let wanted = WriteView::PutCalendar { calendar: defaults[i] };
    let head: Seq<WriteView> = if taken.contains(first.id) {
        seq![]
    } else {
        seq![WriteView::PutCalendar { calendar: first }]
    };
    assert(out =~= head + rest);
    if i > 0 {
        assert forall|a: int, b: int| 0 <= a < b < tail.len() implies (#[trigger] tail[a]).id != (
        #[trigger] tail[b]).id by {
            assert(defaults[a + 1].id != defaults[b + 1].id);
        }
        assert(tail[i - 1] == defaults[i]);
        law_default_calendars_are_stored_once(tail, taken.insert(first.id), i - 1);
        assert(defaults[0].id != defaults[i].id);
        if rest.contains(wanted) {
            let k = choose|k: int| 0 <= k < rest.len() && rest[k] == wanted;
            assert(out[head.len() + k] == wanted);
        }
        if out.contains(wanted) {
            let k = choose|k: int| 0 <= k < out.len() && out[k] == wanted;
            if k >= head.len() {
                assert(rest[k - head.len()] == wanted);
            }
        }
    } else {
        if !taken.contains(first.id) {
            assert(out[0] == wanted);
        } else {
            lemma_seeds_are_of(tail, taken.insert(first.id), wanted);
            if out.contains(wanted) {
                let k = choose|k: int| 0 <= k < out.len() && out[k] == wanted;
                assert(rest[k] == wanted);
                let n = choose|n: int|
                    0 <= n < tail.len() && wanted == (WriteView::PutCalendar {
                        calendar: #[trigger] tail[n],
                    });
                assert(defaults[0].id != defaults[n + 1].id);
            }
        }
    }
}

proof fn lemma_seeds_are_of(defaults: Seq<CalendarView>, taken: Set<Uuid>, write: WriteView)
    ensures
        seed_writes(defaults, taken).contains(write) ==> exists|n: int|
            0 <= n < defaults.len() && write == (WriteView::PutCalendar {
                calendar: #[trigger] defaults[n],
            }),
    decreases defaults.len(),
{
    if defaults.len() > 0 {
        let tail = defaults.drop_first();
        let rest = seed_writes(tail, taken.insert(defaults[0].id));
        let out = seed_writes(defaults, taken);
        lemma_seeds_are_of(tail, taken.insert(defaults[0].id), write);
        if out.contains(write) {
            let k = choose|k: int| 0 <= k < out.len() && out[k] == write;
            if rest.contains(write) {
                let n = choose|n: int|
                    0 <= n < tail.len() && write == (WriteView::PutCalendar {
                        calendar: #[trigger] tail[n],
                    });
                assert(defaults[n + 1] == tail[n]);
            } else if taken.contains(defaults[0].id) {
                assert(rest[k] == write);
            } else {
                if k > 0 {
                    assert(rest[k - 1] == write);
                }
                assert(write == WriteView::PutCalendar { calendar: defaults[0] });
            }
        }
    }
}

/// Calendars can be set up where all their addresses are of the web and no two are the same.
pub proof fn law_calendars_that_can_be_set_up(calendars: Seq<DiscoveredView>)
    ensures
        can_provision(calendars) <==> (forall|i: int|
            0 <= i < calendars.len() ==> urls::is_http((#[trigger] calendars[i]).href)) && (forall|
            i: int,
            j: int,
        |
            #![trigger calendars[i], calendars[j]]
            0 <= i < j < calendars.len() ==> calendars[i].href != calendars[j].href),
{
}

} // verus!
