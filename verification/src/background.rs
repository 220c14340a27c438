//! What happens while nobody looks: synchronisation and reminders.
use vstd::prelude::*;

use crate::backend::reminders;
use crate::backend::reminders::{DueView, ReminderOccurrence};
use crate::date;
use crate::date::{DateTime, DateTimeView, Span};
use crate::lists;
use crate::model::{Account, AccountView, Event, EventView};
use crate::text;
use crate::time_format;
use crate::time_format::TimeFormatPreference;
use crate::viewer_time;

verus! {

// ---------------------------------------------------------------------------------------------
// Synchronisation
// ---------------------------------------------------------------------------------------------

/// Which accounts are synchronised.
pub open spec fn is_enabled() -> spec_fn(AccountView) -> bool {
    |account: AccountView| account.enabled
}

/// The accounts that are synchronised, in order.
pub fn enabled_accounts(accounts: &Vec<Account>) -> (r: Vec<Account>)
    ensures
        lists::views_of(r@) == lists::views_of(accounts@).filter(is_enabled()),
{
    let ghost all = lists::views_of(accounts@);
    let mut out: Vec<Account> = Vec::new();
    proof {
        reveal(Seq::filter);
        assert(lists::views_of(out@) =~= all.take(0).filter(is_enabled()));
    }
    for i in 0..accounts.len()
        invariant
            all == lists::views_of(accounts@),
            lists::views_of(out@) == all.take(i as int).filter(is_enabled()),
    {
        let ghost before = out@;
        proof {
            lists::lemma_views_take(accounts@, i as int);
            crate::lines::lemma_filter_push(all.take(i as int), all[i as int], is_enabled());
        }
        if accounts[i].enabled {
            let account = accounts[i].clone();
            out.push(account);
            proof {
                lists::lemma_views_push(before, account);
            }
        }
    }
    proof {
        lists::lemma_views_all(accounts@);
    }
    out
}

/// What a batch of synchronisations waits for.
#[derive(Clone, Copy, Debug, PartialEq, Eq, Structural)]
pub enum SyncPhase {
    /// A request.
    Idle,
    /// The accounts.
    Accounts,
    /// The password of the account with a number.
    Lookup(usize),
    /// The synchronisation of the account with a number.
    Sync(usize),
}

/// A batch of synchronisations, one account after the other.
pub struct SyncBatch {
    pub phase: SyncPhase,
    pub accounts: Vec<Account>,
    /// Whether another batch was asked for meanwhile.
    pub pending: bool,
    /// Whether an account was gone through.
    pub progress: bool,
}

/// The values of a [`SyncBatch`].
pub struct BatchView {
    pub phase: SyncPhase,
    pub accounts: Seq<AccountView>,
    pub pending: bool,
    pub progress: bool,
}

impl View for SyncBatch {
    type V = BatchView;

    open spec fn view(&self) -> BatchView {
        BatchView {
            phase: self.phase,
            accounts: lists::views_of(self.accounts@),
            pending: self.pending,
            progress: self.progress,
        }
    }
}

/// What a batch asks for.
pub enum SyncAction {
    Nothing,
    LoadAccounts,
    LookUp(Account),
    Synchronise(Account),
}

/// The values of a [`SyncAction`].
pub enum ActionView {
    Nothing,
    LoadAccounts,
    LookUp(AccountView),
    Synchronise(AccountView),
}

impl View for SyncAction {
    type V = ActionView;

    open spec fn view(&self) -> ActionView {
        match *self {
            SyncAction::Nothing => ActionView::Nothing,
            SyncAction::LoadAccounts => ActionView::LoadAccounts,
            SyncAction::LookUp(account) => ActionView::LookUp(account@),
            SyncAction::Synchronise(account) => ActionView::Synchronise(account@),
        }
    }
}

/// What happened.
pub enum SyncEvent {
    /// A batch was asked for.
    Requested,
    /// The accounts were loaded; none where they could not be.
    AccountsLoaded(Option<Vec<Account>>),
    /// A password was looked for, and found or not.
    PasswordLookedUp(bool),
    /// An account was synchronised, with success or without.
    Synchronised,
}

/// A batch with what it asks for, and whether what is shown is to be drawn again.
pub struct SyncStep<B, A> {
    pub batch: B,
    pub action: A,
    pub refresh: bool,
}

impl BatchView {
    /// A batch that waits for an account has it.
    pub open spec fn wf(self) -> bool {
        match self.phase {
            SyncPhase::Lookup(k) => k < self.accounts.len(),
            SyncPhase::Sync(k) => k < self.accounts.len(),
            _ => true,
        }
    }
}

/// A batch that begins.
pub open spec fn begun(batch: BatchView, refresh: bool) -> SyncStep<BatchView, ActionView> {
    SyncStep {
        batch: BatchView { phase: SyncPhase::Accounts, progress: false, ..batch },
        action: ActionView::LoadAccounts,
        refresh,
    }
}

/// A batch that is done. Another begins where one was asked for meanwhile.
pub open spec fn done(batch: BatchView) -> SyncStep<BatchView, ActionView> {
    let rested = BatchView {
        phase: SyncPhase::Idle,
        accounts: seq![],
        pending: false,
        progress: false,
    };
    if batch.pending {
        begun(rested, batch.progress)
    } else {
        SyncStep { batch: rested, action: ActionView::Nothing, refresh: batch.progress }
    }
}

/// A batch that goes on with the account with a number.
pub open spec fn looking_up(batch: BatchView, k: int) -> SyncStep<BatchView, ActionView> {
    if k < batch.accounts.len() {
        SyncStep {
            batch: BatchView { phase: SyncPhase::Lookup(k as usize), ..batch },
            action: ActionView::LookUp(batch.accounts[k]),
            refresh: false,
        }
    } else {
        done(batch)
    }
}

/// A batch that does nothing with what happened.
pub open spec fn kept(batch: BatchView) -> SyncStep<BatchView, ActionView> {
    SyncStep { batch, action: ActionView::Nothing, refresh: false }
}

/// A batch after something happened. An account whose password is not found, or whose synchronisation
/// fails, is left for the next.
pub open spec fn batch_step(batch: BatchView, event: SyncEvent) -> SyncStep<BatchView, ActionView> {
    match (batch.phase, event) {
        (SyncPhase::Idle, SyncEvent::Requested) => begun(batch, false),
        (_, SyncEvent::Requested) => kept(BatchView { pending: true, ..batch }),
        (SyncPhase::Accounts, SyncEvent::AccountsLoaded(accounts)) => match accounts {
            Some(accounts) => looking_up(
                BatchView { accounts: lists::views_of(accounts@), ..batch },
                0,
            ),
            None => done(batch),
        },
        (SyncPhase::Lookup(k), SyncEvent::PasswordLookedUp(found)) => if found {
            SyncStep {
                batch: BatchView { phase: SyncPhase::Sync(k), ..batch },
                action: ActionView::Synchronise(batch.accounts[k as int]),
                refresh: false,
            }
        } else {
            looking_up(BatchView { progress: true, ..batch }, k + 1)
        },
        (SyncPhase::Sync(k), SyncEvent::Synchronised) => looking_up(
            BatchView { progress: true, ..batch },
            k + 1,
        ),
        _ => kept(batch),
    }
}

/// The values of a step.
pub open spec fn step_view(r: SyncStep<SyncBatch, SyncAction>) -> SyncStep<BatchView, ActionView> {
    SyncStep { batch: r.batch@, action: r.action@, refresh: r.refresh }
}

impl SyncBatch {
    /// A batch that waits for a request.
    pub fn new() -> (r: SyncBatch)
        ensures
            r@ == (BatchView {
                phase: SyncPhase::Idle,
                accounts: seq![],
                pending: false,
                progress: false,
            }),
            r@.wf(),
    {
        let r = SyncBatch {
            phase: SyncPhase::Idle,
            accounts: Vec::new(),
            pending: false,
            progress: false,
        };
        assert(r@.accounts =~= seq![]);
        r
    }

    /// Begin.
    fn begin(self, refresh: bool) -> (r: SyncStep<SyncBatch, SyncAction>)
        ensures
            step_view(r) == begun(self@, refresh),
            r.batch@.wf(),
    {
        let mut batch = self;
        batch.phase = SyncPhase::Accounts;
        batch.progress = false;
        SyncStep { batch, action: SyncAction::LoadAccounts, refresh }
    }

    /// End.
    fn finish(self) -> (r: SyncStep<SyncBatch, SyncAction>)
        ensures
            step_view(r) == done(self@),
            r.batch@.wf(),
    {
        let refresh = self.progress;
        let pending = self.pending;
        let rested = SyncBatch::new();
        if pending {
            rested.begin(refresh)
        } else {
            SyncStep { batch: rested, action: SyncAction::Nothing, refresh }
        }
    }

    /// Go on with the account with a number.
    fn look_up(self, k: usize) -> (r: SyncStep<SyncBatch, SyncAction>)
        ensures
            step_view(r) == looking_up(self@, k as int),
            r.batch@.wf(),
    {
        if k < self.accounts.len() {
            let mut batch = self;
            let account = batch.accounts[k].clone();
            batch.phase = SyncPhase::Lookup(k);
            SyncStep { batch, action: SyncAction::LookUp(account), refresh: false }
        } else {
            self.finish()
        }
    }

    /// Go on after something happened.
    pub fn step(self, event: SyncEvent) -> (r: SyncStep<SyncBatch, SyncAction>)
        requires
            self@.wf(),
        ensures
            step_view(r) == batch_step(self@, event),
            r.batch@.wf(),
    {
        let mut batch = self;
        match event {
            SyncEvent::Requested => match batch.phase {
                SyncPhase::Idle => {
                    return batch.begin(false);
                },
                _ => {
                    batch.pending = true;
                },
            },
            SyncEvent::AccountsLoaded(accounts) => if let SyncPhase::Accounts = batch.phase {
                match accounts {
                    Some(accounts) => {
                        batch.accounts = accounts;
                        return batch.look_up(0);
                    },
                    None => {
                        return batch.finish();
                    },
                }
            },
            SyncEvent::PasswordLookedUp(found) => if let SyncPhase::Lookup(k) = batch.phase {
                if found {
                    let account = batch.accounts[k].clone();
                    batch.phase = SyncPhase::Sync(k);
                    return SyncStep {
                        batch,
                        action: SyncAction::Synchronise(account),
                        refresh: false,
                    };
                }
                assert(batch.accounts.len() <= usize::MAX);
                batch.progress = true;
                return batch.look_up(k + 1);
            },
            SyncEvent::Synchronised => if let SyncPhase::Sync(k) = batch.phase {
                assert(batch.accounts.len() <= usize::MAX);
                batch.progress = true;
                return batch.look_up(k + 1);
            },
        }
        SyncStep { batch, action: SyncAction::Nothing, refresh: false }
    }
}

/// No account is skipped and none stops the others: after the account with a number comes the next,
/// whatever happened to it, and a batch ends only behind its last account.
pub proof fn law_no_account_is_skipped(batch: BatchView, event: SyncEvent, k: usize)
    requires
        batch.wf(),
        batch.phase == SyncPhase::Lookup(k) || batch.phase == SyncPhase::Sync(k),
        k + 1 < batch.accounts.len() <= usize::MAX,
    ensures
        ({
            let after = batch_step(batch, event).batch;
            &&& after.accounts == batch.accounts
            &&& after.phase == batch.phase || (batch.phase is Lookup && after.phase == SyncPhase::Sync(
                k,
            )) || after.phase == SyncPhase::Lookup((k + 1) as usize)
        }),
{
}

/// A request is never lost: one that comes while a batch is under way is remembered, and another
/// batch begins when that one is done.
pub proof fn law_no_request_is_lost(batch: BatchView)
    requires
        !(batch.phase is Idle),
    ensures
        batch_step(batch, SyncEvent::Requested).batch.pending,
        done(batch_step(batch, SyncEvent::Requested).batch).action is LoadAccounts,
{
}

// ---------------------------------------------------------------------------------------------
// Reminders
// ---------------------------------------------------------------------------------------------

/// How long after it is due a reminder is still delivered, in seconds.
pub const REMINDER_LOOKBACK: i64 = 3600;

/// From when on reminders are looked for.
pub open spec fn window_start(now: DateTime) -> DateTime {
    match date::later(now, Span { seconds: -3600i64, nanos: 0 }) {
        Some(start) => start,
        None => now,
    }
}

/// From when on reminders are looked for.
pub fn reminder_window_start(now: &DateTime) -> (r: DateTime)
    ensures
        r == window_start(*now),
{
    match now.plus(Span { seconds: -REMINDER_LOOKBACK, nanos: 0 }) {
        Some(start) => start,
        None => *now,
    }
}

/// Whether two reminders are the same: of one event and one occurrence, due at one instant, with one
/// text.
pub open spec fn is_same(a: DueView, b: DueView) -> bool {
    &&& a.event_id == b.event_id
    &&& a.occurrence_start@.same_instant(b.occurrence_start@)
    &&& a.trigger_at@.same_instant(b.trigger_at@)
    &&& a.description == b.description
}

/// Whether a list has a reminder.
pub open spec fn holds(list: Seq<DueView>, reminder: DueView) -> bool {
    exists|i: int| 0 <= i < list.len() && is_same(#[trigger] list[i], reminder)
}

/// A list with reminders that it did not have.
pub open spec fn remembered(list: Seq<DueView>, more: Seq<DueView>) -> Seq<DueView>
    decreases more.len(),
{
    if more.len() == 0 {
        list
    } else {
        let before = remembered(list, more.drop_last());
        if holds(before, more.last()) {
            before
        } else {
            before.push(more.last())
        }
    }
}

/// The reminders of a list that another did not have.
pub open spec fn fresh(list: Seq<DueView>, more: Seq<DueView>) -> Seq<DueView>
    decreases more.len(),
{
    if more.len() == 0 {
        seq![]
    } else {
        let before = fresh(list, more.drop_last());
        if holds(remembered(list, more.drop_last()), more.last()) {
            before
        } else {
            before.push(more.last())
        }
    }
}

/// Whether a reminder is due after an instant.
pub open spec fn is_due_after(start: DateTimeView) -> spec_fn(DueView) -> bool {
    |reminder: DueView| start.before(reminder.trigger_at@)
}

/// A copy of a reminder.
fn copy_reminder(reminder: &ReminderOccurrence) -> (r: ReminderOccurrence)
    ensures
        r@ == reminder@,
{
    ReminderOccurrence {
        event_id: reminder.event_id,
        occurrence_start: reminder.occurrence_start,
        trigger_at: reminder.trigger_at,
        description: reminder.description.clone(),
    }
}

/// The reminders that were delivered.
pub struct Delivered {
    reminders: Vec<ReminderOccurrence>,
}

impl View for Delivered {
    type V = Seq<DueView>;

    closed spec fn view(&self) -> Seq<DueView> {
        lists::views_of(self.reminders@)
    }
}

impl Delivered {
    /// None.
    pub fn new() -> (r: Delivered)
        ensures
            r@ == Seq::<DueView>::empty(),
    {
        let r = Delivered { reminders: Vec::new() };
        assert(r@ =~= Seq::<DueView>::empty());
        r
    }

    /// Whether a reminder was delivered.
    fn has(&self, reminder: &ReminderOccurrence) -> (r: bool)
        ensures
            r == holds(self@, reminder@),
    {
        let ghost all = self@;
        for i in 0..self.reminders.len()
            invariant
                all == lists::views_of(self.reminders@),
                all == self@,
                forall|k: int| 0 <= k < i ==> !is_same(#[trigger] all[k], reminder@),
        {
            let other = &self.reminders[i];
            if other.event_id == reminder.event_id && other.occurrence_start.same_instant(
                &reminder.occurrence_start,
            ) && other.trigger_at.same_instant(&reminder.trigger_at) && text::same_text(
                other.description.as_str(),
                reminder.description.as_str(),
            ) {
                assert(is_same(all[i as int], reminder@));
                return true;
            }
        }
        false
    }

    /// Note that reminders were delivered, and hand out those that were not before.
    pub fn deliver(&mut self, more: &Vec<ReminderOccurrence>) -> (r: Vec<ReminderOccurrence>)
        ensures
            final(self)@ == remembered(old(self)@, lists::views_of(more@)),
            lists::views_of(r@) == fresh(old(self)@, lists::views_of(more@)),
    {
        let ghost all = lists::views_of(more@);
        let ghost first = self@;
        let mut out: Vec<ReminderOccurrence> = Vec::new();
        assert(lists::views_of(out@) =~= fresh(first, all.take(0)));
        for i in 0..more.len()
            invariant
                all == lists::views_of(more@),
                self@ == remembered(first, all.take(i as int)),
                lists::views_of(out@) == fresh(first, all.take(i as int)),
        {
            let ghost before = self.reminders@;
            let ghost handed = out@;
            proof {
                lists::lemma_views_take(more@, i as int);
            }
            if !self.has(&more[i]) {
                let kept = copy_reminder(&more[i]);
                let given = copy_reminder(&more[i]);
                self.reminders.push(kept);
                out.push(given);
                proof {
                    lists::lemma_views_push(before, kept);
                    lists::lemma_views_push(handed, given);
                }
            }
        }
        proof {
            lists::lemma_views_all(more@);
        }
        out
    }

    /// Forget the reminders that are due no later than an instant.
    pub fn forget_until(&mut self, start: &DateTime)
        ensures
            final(self)@ == old(self)@.filter(is_due_after(start@)),
    {
        let ghost all = self@;
        let ghost keep = is_due_after(start@);
        let mut kept: Vec<ReminderOccurrence> = Vec::new();
        proof {
            reveal(Seq::filter);
            assert(lists::views_of(kept@) =~= all.take(0).filter(keep));
        }
        for i in 0..self.reminders.len()
            invariant
                all == lists::views_of(self.reminders@),
                keep == is_due_after(start@),
                lists::views_of(kept@) == all.take(i as int).filter(keep),
        {
            let ghost before = kept@;
            proof {
                lists::lemma_views_take(self.reminders@, i as int);
                crate::lines::lemma_filter_push(all.take(i as int), all[i as int], keep);
            }
            if start.before(&self.reminders[i].trigger_at) {
                let copy = copy_reminder(&self.reminders[i]);
                kept.push(copy);
                proof {
                    lists::lemma_views_push(before, copy);
                }
            }
        }
        proof {
            lists::lemma_views_all(self.reminders@);
        }
        self.reminders = kept;
    }
}

/// A reminder that was delivered is not delivered again, as long as it is not forgotten.
pub proof fn law_delivered_once(list: Seq<DueView>, more: Seq<DueView>, i: int)
    requires
        0 <= i < more.len(),
    ensures
        holds(remembered(list, more), more[i]),
        fresh(remembered(list, more), seq![more[i]]).len() == 0,
{
    lemma_remembered(list, more, i);
    let one = seq![more[i]];
    assert(one.drop_last() =~= seq![]);
    assert(one.last() == more[i]);
    assert(remembered(remembered(list, more), one.drop_last()) == remembered(list, more));
    assert(fresh(remembered(list, more), one.drop_last()) == Seq::<DueView>::empty());
}

proof fn lemma_remembered(list: Seq<DueView>, more: Seq<DueView>, i: int)
    requires
        0 <= i < more.len(),
    ensures
        holds(remembered(list, more), more[i]),
    decreases more.len(),
{
    let before = remembered(list, more.drop_last());
    let after = remembered(list, more);
    if i == more.len() - 1 {
        if !holds(before, more.last()) {
            assert(is_same(after[after.len() - 1], more.last()));
        }
    } else {
        lemma_remembered(list, more.drop_last(), i);
        let k = choose|k: int|
            0 <= k < before.len() && is_same(#[trigger] before[k], more.drop_last()[i]);
        assert(after[k] == before[k]);
        assert(is_same(after[k], more[i]));
    }
}

/// A reminder to show, with the title of its event.
#[derive(Debug)]
pub struct DueReminder {
    pub title: String,
    pub occurrence_start: DateTime,
    pub description: String,
}

/// The values of a [`DueReminder`].
pub struct NoticeView {
    pub title: Seq<char>,
    pub occurrence_start: DateTime,
    pub description: Seq<char>,
}

impl View for DueReminder {
    type V = NoticeView;

    open spec fn view(&self) -> NoticeView {
        NoticeView {
            title: self.title@,
            occurrence_start: self.occurrence_start,
            description: self.description@,
        }
    }
}

/// Reminders to show, with the title of their event.
pub open spec fn notices(title: Seq<char>, list: Seq<DueView>) -> Seq<NoticeView> {
    Seq::new(
        list.len(),
        |i: int|
            NoticeView {
                title,
                occurrence_start: list[i].occurrence_start,
                description: list[i].description,
            },
    )
}

/// What was delivered and what is to show after the reminders of some events.
pub open spec fn delivered_after(
    list: Seq<DueView>,
    found: Seq<(Seq<char>, Seq<DueView>)>,
) -> (Seq<DueView>, Seq<NoticeView>)
    decreases found.len(),
{
    if found.len() == 0 {
        (list, seq![])
    } else {
        let (before, shown) = delivered_after(list, found.drop_last());
        let (title, more) = found.last();
        (remembered(before, more), shown + notices(title, fresh(before, more)))
    }
}

/// An event's title with the reminders that were found for it.
pub struct FoundReminders {
    pub title: String,
    pub reminders: Vec<ReminderOccurrence>,
}

impl View for FoundReminders {
    type V = (Seq<char>, Seq<DueView>);

    open spec fn view(&self) -> (Seq<char>, Seq<DueView>) {
        (self.title@, lists::views_of(self.reminders@))
    }
}

/// Note that the reminders of events were delivered, and hand out those to show.
pub fn deliver_all(delivered: &mut Delivered, found: &Vec<FoundReminders>) -> (r: Vec<DueReminder>)
    ensures
        (final(delivered)@, lists::views_of(r@)) == delivered_after(
            old(delivered)@,
            lists::views_of(found@),
        ),
{
    let ghost all = lists::views_of(found@);
    let ghost first = delivered@;
    let mut out: Vec<DueReminder> = Vec::new();
    assert(lists::views_of(out@) =~= delivered_after(first, all.take(0)).1);
    for i in 0..found.len()
        invariant
            all == lists::views_of(found@),
            (delivered@, lists::views_of(out@)) == delivered_after(first, all.take(i as int)),
    {
        let ghost shown = lists::views_of(out@);
        proof {
            lists::lemma_views_take(found@, i as int);
        }
        let new = delivered.deliver(&found[i].reminders);
        let ghost part = notices(found@[i as int]@.0, lists::views_of(new@));
        for k in 0..new.len()
            invariant
                i < found@.len(),
                part == notices(found@[i as int]@.0, lists::views_of(new@)),
                lists::views_of(out@) == shown + part.take(k as int),
        {
            let ghost items = out@;
            let notice = DueReminder {
                title: found[i].title.clone(),
                occurrence_start: new[k].occurrence_start,
                description: new[k].description.clone(),
            };
            out.push(notice);
            proof {
                lists::lemma_views_push(items, notice);
                assert(part.take(k + 1) =~= part.take(k as int).push(notice@));
                assert(shown + part.take(k + 1) =~= (shown + part.take(k as int)).push(notice@));
            }
        }
        assert(part.take(part.len() as int) =~= part);
    }
    proof {
        lists::lemma_views_all(found@);
    }
    out
}

/// Whether the reminders of events were found in the hour before an instant.
pub open spec fn are_found(found: Seq<(Seq<char>, Seq<DueView>)>, events: Seq<EventView>, now: DateTime) -> bool {
    &&& found.len() == events.len()
    &&& forall|i: int|
        0 <= i < events.len() ==> is_found(#[trigger] found[i], events[i], now)
}

/// Whether the reminders of an event were found in the hour before an instant.
pub open spec fn is_found(found: (Seq<char>, Seq<DueView>), event: EventView, now: DateTime) -> bool {
    &&& found.0 == event.title
    &&& reminders::is_zoned_event(event) ==> found.1 == reminders::due_reminders(
        event,
        window_start(now),
        now,
        reminders::expansion_of(event, window_start(now), now),
    )
    &&& reminders::are_due(found.1, event, window_start(now), now)
}

/// The reminders of events in the hour before an instant.
pub fn find_reminders(events: &Vec<Event>, now: &DateTime) -> (r: Vec<FoundReminders>)
    ensures
        are_found(lists::views_of(r@), lists::views_of(events@), *now),
{
    let start = reminder_window_start(now);
    let mut out: Vec<FoundReminders> = Vec::new();
    for i in 0..events.len()
        invariant
            start == window_start(*now),
            out@.len() == i,
            forall|k: int| 0 <= k < i ==> is_found((#[trigger] out@[k])@, events@[k]@, *now),
    {
        let reminders = reminders::reminder_occurrences_in_window(&events[i], &start, now);
        let found = FoundReminders { title: events[i].title.clone(), reminders };
        out.push(found);
    }
    out
}

/// Note the reminders that were due before the start of the program as delivered.
pub fn seed_startup_reminders(delivered: &mut Delivered, now: &DateTime, events: &Vec<Event>)
    ensures
        exists|found: Seq<(Seq<char>, Seq<DueView>)>|
            #[trigger] are_found(found, lists::views_of(events@), *now) && final(delivered)@
                == delivered_after(old(delivered)@, found).0,
{
    let found = find_reminders(events, now);
    let ghost views = lists::views_of(found@);
    assert(are_found(views, lists::views_of(events@), *now));
    let _ = deliver_all(delivered, &found);
}

/// The reminders to show at an instant: those of the last hour that were not delivered.
pub fn check_reminders(delivered: &mut Delivered, now: &DateTime, events: &Vec<Event>) -> (r: Vec<
    DueReminder,
>)
    ensures
        exists|found: Seq<(Seq<char>, Seq<DueView>)>|
            #[trigger] are_found(found, lists::views_of(events@), *now) && (
            final(delivered)@,
            lists::views_of(r@),
        ) == delivered_after(
                old(delivered)@.filter(is_due_after(window_start(*now)@)),
                found,
            ),
{
    let start = reminder_window_start(now);
    delivered.forget_until(&start);
    let found = find_reminders(events, now);
    let ghost views = lists::views_of(found@);
    assert(are_found(views, lists::views_of(events@), *now));
    deliver_all(delivered, &found)
}

// ---------------------------------------------------------------------------------------------
// Notifications
// ---------------------------------------------------------------------------------------------

/// The time of an instant on clocks with an offset, as text.
pub open spec fn clock_text(
    at: DateTimeView,
    offset: Option<i64>,
    preference: TimeFormatPreference,
    system: Seq<char>,
) -> Seq<char> {
    let local = viewer_time::local_fixed(at, offset);
    time_format::time_text(
        date::Time { seconds: local.local_second() as u32, nanos: local.nanos as u32 },
        preference,
        system,
    )
}

/// The time of an instant on clocks with an offset, as text.
fn make_clock_text(
    at: &DateTime,
    offset: Option<i64>,
    preference: TimeFormatPreference,
    system: &str,
) -> (r: String)
    ensures
        r@ == clock_text(at@, offset, preference, system@),
{
    let local = viewer_time::to_local_fixed(at, offset);
    time_format::format_time(&local.local_time(), preference, system)
}

/// What a notification of one reminder says below its title. A text that only names the event is
/// left out.
pub open spec fn single_body(notice: NoticeView, time: Seq<char>) -> Seq<char> {
    let due = "Due at "@ + time;
    let description = text::trimmed(notice.description);
    if description.len() == 0 || text::lower(description) == text::lower(
        "Reminder for "@ + notice.title,
    ) {
        due
    } else {
        due + seq!['\n'] + description
    }
}

/// What a notification of several reminders says of each.
pub open spec fn line_of(notice: NoticeView, time: Seq<char>) -> Seq<char> {
    notice.title + " — "@ + time
}

/// The lines of a notification of several reminders.
pub open spec fn lines_of(shown: Seq<NoticeView>, times: Seq<Seq<char>>) -> Seq<Seq<char>> {
    Seq::new(shown.len(), |i: int| line_of(shown[i], times[i]))
}

/// The title and the text of a notification; none where nothing is to show.
pub open spec fn notification(shown: Seq<NoticeView>, times: Seq<Seq<char>>) -> Option<
    (Seq<char>, Seq<char>),
> {
    if shown.len() == 0 {
        None
    } else if shown.len() == 1 {
        Some((shown[0].title, single_body(shown[0], times[0])))
    } else {
        Some(
            (
                text::decimal(shown.len()) + " calendar reminders"@,
                text::join(lines_of(shown, times), seq!['\n']),
            ),
        )
    }
}

/// The title and the text of a notification. `offsets` are those of the clocks of the machine at the
/// start of each occurrence.
pub fn reminder_notification(
    shown: &Vec<DueReminder>,
    offsets: &Vec<Option<i64>>,
    preference: TimeFormatPreference,
    system: &str,
) -> (r: Option<(String, String)>)
    requires
        offsets@.len() == shown@.len(),
    ensures
        ({
            let times = Seq::new(
                shown@.len(),
                |i: int|
                    clock_text(
                        shown@[i].occurrence_start@,
                        offsets@[i],
                        preference,
                        system@,
                    ),
            );
            match r {
                Some((title, body)) => notification(lists::views_of(shown@), times) == Some(
                    (title@, body@),
                ),
                None => notification(lists::views_of(shown@), times) is None,
            }
        }),
{
    let ghost views = lists::views_of(shown@);
    let ghost times = Seq::new(
        shown@.len(),
        |i: int| clock_text(shown@[i].occurrence_start@, offsets@[i], preference, system@),
    );
    if shown.len() == 0 {
        return None;
    }
    if shown.len() == 1 {
        let one = &shown[0];
        let time = make_clock_text(&one.occurrence_start, offsets[0], preference, system);
        let mut body = text::joined("Due at ", time.as_str());
        let description = text::trim(one.description.as_str());
        let plain = text::joined("Reminder for ", one.title.as_str());
        let chars = text::chars_of(description.as_str());
        if chars.len() > 0 && !text::same_ignoring_case(&chars, plain.as_str()) {
            body.push('\n');
            body.append(description.as_str());
        }
        assert(body@ =~= single_body(views[0], times[0]));
        return Some((one.title.clone(), body));
    }
    let mut all: Vec<String> = Vec::new();
    for i in 0..shown.len()
        invariant
            offsets@.len() == shown@.len(),
            views == lists::views_of(shown@),
            times == Seq::new(
                shown@.len(),
                |i: int| clock_text(shown@[i].occurrence_start@, offsets@[i], preference, system@),
            ),
            all@.len() == i,
            forall|k: int| 0 <= k < i ==> (#[trigger] all@[k])@ == line_of(views[k], times[k]),
    {
        let time = make_clock_text(&shown[i].occurrence_start, offsets[i], preference, system);
        let mut line = text::joined(shown[i].title.as_str(), " — ");
        line.append(time.as_str());
        assert(line@ =~= line_of(views[i as int], times[i as int]));
        all.push(line);
    }
    assert(text::views(all@) =~= lines_of(views, times));
    let title = text::joined(text::decimal_text(shown.len() as u64).as_str(), " calendar reminders");
    let body = text::join_texts(&all, "\n");
    proof {
        reveal_strlit("\n");
        assert("\n"@ =~= seq!['\n']);
    }
    Some((title, body))
}

// ---------------------------------------------------------------------------------------------
// Laws of the batch and of the notices
// ---------------------------------------------------------------------------------------------

/// A batch goes through the accounts one after the other: for each the password is looked for, and
/// with one the account is synchronised; without one the next account follows. After the last the
/// batch ends, and what is shown is refreshed if any account was gone through.
pub proof fn law_steps_of_a_batch(batch: BatchView, k: usize)
    requires
        batch.wf(),
        batch.accounts.len() <= usize::MAX,
        k < batch.accounts.len(),
    ensures
        batch.phase == SyncPhase::Lookup(k) ==> {
            let found = batch_step(batch, SyncEvent::PasswordLookedUp(true));
            &&& found.action == ActionView::Synchronise(batch.accounts[k as int])
            &&& found.batch.phase == SyncPhase::Sync(k)
            &&& k + 1 < batch.accounts.len() ==> batch_step(batch, SyncEvent::PasswordLookedUp(false)).action
                == ActionView::LookUp(batch.accounts[k + 1])
        },
        batch.phase == SyncPhase::Sync(k) && k + 1 < batch.accounts.len() ==> batch_step(
            batch,
            SyncEvent::Synchronised,
        ).action == ActionView::LookUp(batch.accounts[k + 1]),
        batch.phase == SyncPhase::Sync(k) && k + 1 == batch.accounts.len() ==> {
            let last = batch_step(batch, SyncEvent::Synchronised);
            &&& last.refresh
            &&& batch.pending ==> last.action is LoadAccounts && last.batch.phase is Accounts
                && !last.batch.pending
            &&& !batch.pending ==> last.action is Nothing && last.batch.phase is Idle
        },
        batch.phase == SyncPhase::Lookup(k) && k + 1 == batch.accounts.len() ==> {
            let last = batch_step(batch, SyncEvent::PasswordLookedUp(false));
            &&& last.refresh
            &&& !batch.pending ==> last.action is Nothing && last.batch.phase is Idle
        },
{
}

/// A batch begins by loading the accounts, and looks for the password of the first; without any, or
/// where they cannot be loaded, it ends at once.
pub proof fn law_beginning_of_a_batch(batch: BatchView, accounts: Vec<Account>)
    ensures
        batch.phase is Idle ==> batch_step(batch, SyncEvent::Requested).action is LoadAccounts
            && batch_step(batch, SyncEvent::Requested).batch.phase is Accounts,
        batch.phase is Accounts && accounts@.len() > 0 ==> batch_step(
            batch,
            SyncEvent::AccountsLoaded(Some(accounts)),
        ).action == ActionView::LookUp(accounts@[0]@),
        batch.phase is Accounts && !batch.pending && accounts@.len() == 0 ==> batch_step(
            batch,
            SyncEvent::AccountsLoaded(Some(accounts)),
        ).action is Nothing,
        batch.phase is Accounts && !batch.pending ==> batch_step(
            batch,
            SyncEvent::AccountsLoaded(None),
        ).action is Nothing && batch_step(batch, SyncEvent::AccountsLoaded(None)).batch.phase is Idle,
{
}

/// Only accounts that are enabled are gone through.
pub proof fn law_enabled_accounts(account: AccountView)
    ensures
        (is_enabled())(account) <==> account.enabled,
{
}

/// Reminders of the last hour are looked at: the window begins 3600 seconds before now.
pub proof fn law_window_is_an_hour(now: DateTime)
    requires
        now@.valid(),
        now@.nanos < 1000000000,
        (DateTimeView { seconds: now@.seconds - 3600, ..now@ }).valid(),
    ensures
        window_start(now)@ == (DateTimeView { seconds: now@.seconds - 3600, ..now@ }),
{
    date::lemma_later(now, Span { seconds: -3600i64, nanos: 0 });
}

/// Of what is due, exactly what was not delivered before is delivered: nothing that was is delivered
/// again, and nothing that was not is left out.
pub proof fn law_what_is_delivered(list: Seq<DueView>, more: Seq<DueView>, r: DueView)
    ensures
        fresh(list, more).contains(r) ==> more.contains(r) && !holds(list, r),
        more.contains(r) && !holds(list, r) ==> holds(fresh(list, more), r),
        holds(remembered(list, more), r) <==> holds(list, r) || holds(more, r),
    decreases more.len(),
{
    if more.len() > 0 {
        let before = more.drop_last();
        let last = more.last();
        law_what_is_delivered(list, before, r);
        law_what_is_delivered(list, before, last);
        let kept = remembered(list, before);
        let earlier = fresh(list, before);
        let out = fresh(list, more);
        let all = remembered(list, more);
        assert(more[more.len() - 1] == last);
        if out.contains(r) {
            let k = choose|k: int| 0 <= k < out.len() && out[k] == r;
            if k < earlier.len() {
                assert(earlier[k] == r);
                let n = choose|n: int| 0 <= n < before.len() && before[n] == r;
                assert(more[n] == r);
            } else {
                assert(more.contains(last));
            }
        }
        if more.contains(r) && !holds(list, r) {
            let n = choose|n: int| 0 <= n < more.len() && more[n] == r;
            if n < before.len() {
                assert(before[n] == r);
                let k = choose|k: int| 0 <= k < earlier.len() && is_same(#[trigger] earlier[k], r);
                assert(out[k] == earlier[k]);
                assert(is_same(out[k], r));
            } else if holds(kept, last) {
                lemma_remembered_is_fresh(list, before, last);
                let k = choose|k: int| 0 <= k < earlier.len() && is_same(#[trigger] earlier[k], last);
                assert(out[k] == earlier[k]);
                assert(is_same(out[k], r));
            } else {
                assert(is_same(out[out.len() - 1], r));
            }
        }
        if holds(more, r) {
            let n = choose|n: int| 0 <= n < more.len() && is_same(#[trigger] more[n], r);
            if n < before.len() {
                assert(is_same(before[n], r));
                let k = choose|k: int| 0 <= k < kept.len() && is_same(#[trigger] kept[k], r);
                assert(is_same(all[k], r));
            } else if holds(kept, last) {
                let k = choose|k: int| 0 <= k < kept.len() && is_same(#[trigger] kept[k], last);
                assert(is_same(all[k], r));
            } else {
                assert(is_same(all[all.len() - 1], r));
            }
        }
        if holds(list, r) {
            let k = choose|k: int| 0 <= k < kept.len() && is_same(#[trigger] kept[k], r);
            assert(is_same(all[k], r));
        }
        if holds(all, r) {
            let k = choose|k: int| 0 <= k < all.len() && is_same(#[trigger] all[k], r);
            if k < kept.len() {
                assert(is_same(kept[k], r));
                if !holds(list, r) {
                    let n = choose|n: int| 0 <= n < before.len() && is_same(#[trigger] before[n], r);
                    assert(is_same(more[n], r));
                }
            } else {
                assert(is_same(more[more.len() - 1], r));
            }
        }
    }
}

proof fn lemma_remembered_is_fresh(list: Seq<DueView>, more: Seq<DueView>, r: DueView)
    requires
        holds(remembered(list, more), r),
        !holds(list, r),
    ensures
        holds(fresh(list, more), r),
    decreases more.len(),
{
    if more.len() > 0 {
        let before = more.drop_last();
        let kept = remembered(list, before);
        let all = remembered(list, more);
        let k = choose|k: int| 0 <= k < all.len() && is_same(#[trigger] all[k], r);
        let out = fresh(list, more);
        let earlier = fresh(list, before);
        if k < kept.len() {
            assert(is_same(kept[k], r));
            lemma_remembered_is_fresh(list, before, r);
            let n = choose|n: int| 0 <= n < earlier.len() && is_same(#[trigger] earlier[n], r);
            assert(is_same(out[n], r));
        } else {
            assert(is_same(out[out.len() - 1], r));
        }
    }
}

/// Two reminders are the same where they are for one event, one occurrence and one moment, with one
/// text.
pub proof fn law_same_reminders(a: DueView, b: DueView)
    ensures
        is_same(a, b) <==> a.event_id == b.event_id && a.occurrence_start@.seconds
            == b.occurrence_start@.seconds && a.occurrence_start@.nanos == b.occurrence_start@.nanos
            && a.trigger_at@.seconds == b.trigger_at@.seconds && a.trigger_at@.nanos
            == b.trigger_at@.nanos && a.description == b.description,
{
}

/// What a notification says: nothing without reminders; of one the title of its event and when it is
/// due, with its text below unless that says no more than the title; and of several how many there
/// are, and a line for each.
pub proof fn law_what_a_notification_says(shown: Seq<NoticeView>, times: Seq<Seq<char>>)
    ensures
        shown.len() == 0 ==> notification(shown, times) is None,
        shown.len() == 1 ==> (notification(shown, times) matches Some((title, body)) && title
            == shown[0].title && (text::trimmed(shown[0].description).len() == 0 ==> body == "Due at "@
            + times[0]) && (text::lower(text::trimmed(shown[0].description)) == text::lower(
            "Reminder for "@ + shown[0].title,
        ) ==> body == "Due at "@ + times[0]) && (text::trimmed(shown[0].description).len() > 0
            && text::lower(text::trimmed(shown[0].description)) != text::lower(
            "Reminder for "@ + shown[0].title,
        ) ==> body == "Due at "@ + times[0] + "\n"@ + text::trimmed(shown[0].description))),
        shown.len() > 1 ==> (notification(shown, times) matches Some((title, body)) && title
            == text::decimal(shown.len()) + " calendar reminders"@ && body == text::join(
            Seq::new(shown.len(), |i: int| shown[i].title + " — "@ + times[i]),
            "\n"@,
        )),
{
    reveal_strlit("\n");
    assert("\n"@ =~= seq!['\n']);
    assert(lines_of(shown, times) =~= Seq::new(
        shown.len(),
        |i: int| shown[i].title + " — "@ + times[i],
    ));
}

/// A notice is made for each reminder that is delivered, under the title of its event.
pub proof fn law_notice_for_each_reminder(title: Seq<char>, list: Seq<DueView>, i: int)
    requires
        0 <= i < list.len(),
    ensures
        notices(title, list).len() == list.len(),
        notices(title, list)[i].title == title,
        notices(title, list)[i].occurrence_start == list[i].occurrence_start,
        notices(title, list)[i].description == list[i].description,
{
}

/// What was delivered is remembered, and so is all that is found; there is one notice for each reminder
/// that was not delivered before.
pub proof fn law_delivered_one_after_another(
    list: Seq<DueView>,
    found: Seq<(Seq<char>, Seq<DueView>)>,
    r: DueView,
)
    ensures
        holds(delivered_after(list, found).0, r) <==> holds(list, r) || exists|i: int|
            0 <= i < found.len() && holds((#[trigger] found[i]).1, r),
        delivered_after(list, found).1.len() == delivered_after(list, found).0.len() - list.len(),
    decreases found.len(),
{
    if found.len() > 0 {
        let shorter = found.drop_last();
        law_delivered_one_after_another(list, shorter, r);
        let (before, shown) = delivered_after(list, shorter);
        let more = found.last().1;
        law_what_is_delivered(before, more, r);
        lemma_fresh_are_remembered(before, more);
        assert(found[found.len() - 1] == found.last());
        if exists|i: int| 0 <= i < shorter.len() && holds((#[trigger] shorter[i]).1, r) {
            let i = choose|i: int| 0 <= i < shorter.len() && holds((#[trigger] shorter[i]).1, r);
            assert(found[i] == shorter[i]);
        }
        if exists|i: int| 0 <= i < found.len() && holds((#[trigger] found[i]).1, r) {
            let i = choose|i: int| 0 <= i < found.len() && holds((#[trigger] found[i]).1, r);
            if i < shorter.len() {
                assert(shorter[i] == found[i]);
            }
        }
    }
}

/// What is remembered grows by what is new.
proof fn lemma_fresh_are_remembered(list: Seq<DueView>, more: Seq<DueView>)
    ensures
        remembered(list, more).len() == list.len() + fresh(list, more).len(),
    decreases more.len(),
{
    if more.len() > 0 {
        lemma_fresh_are_remembered(list, more.drop_last());
    }
}

/// A reminder is kept in mind while it is due after a moment.
pub proof fn law_kept_in_mind(start: DateTimeView, reminder: DueView)
    ensures
        is_due_after(start)(reminder) <==> start.before(reminder.trigger_at@),
        reminder.trigger_at@.before(start) || start.same_instant(reminder.trigger_at@) ==> !is_due_after(
            start,
        )(reminder),
{
}

/// The time of a reminder is that of the clocks of the viewer.
pub proof fn law_time_of_a_reminder(
    at: DateTimeView,
    offset: i64,
    preference: TimeFormatPreference,
    system: Seq<char>,
)
    requires
        viewer_time::local_fixed(at, Some(offset)) == at.at_offset(offset as int),
        0 <= at.nanos < 1000000000,
    ensures
        clock_text(at, Some(offset), preference, system) == time_format::time_text(
            date::Time {
                seconds: ((at.seconds + offset) % 86400) as u32,
                nanos: at.nanos as u32,
            },
            preference,
            system,
        ),
{
}

} // verus!
