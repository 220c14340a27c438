//! Managing calendars and accounts.
use vstd::prelude::*;

use crate::backend::caldav::DiscoveryWorkerError;
use crate::backend::ids;
use crate::backend::sync::InitialPullWorkerError;
use crate::backend::urls;
use crate::lists;
use crate::model;
use crate::model::{Account, AccountView, Calendar, CalendarSource, CalendarView, InvalidCalendar, Uuid};
use crate::sorting;
use crate::sorting::Ranked;
use crate::text;

verus! {

// ---------------------------------------------------------------------------------------------
// Lists
// ---------------------------------------------------------------------------------------------

/// The order of accounts: by name, then by identifier.
pub open spec fn by_name() -> spec_fn(AccountView, AccountView) -> bool {
    |a: AccountView, b: AccountView|
        text::text_before(a.name, b.name) || (a.name == b.name && a.id < b.id)
}

impl Ranked for Account {
    open spec fn order() -> spec_fn(AccountView, AccountView) -> bool {
        by_name()
    }

    fn comes_before(&self, other: &Account) -> (r: bool) {
        if text::text_less(self.name.as_str(), other.name.as_str()) {
            return true;
        }
        text::same_text(self.name.as_str(), other.name.as_str()) && self.id < other.id
    }
}

/// Accounts in the order in which they are listed.
pub fn listed_accounts(accounts: Vec<Account>) -> (r: Vec<Account>)
    ensures
        lists::views_of(r@) == sorting::sorted(lists::views_of(accounts@), by_name()),
{
    sorting::sort(accounts)
}

/// What a row says of a calendar.
pub open spec fn subtitle_of(source: CalendarSource, read_only: bool) -> Seq<char> {
    match (source, read_only) {
        (CalendarSource::CalDav { .. }, true) => "Read-only online calendar"@,
        (CalendarSource::CalDav { .. }, false) => "Online calendar"@,
        (CalendarSource::Local, true) => "Read-only local calendar"@,
        (CalendarSource::Local, false) => "Local calendar"@,
    }
}

/// What a row says of a calendar.
pub fn subtitle(calendar: &Calendar) -> (r: &'static str)
    ensures
        r@ == subtitle_of(calendar.source, calendar.read_only),
{
    match (calendar.source, calendar.read_only) {
        (CalendarSource::CalDav { .. }, true) => "Read-only online calendar",
        (CalendarSource::CalDav { .. }, false) => "Online calendar",
        (CalendarSource::Local, true) => "Read-only local calendar",
        (CalendarSource::Local, false) => "Local calendar",
    }
}

/// Whether a calendar can be removed: it is a local one that can be changed.
pub fn is_removable(calendar: &Calendar) -> (r: bool)
    ensures
        r == (!calendar.read_only && calendar.source is Local),
{
    match calendar.source {
        CalendarSource::Local => !calendar.read_only,
        CalendarSource::CalDav { .. } => false,
    }
}

// ---------------------------------------------------------------------------------------------
// Calendars
// ---------------------------------------------------------------------------------------------

/// A new local calendar with a name and a colour.
pub open spec fn new_local(id: Uuid, name: Seq<char>, color: Seq<char>) -> CalendarView {
    CalendarView {
        id,
        name,
        color,
        visible: true,
        read_only: false,
        source: CalendarSource::Local,
    }
}

/// A new local calendar with the identifier `id`, where its name and its colour are fit for one.
pub fn new_calendar_given(id: Uuid, name: &str, color: &str) -> (r: Result<Calendar, InvalidCalendar>)
    ensures
        match r {
            Ok(calendar) => model::is_storable_calendar(new_local(id, name@, color@)) && calendar@
                == model::normal_calendar(new_local(id, name@, color@)),
            Err(_) => !model::is_storable_calendar(new_local(id, name@, color@)),
        },
{
    model::validate_calendar(
        Calendar {
            id,
            name: String::from_str(name),
            color: String::from_str(color),
            visible: true,
            read_only: false,
            source: CalendarSource::Local,
        },
    )
}

/// A new local calendar with a new random identifier.
pub fn new_calendar(name: &str, color: &str) -> (r: Result<Calendar, InvalidCalendar>)
    ensures
        exists|id: Uuid|
            ids::is_random_id(id) && match r {
                Ok(calendar) => model::is_storable_calendar(new_local(id, name@, color@))
                    && calendar@ == model::normal_calendar(#[trigger] new_local(id, name@, color@)),
                Err(_) => !model::is_storable_calendar(new_local(id, name@, color@)),
            },
{
    let id: Uuid = ids::new_id();
    new_calendar_given(id, name, color)
}

/// A calendar with the changes that were entered. One that cannot be changed can be shown or hidden
/// only.
pub open spec fn changed(calendar: CalendarView, name: Seq<char>, color: Seq<char>, visible: bool) -> CalendarView {
    if calendar.read_only {
        CalendarView { visible, ..calendar }
    } else {
        CalendarView { name, color, visible, ..calendar }
    }
}

/// A calendar with the changes that were entered, where they are fit for one.
pub fn edited_calendar(calendar: &Calendar, name: &str, color: &str, visible: bool) -> (r: Result<
    Calendar,
    InvalidCalendar,
>)
    ensures
        match r {
            Ok(kept) => model::is_storable_calendar(changed(calendar@, name@, color@, visible))
                && kept@ == model::normal_calendar(changed(calendar@, name@, color@, visible)),
            Err(_) => !model::is_storable_calendar(changed(calendar@, name@, color@, visible)),
        },
{
    let mut candidate = calendar.clone();
    if !calendar.read_only {
        candidate.name = String::from_str(name);
        candidate.color = String::from_str(color);
    }
    candidate.visible = visible;
    model::validate_calendar(candidate)
}

// ---------------------------------------------------------------------------------------------
// Accounts
// ---------------------------------------------------------------------------------------------

/// Whether what was entered makes an account: a name, an address that HTTP requests can go to, a
/// user and a password.
pub open spec fn is_entry(
    name: Seq<char>,
    server_url: Seq<char>,
    username: Seq<char>,
    password: Seq<char>,
) -> bool {
    text::trimmed(name).len() > 0 && text::trimmed(server_url).len() > 0 && urls::is_http(
        text::trimmed(server_url),
    ) && text::trimmed(username).len() > 0 && password.len() > 0
}

/// The account that was entered, where it is complete.
pub fn entered_account(id: Uuid, name: &str, server_url: &str, username: &str, password: &str) -> (r:
    Option<Account>)
    ensures
        match r {
            Some(account) => is_entry(name@, server_url@, username@, password@) && account@ == (
            AccountView {
                id,
                name: text::trimmed(name@),
                server_url: text::trimmed(server_url@),
                username: text::trimmed(username@),
                enabled: true,
            }),
            None => !is_entry(name@, server_url@, username@, password@),
        },
{
    let name = text::trim(name);
    let server_url = text::trim(server_url);
    let username = text::trim(username);
    if name.as_str().is_empty() || server_url.as_str().is_empty() || !urls::is_http_url(
        server_url.as_str(),
    ) || username.as_str().is_empty() || password.is_empty() {
        return None;
    }
    Some(Account { id, name, server_url, username, enabled: true })
}

/// What is said of a discovery that failed.
pub open spec fn discovery_message(error: DiscoveryWorkerError) -> Seq<char> {
    match error {
        DiscoveryWorkerError::InvalidCredential => "The password is not a valid text credential."@,
        DiscoveryWorkerError::Http => "Could not connect to the CalDAV server."@,
        DiscoveryWorkerError::Parse => "The CalDAV server returned an invalid response."@,
        DiscoveryWorkerError::WorkerPanic => "The CalDAV discovery worker failed."@,
    }
}

/// What is said of a discovery that failed.
pub fn discovery_error_message(error: &DiscoveryWorkerError) -> (r: &'static str)
    ensures
        r@ == discovery_message(*error),
{
    match error {
        DiscoveryWorkerError::InvalidCredential => "The password is not a valid text credential.",
        DiscoveryWorkerError::Http => "Could not connect to the CalDAV server.",
        DiscoveryWorkerError::Parse => "The CalDAV server returned an invalid response.",
        DiscoveryWorkerError::WorkerPanic => "The CalDAV discovery worker failed.",
    }
}

/// What is said of a first import that failed.
pub open spec fn initial_pull_message(error: InitialPullWorkerError) -> Seq<char> {
    match error {
        InitialPullWorkerError::InvalidCredential => "The account was added, but its password could not be used for import. Check the password and try again."@,
        InitialPullWorkerError::Caldav => "The account was added, but its calendars could not be imported. Check the server connection and try again."@,
        InitialPullWorkerError::MissingCalendarSyncState => "The account was added, but calendar sync setup is incomplete. Remove and add the account again."@,
        InitialPullWorkerError::Repository => "The account was added, but imported events could not be saved. Check available disk space and try again."@,
        InitialPullWorkerError::WorkerPanic => "The account was added, but its initial calendar import failed unexpectedly. Try again later."@,
    }
}

/// What is said of a first import that failed.
pub fn initial_pull_error_message(error: &InitialPullWorkerError) -> (r: &'static str)
    ensures
        r@ == initial_pull_message(*error),
{
    match error {
        InitialPullWorkerError::InvalidCredential => "The account was added, but its password could not be used for import. Check the password and try again.",
        InitialPullWorkerError::Caldav => "The account was added, but its calendars could not be imported. Check the server connection and try again.",
        InitialPullWorkerError::MissingCalendarSyncState => "The account was added, but calendar sync setup is incomplete. Remove and add the account again.",
        InitialPullWorkerError::Repository => "The account was added, but imported events could not be saved. Check available disk space and try again.",
        InitialPullWorkerError::WorkerPanic => "The account was added, but its initial calendar import failed unexpectedly. Try again later.",
    }
}

// ---------------------------------------------------------------------------------------------
// Adding an online account
// ---------------------------------------------------------------------------------------------

/// What is being done to add an online account.
#[derive(Clone, Copy, Debug, PartialEq, Eq, Structural)]
pub enum OnlineStage {
    /// Nothing: the form can be filled in.
    Idle,
    /// The server is asked for its calendars.
    Discovery,
    /// The password is put into the store of credentials.
    Store,
    /// The account and its calendars are put into the store of events.
    Provision,
    /// The events are imported.
    InitialPull,
    /// The password is taken out of the store again.
    Cleanup,
}

/// What became of it.
#[derive(Debug)]
pub enum OnlineEvent {
    /// It is still going on.
    Waiting,
    /// Whoever did it stopped without an answer.
    Stopped,
    Discovered(Result<(), DiscoveryWorkerError>),
    /// Whether the password was stored.
    Stored(bool),
    /// The account was added, or why it was not.
    Provisioned(Result<(), String>),
    Pulled(Result<(), InitialPullWorkerError>),
    Cleaned,
}

/// What to do next.
#[derive(Clone, Copy, Debug, PartialEq, Eq, Structural)]
pub enum OnlineAction {
    /// Look again later.
    Wait,
    /// Store the password of the account.
    StoreCredential,
    /// Add the account and its calendars.
    Provision,
    /// Import the events of the account.
    Pull,
    /// Delete the password of the account.
    DeleteCredential,
    /// Show what was imported; nothing more is to be done.
    Refresh,
    /// Nothing more is to be done.
    Stop,
}

/// The next stage with what to do, what to say and whether the password is to be forgotten.
#[derive(Debug)]
pub struct OnlineStep {
    pub stage: OnlineStage,
    pub action: OnlineAction,
    pub message: Option<String>,
    pub forget_password: bool,
}

/// The values of an [`OnlineStep`].
pub struct OnlineStepView {
    pub stage: OnlineStage,
    pub action: OnlineAction,
    pub message: Option<Seq<char>>,
    pub forget_password: bool,
}

impl View for OnlineStep {
    type V = OnlineStepView;

    open spec fn view(&self) -> OnlineStepView {
        OnlineStepView {
            stage: self.stage,
            action: self.action,
            message: model::text_view(self.message),
            forget_password: self.forget_password,
        }
    }
}

/// The form is given back with a message.
pub open spec fn gave_up(message: Seq<char>) -> OnlineStepView {
    OnlineStepView {
        stage: OnlineStage::Idle,
        action: OnlineAction::Stop,
        message: Some(message),
        forget_password: true,
    }
}

/// Another stage begins without a message.
pub open spec fn goes_on(stage: OnlineStage, action: OnlineAction) -> OnlineStepView {
    OnlineStepView { stage, action, message: None, forget_password: false }
}

/// What follows on what became of a stage. What belongs to another stage changes nothing.
pub open spec fn next_step(stage: OnlineStage, event: OnlineEvent) -> OnlineStepView {
    match (stage, event) {
        (OnlineStage::Idle, _) => goes_on(OnlineStage::Idle, OnlineAction::Stop),
        (OnlineStage::Discovery, OnlineEvent::Stopped) => gave_up(
            "The CalDAV discovery worker stopped unexpectedly."@,
        ),
        (OnlineStage::Discovery, OnlineEvent::Discovered(Err(error))) => gave_up(
            discovery_message(error),
        ),
        (OnlineStage::Discovery, OnlineEvent::Discovered(Ok(_))) => goes_on(
            OnlineStage::Store,
            OnlineAction::StoreCredential,
        ),
        (OnlineStage::Store, OnlineEvent::Stopped) => gave_up(
            "The credential store worker stopped unexpectedly."@,
        ),
        (OnlineStage::Store, OnlineEvent::Stored(false)) => gave_up(
            "Could not securely store the account password."@,
        ),
        (OnlineStage::Store, OnlineEvent::Stored(true)) => goes_on(
            OnlineStage::Provision,
            OnlineAction::Provision,
        ),
        (OnlineStage::Provision, OnlineEvent::Provisioned(Ok(_))) => goes_on(
            OnlineStage::InitialPull,
            OnlineAction::Pull,
        ),
        (OnlineStage::Provision, OnlineEvent::Provisioned(Err(message))) => OnlineStepView {
            stage: OnlineStage::Cleanup,
            action: OnlineAction::DeleteCredential,
            message: Some(message@),
            forget_password: true,
        },
        (OnlineStage::InitialPull, OnlineEvent::Stopped) => gave_up(
            "The account was added, but its initial calendar import stopped unexpectedly. Try again later."@,
        ),
        (OnlineStage::InitialPull, OnlineEvent::Pulled(Err(error))) => gave_up(
            initial_pull_message(error),
        ),
        (OnlineStage::InitialPull, OnlineEvent::Pulled(Ok(_))) => OnlineStepView {
            stage: OnlineStage::Idle,
            action: OnlineAction::Refresh,
            message: None,
            forget_password: true,
        },
        (OnlineStage::Cleanup, OnlineEvent::Stopped) | (
            OnlineStage::Cleanup,
            OnlineEvent::Cleaned,
        ) => goes_on(OnlineStage::Idle, OnlineAction::Stop),
        _ => goes_on(stage, OnlineAction::Wait),
    }
}

/// The form is given back with a message.
fn give_up(message: &str) -> (r: OnlineStep)
    ensures
        r@ == gave_up(message@),
{
    OnlineStep {
        stage: OnlineStage::Idle,
        action: OnlineAction::Stop,
        message: Some(String::from_str(message)),
        forget_password: true,
    }
}

/// Another stage begins without a message.
fn go_on(stage: OnlineStage, action: OnlineAction) -> (r: OnlineStep)
    ensures
        r@ == goes_on(stage, action),
{
    OnlineStep { stage, action, message: None, forget_password: false }
}

/// What follows on what became of a stage.
pub fn poll_online_account(stage: OnlineStage, event: OnlineEvent) -> (r: OnlineStep)
    ensures
        r@ == next_step(stage, event),
{
    match (stage, event) {
        (OnlineStage::Idle, _) => go_on(OnlineStage::Idle, OnlineAction::Stop),
        (OnlineStage::Discovery, OnlineEvent::Stopped) => give_up(
            "The CalDAV discovery worker stopped unexpectedly.",
        ),
        (OnlineStage::Discovery, OnlineEvent::Discovered(Err(error))) => give_up(
            discovery_error_message(&error),
        ),
        (OnlineStage::Discovery, OnlineEvent::Discovered(Ok(_))) => go_on(
            OnlineStage::Store,
            OnlineAction::StoreCredential,
        ),
        (OnlineStage::Store, OnlineEvent::Stopped) => give_up(
            "The credential store worker stopped unexpectedly.",
        ),
        (OnlineStage::Store, OnlineEvent::Stored(stored)) => if stored {
            go_on(OnlineStage::Provision, OnlineAction::Provision)
        } else {
            give_up("Could not securely store the account password.")
        },
        (OnlineStage::Provision, OnlineEvent::Provisioned(Ok(_))) => go_on(
            OnlineStage::InitialPull,
            OnlineAction::Pull,
        ),
        (OnlineStage::Provision, OnlineEvent::Provisioned(Err(message))) => OnlineStep {
            stage: OnlineStage::Cleanup,
            action: OnlineAction::DeleteCredential,
            message: Some(message),
            forget_password: true,
        },
        (OnlineStage::InitialPull, OnlineEvent::Stopped) => give_up(
            "The account was added, but its initial calendar import stopped unexpectedly. Try again later.",
        ),
        (OnlineStage::InitialPull, OnlineEvent::Pulled(Err(error))) => give_up(
            initial_pull_error_message(&error),
        ),
        (OnlineStage::InitialPull, OnlineEvent::Pulled(Ok(_))) => OnlineStep {
            stage: OnlineStage::Idle,
            action: OnlineAction::Refresh,
            message: None,
            forget_password: true,
        },
        (OnlineStage::Cleanup, OnlineEvent::Stopped) => go_on(OnlineStage::Idle, OnlineAction::Stop),
        (OnlineStage::Cleanup, OnlineEvent::Cleaned) => go_on(OnlineStage::Idle, OnlineAction::Stop),
        _ => go_on(stage, OnlineAction::Wait),
    }
}

impl OnlineStage {
    /// Whether the form is shut: something is being done.
    pub fn is_busy(&self) -> (r: bool)
        ensures
            r == !(*self is Idle),
    {
        match self {
            OnlineStage::Idle => false,
            _ => true,
        }
    }
}

/// The stages after a number of events, from the request to connect on.
pub open spec fn stage_after(events: Seq<OnlineEvent>) -> OnlineStage
    decreases events.len(),
{
    if events.len() == 0 {
        OnlineStage::Discovery
    } else {
        next_step(stage_after(events.drop_last()), events.last()).stage
    }
}

/// How often an action was asked for.
pub open spec fn asked(events: Seq<OnlineEvent>, action: OnlineAction) -> nat
    decreases events.len(),
{
    if events.len() == 0 {
        0
    } else {
        asked(events.drop_last(), action) + (if next_step(
            stage_after(events.drop_last()),
            events.last(),
        ).action == action {
            1nat
        } else {
            0
        })
    }
}

/// However the parts of adding an account come out, the password is stored once at most, the account
/// is added only once the password was stored, events are imported only once the account was added,
/// and a password that was stored for an account that could not be added is deleted.
pub proof fn law_account_is_added_in_order(events: Seq<OnlineEvent>)
    ensures
        asked(events, OnlineAction::StoreCredential) <= 1,
        asked(events, OnlineAction::Provision) <= asked(events, OnlineAction::StoreCredential),
        asked(events, OnlineAction::Pull) + asked(events, OnlineAction::DeleteCredential) <= asked(
            events,
            OnlineAction::Provision,
        ),
        stage_after(events) is Idle && asked(events, OnlineAction::Provision) == 1 ==> asked(
            events,
            OnlineAction::Pull,
        ) + asked(events, OnlineAction::DeleteCredential) == 1,
{
    lemma_asked(events);
}

proof fn lemma_asked(events: Seq<OnlineEvent>)
    ensures
        ({
            let stored = asked(events, OnlineAction::StoreCredential);
            let added = asked(events, OnlineAction::Provision);
            let followed = asked(events, OnlineAction::Pull) + asked(
                events,
                OnlineAction::DeleteCredential,
            );
            match stage_after(events) {
                OnlineStage::Discovery => stored == 0 && added == 0 && followed == 0,
                OnlineStage::Store => stored == 1 && added == 0 && followed == 0,
                OnlineStage::Provision => stored == 1 && added == 1 && followed == 0,
                OnlineStage::InitialPull | OnlineStage::Cleanup => stored == 1 && added == 1
                    && followed == 1,
                OnlineStage::Idle => stored <= 1 && added <= stored && followed == added,
            }
        }),
    decreases events.len(),
{
    if events.len() > 0 {
        lemma_asked(events.drop_last());
    }
}

/// A new calendar is shown, can be changed and belongs to no account. Of a calendar that nobody can
/// change, only whether it is shown is changed.
pub proof fn law_changed_calendars(
    id: Uuid,
    calendar: CalendarView,
    name: Seq<char>,
    color: Seq<char>,
    visible: bool,
)
    ensures
        ({
            let made = new_local(id, name, color);
            made.id == id && made.name == name && made.color == color && made.visible && !made.read_only
                && made.source == CalendarSource::Local
        }),
        ({
            let now = changed(calendar, name, color, visible);
            &&& now.id == calendar.id && now.source == calendar.source && now.read_only
                == calendar.read_only && now.visible == visible
            &&& calendar.read_only ==> now.name == calendar.name && now.color == calendar.color
            &&& !calendar.read_only ==> now.name == name && now.color == color
        }),
{
}

/// What is said of a calendar: where it is, and whether it can only be read.
pub proof fn law_subtitles_of_calendars(account_id: Uuid)
    ensures
        subtitle_of(CalendarSource::Local, false) == "Local calendar"@,
        subtitle_of(CalendarSource::Local, true) == "Read-only local calendar"@,
        subtitle_of(CalendarSource::CalDav { account_id }, false) == "Online calendar"@,
        subtitle_of(CalendarSource::CalDav { account_id }, true) == "Read-only online calendar"@,
{
}

/// An account can be entered exactly where nothing of it is blank and its address is one of the web.
pub proof fn law_accounts_that_can_be_entered(
    name: Seq<char>,
    server_url: Seq<char>,
    username: Seq<char>,
    password: Seq<char>,
)
    ensures
        is_entry(name, server_url, username, password) <==> text::trimmed(name) != Seq::<char>::empty()
            && text::trimmed(server_url) != Seq::<char>::empty() && text::trimmed(username) != Seq::<
            char,
        >::empty() && password != Seq::<char>::empty() && urls::is_http(text::trimmed(server_url)),
{
    assert(text::trimmed(name).len() == 0 ==> text::trimmed(name) =~= Seq::empty());
    assert(text::trimmed(server_url).len() == 0 ==> text::trimmed(server_url) =~= Seq::empty());
    assert(text::trimmed(username).len() == 0 ==> text::trimmed(username) =~= Seq::empty());
    assert(password.len() == 0 ==> password =~= Seq::empty());
}

/// The way to an account: its calendars are found, its password is stored, it is added, its events are
/// imported, and what was imported is shown.
pub proof fn law_way_to_an_account()
    ensures
        ({
            let found = next_step(OnlineStage::Discovery, OnlineEvent::Discovered(Ok(())));
            let stored = next_step(found.stage, OnlineEvent::Stored(true));
            let added = next_step(stored.stage, OnlineEvent::Provisioned(Ok(())));
            let pulled = next_step(added.stage, OnlineEvent::Pulled(Ok(())));
            &&& found.action is StoreCredential && found.message is None && !found.forget_password
            &&& stored.action is Provision && stored.message is None && !stored.forget_password
            &&& added.action is Pull && added.message is None && !added.forget_password
            &&& pulled.action is Refresh && pulled.message is None && pulled.forget_password
            &&& pulled.stage is Idle
        }),
{
}

/// Where a step fails, nothing more is done than to take back what a later step needs undone: the
/// password is deleted where the account could not be added. The failure is said, and the password is
/// forgotten.
pub proof fn law_failed_steps(stage: OnlineStage, event: OnlineEvent, message: String)
    requires
        stage is Discovery || stage is Store || stage is InitialPull,
        event is Stopped || event matches OnlineEvent::Discovered(Err(_)) || event
            == OnlineEvent::Stored(false) || event matches OnlineEvent::Pulled(Err(_)),
        event is Discovered ==> stage is Discovery,
        event is Stored ==> stage is Store,
        event is Pulled ==> stage is InitialPull,
    ensures
        next_step(stage, event).stage is Idle,
        next_step(stage, event).action is Stop,
        next_step(stage, event).message is Some,
        next_step(stage, event).forget_password,
        ({
            let step = next_step(OnlineStage::Provision, OnlineEvent::Provisioned(Err(message)));
            step.stage is Cleanup && step.action is DeleteCredential && step.message == Some(message@)
                && step.forget_password
        }),
        next_step(OnlineStage::Cleanup, OnlineEvent::Cleaned).stage is Idle,
        next_step(OnlineStage::Cleanup, OnlineEvent::Cleaned).action is Stop,
        next_step(OnlineStage::Cleanup, OnlineEvent::Stopped).stage is Idle,
{
}

/// While a step goes on it is waited for, and nothing happens once all is done.
pub proof fn law_waiting_for_steps(stage: OnlineStage, event: OnlineEvent)
    ensures
        next_step(stage, OnlineEvent::Waiting).stage == stage,
        next_step(stage, OnlineEvent::Waiting).message is None,
        !next_step(stage, OnlineEvent::Waiting).forget_password,
        !(stage is Idle) ==> next_step(stage, OnlineEvent::Waiting).action is Wait,
        next_step(OnlineStage::Idle, event).stage is Idle,
        next_step(OnlineStage::Idle, event).action is Stop,
        next_step(OnlineStage::Idle, event).message is None,
{
}

/// Accounts are listed by their names, and those with one name by their identifiers.
pub proof fn law_order_of_accounts(a: AccountView, b: AccountView)
    ensures
        text::text_before(a.name, b.name) ==> by_name()(a, b),
        a.name == b.name ==> (by_name()(a, b) <==> a.id < b.id || text::text_before(a.name, a.name)),
        a.name != b.name && !text::text_before(a.name, b.name) ==> !by_name()(a, b),
{
}

/// What is said where the calendars of an account could not be found or imported.
pub proof fn law_messages_of_failed_accounts()
    ensures
        discovery_message(DiscoveryWorkerError::InvalidCredential)
            == "The password is not a valid text credential."@,
        discovery_message(DiscoveryWorkerError::Http) == "Could not connect to the CalDAV server."@,
        discovery_message(DiscoveryWorkerError::Parse)
            == "The CalDAV server returned an invalid response."@,
        discovery_message(DiscoveryWorkerError::WorkerPanic) == "The CalDAV discovery worker failed."@,
        initial_pull_message(InitialPullWorkerError::InvalidCredential)
            == "The account was added, but its password could not be used for import. Check the password and try again."@,
        initial_pull_message(InitialPullWorkerError::Caldav)
            == "The account was added, but its calendars could not be imported. Check the server connection and try again."@,
        initial_pull_message(InitialPullWorkerError::MissingCalendarSyncState)
            == "The account was added, but calendar sync setup is incomplete. Remove and add the account again."@,
        initial_pull_message(InitialPullWorkerError::Repository)
            == "The account was added, but imported events could not be saved. Check available disk space and try again."@,
        initial_pull_message(InitialPullWorkerError::WorkerPanic)
            == "The account was added, but its initial calendar import failed unexpectedly. Try again later."@,
        next_step(OnlineStage::Discovery, OnlineEvent::Stopped).message == Some(
            "The CalDAV discovery worker stopped unexpectedly."@,
        ),
        next_step(OnlineStage::Store, OnlineEvent::Stopped).message == Some(
            "The credential store worker stopped unexpectedly."@,
        ),
        next_step(OnlineStage::Store, OnlineEvent::Stored(false)).message == Some(
            "Could not securely store the account password."@,
        ),
        forall|error: DiscoveryWorkerError|
            (#[trigger] next_step(
                OnlineStage::Discovery,
                OnlineEvent::Discovered(Err(error)),
            )).message == Some(discovery_message(error)),
        forall|error: InitialPullWorkerError|
            (#[trigger] next_step(OnlineStage::InitialPull, OnlineEvent::Pulled(Err(error)))).message
                == Some(initial_pull_message(error)),
{
}

} // verus!
