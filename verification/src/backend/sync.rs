//! Pulling changes from a calendar server, and pushing changes to it.
use vstd::prelude::*;

use crate::backend::caldav::mapping;
use crate::backend::caldav::serialize;
use crate::backend::caldav::{CaldavError, CollectionView, EventMappingError, MappedView, RecordView, ResourceRecord, ResourceWriteResult, SyncCollection};
use crate::backend::exceptions::Child;
use crate::backend::ids;
use crate::backend::reconcile;
use crate::backend::reconcile::{ContentView, IncomingResource, IncomingView, MappedResource, RemoteSnapshotSummary};
use crate::backend::store;
use crate::backend::store::{StoreWrite, WriteView};
use crate::backend::urls;
use crate::backend::RepositoryError;
use crate::lists;
use crate::model;
use crate::model::{
    Calendar, CalendarSource, CalendarSyncState, CalendarSyncView, CalendarView, Event,
    EventSyncState, EventSyncView, PendingSyncOperation, PendingView, Uuid,
};
use crate::rules;
use crate::text;

verus! {

// ---------------------------------------------------------------------------------------------
// Reading resources
// ---------------------------------------------------------------------------------------------

/// What a resource holds, where `mapped` is the event that was read from it.
pub open spec fn content_of(mapped: MappedView) -> ContentView {
    ContentView { master: mapped, exceptions: seq![] }
}

/// Whether an outcome is that of reading a resource. Whether a recurrence in local times is accepted
/// can depend on the zone of the machine.
pub open spec fn is_read(content: Option<ContentView>, resource: Seq<char>, event_id: Uuid, calendar_id: Uuid) -> bool {
    exists|valid: bool|
        #[trigger] rules::is_verdict(valid, mapping::resource_text_to_accept(resource)) && content
            == match mapping::mapped_resource(resource, event_id, calendar_id, valid) {
            Ok(mapped) => Some(content_of(mapped)),
            Err(_) => None,
        }
}

/// Read the one event of a resource, which has no exceptions of its own; none where it cannot be
/// read.
pub fn map_icalendar_resource(resource: &str, event_id: Uuid, calendar_id: Uuid) -> (r: Result<
    MappedResource,
    EventMappingError,
>)
    ensures
        r matches Ok(content) ==> is_read(Some(content@), resource@, event_id, calendar_id),
        r is Err ==> is_read(None, resource@, event_id, calendar_id),
{
    let mapped = mapping::map_icalendar_event(resource, event_id, calendar_id);
    match mapped {
        Ok(master) => {
            let exceptions: Vec<Child> = Vec::new();
            let content = MappedResource { master, exceptions };
            assert(content@.exceptions =~= seq![]);
            Ok(content)
        },
        Err(error) => Err(error),
    }
}

/// Whether a resource was made ready: its calendar data read, where it has any.
pub open spec fn is_incoming(incoming: IncomingView, record: RecordView, fresh_id: Uuid, calendar_id: Uuid) -> bool {
    &&& incoming.record == record
    &&& incoming.fresh_id == fresh_id
    &&& match record.calendar_data {
        Some(resource) => is_read(incoming.mapped, resource, fresh_id, calendar_id),
        None => incoming.mapped is None,
    }
}

/// Make a resource ready for the calendar that it belongs to.
pub fn incoming_resource(record: ResourceRecord, fresh_id: Uuid, calendar_id: Uuid) -> (r: IncomingResource)
    ensures
        is_incoming(r@, record@, fresh_id, calendar_id),
{
    let mapped = match &record.calendar_data {
        Some(resource) => match map_icalendar_resource(resource.as_str(), fresh_id, calendar_id) {
            Ok(content) => Some(content),
            Err(_) => None,
        },
        None => None,
    };
    IncomingResource { record, fresh_id, mapped }
}

// ---------------------------------------------------------------------------------------------
// Pulling
// ---------------------------------------------------------------------------------------------

/// Why a calendar could not be pulled.
#[derive(Debug)]
pub enum PullSyncError {
    Caldav(CaldavError),
    MissingCalendarSyncState,
    Repository(RepositoryError),
}

/// What to do next to pull a calendar.
pub enum PullAction {
    /// Ask for all resources at an address. `clearing` says that the sync token is no longer
    /// accepted.
    FetchResources { url: String, clearing: bool },
    /// Ask an address for the changes since a sync token.
    FetchChanges { url: String, sync_token: String },
    /// Take over all resources of the calendar.
    TakeSnapshot { resources: Vec<ResourceRecord>, clearing: bool },
    /// Take over changes of the calendar.
    TakeChanges { changes: SyncCollection },
    /// Give up.
    Fail(PullSyncError),
}

/// The values of a [`PullAction`].
pub enum PullView {
    FetchResources { url: Seq<char>, clearing: bool },
    FetchChanges { url: Seq<char>, sync_token: Seq<char> },
    TakeSnapshot { resources: Seq<RecordView>, clearing: bool },
    TakeChanges { changes: CollectionView },
    Fail(PullSyncError),
}

impl View for PullAction {
    type V = PullView;

    open spec fn view(&self) -> PullView {
        match *self {
            PullAction::FetchResources { url, clearing } => PullView::FetchResources {
                url: url@,
                clearing,
            },
            PullAction::FetchChanges { url, sync_token } => PullView::FetchChanges {
                url: url@,
                sync_token: sync_token@,
            },
            PullAction::TakeSnapshot { resources, clearing } => PullView::TakeSnapshot {
                resources: lists::views_of(resources@),
                clearing,
            },
            PullAction::TakeChanges { changes } => PullView::TakeChanges { changes: changes@ },
            PullAction::Fail(error) => PullView::Fail(error),
        }
    }
}

/// How the pull of a calendar begins: with the changes since its sync token, where it has one.
pub open spec fn pull_begins(state: Option<CalendarSyncView>) -> PullView {
    match state {
        None => PullView::Fail(PullSyncError::MissingCalendarSyncState),
        Some(state) => match state.sync_token {
            Some(sync_token) => if text::trimmed(sync_token).len() > 0 {
                PullView::FetchChanges { url: state.remote_url, sync_token }
            } else {
                PullView::FetchResources { url: state.remote_url, clearing: false }
            },
            None => PullView::FetchResources { url: state.remote_url, clearing: false },
        },
    }
}

/// Begin to pull a calendar.
pub fn pull_calendar_snapshot(state: &Option<CalendarSyncState>) -> (r: PullAction)
    ensures
        r@ == pull_begins(lists::view_of(*state)),
{
    match state {
        None => PullAction::Fail(PullSyncError::MissingCalendarSyncState),
        Some(state) => {
            if let Some(sync_token) = &state.sync_token {
                if text::trim_chars(&text::chars_of(sync_token.as_str())).len() > 0 {
                    return PullAction::FetchChanges {
                        url: state.remote_url.clone(),
                        sync_token: sync_token.clone(),
                    };
                }
            }
            PullAction::FetchResources { url: state.remote_url.clone(), clearing: false }
        },
    }
}

/// How the first pull of a calendar begins: with all its resources.
pub open spec fn full_pull_begins(state: Option<CalendarSyncView>) -> PullView {
    match state {
        None => PullView::Fail(PullSyncError::MissingCalendarSyncState),
        Some(state) => PullView::FetchResources { url: state.remote_url, clearing: false },
    }
}

/// Begin to pull all resources of a calendar.
pub fn pull_calendar_full_snapshot(state: &Option<CalendarSyncState>) -> (r: PullAction)
    ensures
        r@ == full_pull_begins(lists::view_of(*state)),
{
    match state {
        None => PullAction::Fail(PullSyncError::MissingCalendarSyncState),
        Some(state) => PullAction::FetchResources {
            url: state.remote_url.clone(),
            clearing: false,
        },
    }
}

/// What an answer with resources leads to.
pub open spec fn after_resources(
    clearing: bool,
    answer: Result<Vec<ResourceRecord>, CaldavError>,
) -> PullView {
    match answer {
        Ok(resources) => PullView::TakeSnapshot { resources: lists::views_of(resources@), clearing },
        Err(error) => PullView::Fail(PullSyncError::Caldav(error)),
    }
}

/// Go on with an answer to [`PullAction::FetchResources`].
pub fn resources_answered(clearing: bool, answer: Result<Vec<ResourceRecord>, CaldavError>) -> (r:
    PullAction)
    ensures
        r@ == after_resources(clearing, answer),
{
    match answer {
        Ok(resources) => PullAction::TakeSnapshot { resources, clearing },
        Err(error) => PullAction::Fail(PullSyncError::Caldav(error)),
    }
}

/// What an answer with changes leads to: a server that refuses the sync token is asked for all
/// resources.
pub open spec fn after_changes(url: Seq<char>, answer: Result<SyncCollection, CaldavError>) -> PullView {
    match answer {
        Ok(changes) => PullView::TakeChanges { changes: changes@ },
        Err(CaldavError::HttpStatus { status: 403 }) => PullView::FetchResources {
            url,
            clearing: true,
        },
        Err(error) => PullView::Fail(PullSyncError::Caldav(error)),
    }
}

/// Go on with an answer to [`PullAction::FetchChanges`].
pub fn changes_answered(url: String, answer: Result<SyncCollection, CaldavError>) -> (r: PullAction)
    ensures
        r@ == after_changes(url@, answer),
{
    match answer {
        Ok(changes) => PullAction::TakeChanges { changes },
        Err(CaldavError::HttpStatus { status: 403 }) => PullAction::FetchResources {
            url,
            clearing: true,
        },
        Err(error) => PullAction::Fail(PullSyncError::Caldav(error)),
    }
}

// ---------------------------------------------------------------------------------------------
// The first pull of an account
// ---------------------------------------------------------------------------------------------

/// What the first pull of the calendars of an account did.
#[derive(Clone, Copy, Debug, PartialEq, Eq, Structural)]
pub struct InitialPullSummary {
    pub calendars: usize,
    pub added: usize,
    pub updated: usize,
    pub deleted: usize,
    pub skipped: usize,
}

/// Why the first pull of an account failed. It names nothing of the account or its password, so
/// that showing it discloses no secret.
#[derive(Clone, Copy, Debug, PartialEq, Eq, Structural)]
pub enum InitialPullWorkerError {
    InvalidCredential,
    Caldav,
    MissingCalendarSyncState,
    Repository,
    WorkerPanic,
}

/// Whether a calendar belongs to an account.
pub open spec fn belongs_to(account_id: Uuid) -> spec_fn(CalendarView) -> bool {
    |calendar: CalendarView| calendar.source == (CalendarSource::CalDav { account_id })
}

/// The calendars of an account, in order.
pub fn calendars_of_account(calendars: &Vec<Calendar>, account_id: Uuid) -> (r: Vec<Calendar>)
    ensures
        model::calendar_views(r@) == model::calendar_views(calendars@).filter(
            belongs_to(account_id),
        ),
{
    let ghost views = model::calendar_views(calendars@);
    let mut out: Vec<Calendar> = Vec::new();
    proof {
        reveal(Seq::filter);
        assert(model::calendar_views(out@) =~= views.take(0).filter(belongs_to(account_id)));
    }
    for i in 0..calendars.len()
        invariant
            views == model::calendar_views(calendars@),
            model::calendar_views(out@) == views.take(i as int).filter(belongs_to(account_id)),
    {
        let ghost before = out@;
        proof {
            assert(views.take(i + 1) =~= views.take(i as int).push(views[i as int]));
            crate::lines::lemma_filter_push(
                views.take(i as int),
                views[i as int],
                belongs_to(account_id),
            );
        }
        let belongs = match calendars[i].source {
            CalendarSource::CalDav { account_id: owner } => owner == account_id,
            _ => false,
        };
        if belongs {
            let calendar = calendars[i].clone();
            out.push(calendar);
            assert(model::calendar_views(out@) =~= model::calendar_views(before).push(calendar@));
        }
    }
    assert(views.take(views.len() as int) =~= views);
    out
}

impl InitialPullSummary {
    /// The summary of no calendars.
    pub fn empty() -> (r: InitialPullSummary)
        ensures
            r == (InitialPullSummary { calendars: 0, added: 0, updated: 0, deleted: 0, skipped: 0 }),
    {
        InitialPullSummary { calendars: 0, added: 0, updated: 0, deleted: 0, skipped: 0 }
    }

    /// The summary with one more calendar.
    pub fn with_calendar(self, pulled: &RemoteSnapshotSummary) -> (r: InitialPullSummary)
        requires
            self.calendars < usize::MAX,
            self.added + pulled.added <= usize::MAX,
            self.updated + pulled.updated <= usize::MAX,
            self.deleted + pulled.deleted <= usize::MAX,
            self.skipped + pulled.skipped <= usize::MAX,
        ensures
            r.calendars == self.calendars + 1,
            r.added == self.added + pulled.added,
            r.updated == self.updated + pulled.updated,
            r.deleted == self.deleted + pulled.deleted,
            r.skipped == self.skipped + pulled.skipped,
    {
        InitialPullSummary {
            calendars: self.calendars + 1,
            added: self.added + pulled.added,
            updated: self.updated + pulled.updated,
            deleted: self.deleted + pulled.deleted,
            skipped: self.skipped + pulled.skipped,
        }
    }
}

/// What the failed pull of a calendar means for the first pull of an account.
pub fn initial_pull_error(error: PullSyncError) -> (r: InitialPullWorkerError)
    ensures
        r == initial_failure(error),
{
    match error {
        PullSyncError::Caldav(_) => InitialPullWorkerError::Caldav,
        PullSyncError::MissingCalendarSyncState => InitialPullWorkerError::MissingCalendarSyncState,
        PullSyncError::Repository(_) => InitialPullWorkerError::Repository,
    }
}

/// The numbers of an [`InitialPullSummary`].
pub struct PullTotals {
    pub calendars: int,
    pub added: int,
    pub updated: int,
    pub deleted: int,
    pub skipped: int,
}

impl View for InitialPullSummary {
    type V = PullTotals;

    open spec fn view(&self) -> PullTotals {
        PullTotals {
            calendars: self.calendars as int,
            added: self.added as int,
            updated: self.updated as int,
            deleted: self.deleted as int,
            skipped: self.skipped as int,
        }
    }
}

impl PullTotals {
    /// The numbers with one more calendar.
    pub open spec fn with(self, pulled: RemoteSnapshotSummary) -> PullTotals {
        PullTotals {
            calendars: self.calendars + 1,
            added: self.added + pulled.added,
            updated: self.updated + pulled.updated,
            deleted: self.deleted + pulled.deleted,
            skipped: self.skipped + pulled.skipped,
        }
    }

    /// Whether the numbers can be counted.
    pub open spec fn fits(self) -> bool {
        self.calendars <= usize::MAX && self.added <= usize::MAX && self.updated <= usize::MAX
            && self.deleted <= usize::MAX && self.skipped <= usize::MAX
    }
}

/// The first pull of an account: its calendars are pulled one after another, until one fails.
#[derive(Debug)]
pub struct InitialPull {
    pub calendars: Vec<Uuid>,
    pub summary: InitialPullSummary,
    pub failure: Option<InitialPullWorkerError>,
}

/// The values of an [`InitialPull`].
pub struct InitialPullView {
    pub calendars: Seq<Uuid>,
    pub totals: PullTotals,
    pub failure: Option<InitialPullWorkerError>,
}

impl View for InitialPull {
    type V = InitialPullView;

    open spec fn view(&self) -> InitialPullView {
        InitialPullView {
            calendars: self.calendars@,
            totals: self.summary@,
            failure: self.failure,
        }
    }
}

/// What the failed pull of a calendar means for the first pull of an account.
pub open spec fn initial_failure(error: PullSyncError) -> InitialPullWorkerError {
    match error {
        PullSyncError::Caldav(_) => InitialPullWorkerError::Caldav,
        PullSyncError::MissingCalendarSyncState => InitialPullWorkerError::MissingCalendarSyncState,
        PullSyncError::Repository(_) => InitialPullWorkerError::Repository,
    }
}

impl InitialPullView {
    /// Before the first calendar.
    pub open spec fn begun(calendars: Seq<Uuid>) -> InitialPullView {
        InitialPullView {
            calendars,
            totals: PullTotals { calendars: 0, added: 0, updated: 0, deleted: 0, skipped: 0 },
            failure: None,
        }
    }

    /// Whether as many calendars were pulled as there are at most.
    pub open spec fn wf(self) -> bool {
        0 <= self.totals.calendars <= self.calendars.len()
    }

    /// The calendar to pull; none after the last and after a failure.
    pub open spec fn due(self) -> Option<Uuid> {
        if self.failure is None && self.totals.calendars < self.calendars.len() {
            Some(self.calendars[self.totals.calendars])
        } else {
            None
        }
    }

    /// What is left to do once the calendar to pull was pulled.
    pub open spec fn pulled(self, outcome: Result<RemoteSnapshotSummary, PullSyncError>) -> InitialPullView {
        match outcome {
            Ok(pulled) => InitialPullView { totals: self.totals.with(pulled), ..self },
            Err(error) => InitialPullView { failure: Some(initial_failure(error)), ..self },
        }
    }

    /// What is left to do once some calendars were pulled, one after another.
    pub open spec fn after(self, outcomes: Seq<RemoteSnapshotSummary>) -> InitialPullView
        decreases outcomes.len(),
    {
        if outcomes.len() == 0 {
            self
        } else {
            self.after(outcomes.drop_last()).pulled(Ok(outcomes.last()))
        }
    }
}

impl InitialPull {
    /// Begin with the calendars of an account.
    pub fn begin(calendars: &Vec<Calendar>, account_id: Uuid) -> (r: InitialPull)
        ensures
            r@.calendars == model::calendar_views(calendars@).filter(belongs_to(account_id)).map_values(
                |calendar: CalendarView| calendar.id,
            ),
            r@ == InitialPullView::begun(r@.calendars),
            r@.wf(),
    {
        let owned = calendars_of_account(calendars, account_id);
        let ghost views = model::calendar_views(owned@);
        let mut ids: Vec<Uuid> = Vec::new();
        for i in 0..owned.len()
            invariant
                views == model::calendar_views(owned@),
                ids@.len() == i,
                forall|k: int| 0 <= k < i ==> #[trigger] ids@[k] == views[k].id,
        {
            assert(views[i as int] == owned@[i as int]@);
            ids.push(owned[i].id);
        }
        assert(ids@ =~= views.map_values(|calendar: CalendarView| calendar.id));
        InitialPull { calendars: ids, summary: InitialPullSummary::empty(), failure: None }
    }

    /// The calendar to pull.
    pub fn due(&self) -> (r: Option<Uuid>)
        requires
            self@.wf(),
        ensures
            r == self@.due(),
    {
        if self.failure.is_none() && self.summary.calendars < self.calendars.len() {
            Some(self.calendars[self.summary.calendars])
        } else {
            None
        }
    }

    /// The calendar to pull was pulled, or failed.
    pub fn pulled(self, outcome: Result<RemoteSnapshotSummary, PullSyncError>) -> (r: InitialPull)
        requires
            self@.wf(),
            self@.due() is Some,
            outcome matches Ok(pulled) ==> self@.totals.with(pulled).fits(),
        ensures
            r@ == self@.pulled(outcome),
            r@.wf(),
    {
        match outcome {
            Ok(pulled) => InitialPull { summary: self.summary.with_calendar(&pulled), ..self },
            Err(error) => InitialPull { failure: Some(initial_pull_error(error)), ..self },
        }
    }

    /// What the first pull did, or why it failed.
    pub fn outcome(&self) -> (r: Result<InitialPullSummary, InitialPullWorkerError>)
        ensures
            match r {
                Ok(summary) => self@.failure is None && summary@ == self@.totals,
                Err(error) => self@.failure == Some(error),
            },
    {
        match self.failure {
            None => Ok(self.summary),
            Some(error) => Err(error),
        }
    }
}

/// The first pull of an account takes its calendars in order, each once, and ends after the last: as
/// long as none fails, the next one is that behind those that were pulled.
pub proof fn law_each_calendar_is_pulled_once(
    calendars: Seq<Uuid>,
    outcomes: Seq<RemoteSnapshotSummary>,
)
    requires
        outcomes.len() <= calendars.len(),
    ensures
        ({
            let state = InitialPullView::begun(calendars).after(outcomes);
            &&& state.calendars == calendars
            &&& state.totals.calendars == outcomes.len()
            &&& state.due() == if outcomes.len() < calendars.len() {
                Some(calendars[outcomes.len() as int])
            } else {
                None
            }
        }),
    decreases outcomes.len(),
{
    if outcomes.len() > 0 {
        law_each_calendar_is_pulled_once(calendars, outcomes.drop_last());
    }
}

/// The pull of a calendar that fails is the last of an account, and its reason is that of the whole.
pub proof fn law_failed_calendar_ends_the_pull(state: InitialPullView, error: PullSyncError)
    ensures
        state.pulled(Err(error)).due() is None,
        state.pulled(Err(error)).failure == Some(initial_failure(error)),
        state.pulled(Err(error)).totals == state.totals,
{
}

// ---------------------------------------------------------------------------------------------
// Pushing
// ---------------------------------------------------------------------------------------------

/// What a push of waiting changes did.
#[derive(Clone, Copy, Debug, PartialEq, Eq, Structural)]
pub struct PendingPushSummary {
    pub created: usize,
    pub updated: usize,
    pub deleted: usize,
    pub conflicts: usize,
    pub skipped: usize,
}

/// Why a push of waiting changes failed.
#[derive(Debug)]
pub enum PushSyncError {
    Caldav(CaldavError),
    MissingCalendarSyncState,
    Repository(RepositoryError),
}

/// What became of one waiting change.
#[derive(Clone, Copy, Debug, PartialEq, Eq, Structural)]
pub enum PushOutcome {
    Created,
    Updated,
    Deleted,
    Conflict,
    Skipped,
}

/// A request that uploads one change.
#[derive(Debug)]
pub enum PushRequest {
    Create { url: String, calendar_data: String },
    Update { url: String, calendar_data: String, base_etag: String },
    Delete { url: String, base_etag: String },
}

/// The values of a [`PushRequest`].
pub enum RequestView {
    Create { url: Seq<char>, calendar_data: Seq<char> },
    Update { url: Seq<char>, calendar_data: Seq<char>, base_etag: Seq<char> },
    Delete { url: Seq<char>, base_etag: Seq<char> },
}

impl View for PushRequest {
    type V = RequestView;

    open spec fn view(&self) -> RequestView {
        match *self {
            PushRequest::Create { url, calendar_data } => RequestView::Create {
                url: url@,
                calendar_data: calendar_data@,
            },
            PushRequest::Update { url, calendar_data, base_etag } => RequestView::Update {
                url: url@,
                calendar_data: calendar_data@,
                base_etag: base_etag@,
            },
            PushRequest::Delete { url, base_etag } => RequestView::Delete {
                url: url@,
                base_etag: base_etag@,
            },
        }
    }
}

/// The address of the resource of a new event.
pub open spec fn resource_address(calendar_url: Seq<char>, event_id: Uuid) -> Option<Seq<char>> {
    urls::url_joined(calendar_url, ids::uuid_chars(event_id) + ".ics"@)
}

/// The address of the resource of a new event.
pub fn resource_url(calendar_url: &str, event_id: Uuid) -> (r: Result<String, PushSyncError>)
    ensures
        match r {
            Ok(url) => resource_address(calendar_url@, event_id) == Some(url@),
            Err(error) => resource_address(calendar_url@, event_id) is None && error
                == PushSyncError::Caldav(CaldavError::Url),
        },
{
    let name = text::joined(ids::uuid_text(event_id).as_str(), ".ics");
    match urls::resolve_href(calendar_url, name.as_str()) {
        Some(url) => Ok(url),
        None => Err(PushSyncError::Caldav(CaldavError::Url)),
    }
}

/// Whether the event of a change is needed to upload it.
pub open spec fn needs_event(operation: PendingView) -> bool {
    match operation {
        PendingView::Create { .. } => true,
        PendingView::Update { base_etag, .. } => base_etag is Some,
        PendingView::Delete { .. } => false,
    }
}

/// The identifier under which the event of a change is written.
pub open spec fn written_uid(operation: PendingView) -> Seq<char> {
    match operation {
        PendingView::Create { remote_uid, .. } => remote_uid,
        PendingView::Update { remote_uid, .. } => remote_uid,
        PendingView::Delete { remote_uid, .. } => remote_uid,
    }
}

/// What is decided of a change before it is uploaded.
pub enum Prepared<R> {
    Send(R),
    Skip,
    Fail(PushSyncError),
}

/// What is decided of a change before it is uploaded. `data` is its event as a resource, where it
/// exists and can be written. A change of a resource without an entity tag cannot be guarded against
/// other changes, and is skipped.
pub open spec fn prepared(operation: PendingView, calendar_url: Seq<char>, data: Option<Seq<char>>) -> Prepared<
    RequestView,
> {
    match operation {
        PendingView::Create { event_id, .. } => match data {
            None => Prepared::Skip,
            Some(calendar_data) => match resource_address(calendar_url, event_id) {
                Some(url) => Prepared::Send(RequestView::Create { url, calendar_data }),
                None => Prepared::Fail(PushSyncError::Caldav(CaldavError::Url)),
            },
        },
        PendingView::Update { remote_href, base_etag, .. } => match (base_etag, data) {
            (Some(base_etag), Some(calendar_data)) => Prepared::Send(
                RequestView::Update { url: remote_href, calendar_data, base_etag },
            ),
            _ => Prepared::Skip,
        },
        PendingView::Delete { remote_href, base_etag, .. } => match base_etag {
            Some(base_etag) => Prepared::Send(RequestView::Delete { url: remote_href, base_etag }),
            None => Prepared::Skip,
        },
    }
}

/// The values of a decision.
pub open spec fn prepared_view(r: Prepared<PushRequest>) -> Prepared<RequestView> {
    match r {
        Prepared::Send(request) => Prepared::Send(request@),
        Prepared::Skip => Prepared::Skip,
        Prepared::Fail(error) => Prepared::Fail(error),
    }
}

/// Decide what to do with a change.
pub fn prepare(operation: &PendingSyncOperation, calendar_url: &str, data: Option<String>) -> (r: Prepared<
    PushRequest,
>)
    ensures
        prepared_view(r) == prepared(operation@, calendar_url@, model::text_view(data)),
{
    match operation {
        PendingSyncOperation::Create { event_id, .. } => match data {
            None => Prepared::Skip,
            Some(calendar_data) => match resource_url(calendar_url, *event_id) {
                Ok(url) => Prepared::Send(PushRequest::Create { url, calendar_data }),
                Err(error) => Prepared::Fail(error),
            },
        },
        PendingSyncOperation::Update { remote_href, base_etag, .. } => match (base_etag, data) {
            (Some(base_etag), Some(calendar_data)) => Prepared::Send(
                PushRequest::Update {
                    url: remote_href.clone(),
                    calendar_data,
                    base_etag: base_etag.clone(),
                },
            ),
            _ => Prepared::Skip,
        },
        PendingSyncOperation::Delete { remote_href, base_etag, .. } => match base_etag {
            Some(base_etag) => Prepared::Send(
                PushRequest::Delete { url: remote_href.clone(), base_etag: base_etag.clone() },
            ),
            None => Prepared::Skip,
        },
    }
}

/// What the answer to a request leads to.
pub enum Settled<W> {
    /// The server took the change: what to store, and what to count.
    Store(W, PushOutcome),
    /// The resource was changed by others.
    Conflict,
    Fail(PushSyncError),
}

/// The remote identity of an event after its upload. Where the server sends no entity tag, that of
/// an earlier upload is kept.
pub open spec fn uploaded_state(
    calendar_id: Uuid,
    operation: PendingView,
    url: Seq<char>,
    etag: Option<Seq<char>>,
    base_etag: Option<Seq<char>>,
) -> EventSyncView {
    EventSyncView {
        calendar_id,
        event_id: store::pending_event(operation),
        remote_href: url,
        remote_uid: written_uid(operation),
        etag: if etag is Some {
            etag
        } else {
            base_etag
        },
    }
}

/// What is stored, and what is counted, when the server took a change.
pub open spec fn accepted(
    calendar_id: Uuid,
    operation: PendingView,
    request: RequestView,
    etag: Option<Seq<char>>,
) -> (Seq<WriteView>, PushOutcome) {
    match request {
        RequestView::Create { url, .. } => (
            reconcile::upload_writes(uploaded_state(calendar_id, operation, url, etag, None)),
            PushOutcome::Created,
        ),
        RequestView::Update { url, base_etag, .. } => (
            reconcile::upload_writes(
                uploaded_state(calendar_id, operation, url, etag, Some(base_etag)),
            ),
            PushOutcome::Updated,
        ),
        RequestView::Delete { .. } => (
            seq![WriteView::DeletePending { event_id: store::pending_event(operation) }],
            PushOutcome::Deleted,
        ),
    }
}

/// What the answer to a request leads to. A deletion of a resource that is gone has succeeded.
pub open spec fn settled(
    calendar_id: Uuid,
    operation: PendingView,
    request: RequestView,
    answer: Result<ResourceWriteResult, CaldavError>,
) -> Settled<Seq<WriteView>> {
    match answer {
        Ok(result) => {
            let (writes, outcome) = accepted(
                calendar_id,
                operation,
                request,
                model::text_view(result.etag),
            );
            Settled::Store(writes, outcome)
        },
        Err(CaldavError::HttpStatus { status }) => if status == 412 {
            Settled::Conflict
        } else if status == 404 && request is Delete {
            let (writes, outcome) = accepted(calendar_id, operation, request, None);
            Settled::Store(writes, outcome)
        } else {
            Settled::Fail(PushSyncError::Caldav(CaldavError::HttpStatus { status }))
        },
        Err(error) => Settled::Fail(PushSyncError::Caldav(error)),
    }
}

/// The values of what an answer leads to.
pub open spec fn settled_view(r: Settled<Vec<StoreWrite>>) -> Settled<Seq<WriteView>> {
    match r {
        Settled::Store(writes, outcome) => Settled::Store(store::write_views(writes@), outcome),
        Settled::Conflict => Settled::Conflict,
        Settled::Fail(error) => Settled::Fail(error),
    }
}

/// The event and the identifier of a change.
fn names_of(operation: &PendingSyncOperation) -> (r: (Uuid, String))
    ensures
        r.0 == store::pending_event(operation@),
        r.1@ == written_uid(operation@),
{
    match operation {
        PendingSyncOperation::Create { event_id, remote_uid, .. } => (*event_id, remote_uid.clone()),
        PendingSyncOperation::Update { event_id, remote_uid, .. } => (*event_id, remote_uid.clone()),
        PendingSyncOperation::Delete { event_id, remote_uid, .. } => (*event_id, remote_uid.clone()),
    }
}

/// What to store, and what to count, when the server took a change.
fn accept(
    calendar_id: Uuid,
    operation: &PendingSyncOperation,
    request: &PushRequest,
    etag: Option<String>,
) -> (r: (Vec<StoreWrite>, PushOutcome))
    ensures
        (store::write_views(r.0@), r.1) == accepted(
            calendar_id,
            operation@,
            request@,
            model::text_view(etag),
        ),
{
    let (event_id, remote_uid): (Uuid, String) = names_of(operation);
    match request {
        PushRequest::Create { url, .. } => {
            let state = EventSyncState {
                calendar_id,
                event_id,
                remote_href: url.clone(),
                remote_uid,
                etag,
            };
            (reconcile::finalize_event_upload(&state), PushOutcome::Created)
        },
        PushRequest::Update { url, base_etag, .. } => {
            let etag = match etag {
                Some(etag) => Some(etag),
                None => Some(base_etag.clone()),
            };
            let state = EventSyncState {
                calendar_id,
                event_id,
                remote_href: url.clone(),
                remote_uid,
                etag,
            };
            (reconcile::finalize_event_upload(&state), PushOutcome::Updated)
        },
        PushRequest::Delete { .. } => {
            (reconcile::finalize_event_delete(event_id), PushOutcome::Deleted)
        },
    }
}

/// Decide what the answer to a request leads to.
pub fn settle(
    calendar_id: Uuid,
    operation: &PendingSyncOperation,
    request: &PushRequest,
    answer: Result<ResourceWriteResult, CaldavError>,
) -> (r: Settled<Vec<StoreWrite>>)
    ensures
        settled_view(r) == settled(calendar_id, operation@, request@, answer),
{
    match answer {
        Ok(result) => {
            let (writes, outcome): (Vec<StoreWrite>, PushOutcome) = accept(
                calendar_id,
                operation,
                request,
                result.etag,
            );
            Settled::Store(writes, outcome)
        },
        Err(CaldavError::HttpStatus { status }) => {
            if status == 412 {
                return Settled::Conflict;
            }
            if status == 404 {
                if let PushRequest::Delete { .. } = request {
                    let (writes, outcome): (Vec<StoreWrite>, PushOutcome) = accept(
                        calendar_id,
                        operation,
                        request,
                        None,
                    );
                    return Settled::Store(writes, outcome);
                }
            }
            Settled::Fail(PushSyncError::Caldav(CaldavError::HttpStatus { status }))
        },
        Err(error) => Settled::Fail(PushSyncError::Caldav(error)),
    }
}

/// What a push waits for.
pub enum PushStage {
    /// The event of the next change.
    Load,
    /// The answer to a request.
    Send(PushRequest),
    /// That writes are stored, after which the change is counted.
    Store(Vec<StoreWrite>, PushOutcome),
    /// Nothing: every change was gone through.
    Finished,
    /// Nothing: the push failed.
    Failed(PushSyncError),
}

/// The values of a [`PushStage`].
pub enum StageView {
    Load,
    Send(RequestView),
    Store(Seq<WriteView>, PushOutcome),
    Finished,
    Failed(PushSyncError),
}

impl View for PushStage {
    type V = StageView;

    open spec fn view(&self) -> StageView {
        match *self {
            PushStage::Load => StageView::Load,
            PushStage::Send(request) => StageView::Send(request@),
            PushStage::Store(writes, outcome) => StageView::Store(
                store::write_views(writes@),
                outcome,
            ),
            PushStage::Finished => StageView::Finished,
            PushStage::Failed(error) => StageView::Failed(error),
        }
    }
}

/// What came of what a push waited for.
pub enum PushEvent {
    Loaded(Option<Event>),
    Answered(Result<ResourceWriteResult, CaldavError>),
    Stored(bool),
}

/// A push of the waiting changes of a calendar, in order.
pub struct Push {
    pub calendar_id: Uuid,
    pub remote_url: String,
    pub operations: Vec<PendingSyncOperation>,
    /// How many changes were gone through.
    pub next: usize,
    pub stage: PushStage,
    pub summary: PendingPushSummary,
}

/// The values of a [`Push`].
pub struct PushView {
    pub calendar_id: Uuid,
    pub remote_url: Seq<char>,
    pub operations: Seq<PendingView>,
    pub next: int,
    pub stage: StageView,
    pub summary: PendingPushSummary,
}

impl View for Push {
    type V = PushView;

    open spec fn view(&self) -> PushView {
        PushView {
            calendar_id: self.calendar_id,
            remote_url: self.remote_url@,
            operations: lists::views_of(self.operations@),
            next: self.next as int,
            stage: self.stage@,
            summary: self.summary,
        }
    }
}

impl PendingPushSummary {
    /// How many changes were counted.
    pub open spec fn total(self) -> int {
        self.created + self.updated + self.deleted + self.conflicts + self.skipped
    }

    /// The summary with one more change.
    pub open spec fn counting_spec(self, outcome: PushOutcome) -> PendingPushSummary {
        match outcome {
            PushOutcome::Created => PendingPushSummary {
                created: (self.created + 1) as usize,
                ..self
            },
            PushOutcome::Updated => PendingPushSummary {
                updated: (self.updated + 1) as usize,
                ..self
            },
            PushOutcome::Deleted => PendingPushSummary {
                deleted: (self.deleted + 1) as usize,
                ..self
            },
            PushOutcome::Conflict => PendingPushSummary {
                conflicts: (self.conflicts + 1) as usize,
                ..self
            },
            PushOutcome::Skipped => PendingPushSummary {
                skipped: (self.skipped + 1) as usize,
                ..self
            },
        }
    }

    /// The summary with one more change.
    fn counting(self, outcome: PushOutcome) -> (r: PendingPushSummary)
        requires
            self.total() < usize::MAX,
        ensures
            r == self.counting_spec(outcome),
            r.total() == self.total() + 1,
    {
        let mut next = self;
        match outcome {
            PushOutcome::Created => {
                next.created = next.created + 1;
            },
            PushOutcome::Updated => {
                next.updated = next.updated + 1;
            },
            PushOutcome::Deleted => {
                next.deleted = next.deleted + 1;
            },
            PushOutcome::Conflict => {
                next.conflicts = next.conflicts + 1;
            },
            PushOutcome::Skipped => {
                next.skipped = next.skipped + 1;
            },
        }
        next
    }
}

impl PushView {
    /// Every change before `next` was counted once; a push that waits has a change that it waits
    /// with, and one that finished has none left.
    pub open spec fn wf(self) -> bool {
        &&& 0 <= self.next <= self.operations.len() <= usize::MAX
        &&& self.summary.total() == self.next
        &&& self.stage is Finished ==> self.next == self.operations.len()
        &&& self.stage is Load || self.stage is Send || self.stage is Store ==> self.next
            < self.operations.len()
    }
}

/// A push that goes on with the changes from `next` on, up to one with which it must wait.
pub open spec fn go_on(push: PushView) -> PushView
    decreases push.operations.len() - push.next,
{
    if !(0 <= push.next < push.operations.len()) {
        PushView { stage: StageView::Finished, ..push }
    } else {
        let operation = push.operations[push.next];
        if needs_event(operation) {
            PushView { stage: StageView::Load, ..push }
        } else {
            match prepared(operation, push.remote_url, None) {
                Prepared::Send(request) => PushView { stage: StageView::Send(request), ..push },
                Prepared::Skip => go_on(counted(push, PushOutcome::Skipped)),
                Prepared::Fail(error) => PushView { stage: StageView::Failed(error), ..push },
            }
        }
    }
}

/// A push that is done with one more change.
pub open spec fn counted(push: PushView, outcome: PushOutcome) -> PushView {
    PushView {
        next: push.next + 1,
        summary: push.summary.counting_spec(outcome),
        ..push
    }
}

/// A push after an event. `data` is the event that was loaded as a resource, where there is one and
/// it can be written. An event that the push does not wait for changes nothing.
pub open spec fn stepped(push: PushView, event: PushEvent, data: Option<Seq<char>>) -> PushView {
    let operation = push.operations[push.next];
    match (push.stage, event) {
        (StageView::Load, PushEvent::Loaded(_)) => match prepared(
            operation,
            push.remote_url,
            data,
        ) {
            Prepared::Send(request) => PushView { stage: StageView::Send(request), ..push },
            Prepared::Skip => go_on(counted(push, PushOutcome::Skipped)),
            Prepared::Fail(error) => PushView { stage: StageView::Failed(error), ..push },
        },
        (StageView::Send(request), PushEvent::Answered(answer)) => match settled(
            push.calendar_id,
            operation,
            request,
            answer,
        ) {
            Settled::Store(writes, outcome) => PushView {
                stage: StageView::Store(writes, outcome),
                ..push
            },
            Settled::Conflict => go_on(counted(push, PushOutcome::Conflict)),
            Settled::Fail(error) => PushView { stage: StageView::Failed(error), ..push },
        },
        (StageView::Store(_, outcome), PushEvent::Stored(stored)) => if stored {
            go_on(counted(push, outcome))
        } else {
            PushView {
                stage: StageView::Failed(PushSyncError::Repository(RepositoryError)),
                ..push
            }
        },
        _ => push,
    }
}

/// Going on keeps what was counted in order.
pub proof fn lemma_go_on(push: PushView)
    requires
        0 <= push.next <= push.operations.len() <= usize::MAX,
        push.summary.total() == push.next,
    ensures
        go_on(push).wf(),
        go_on(push).operations == push.operations,
        go_on(push).calendar_id == push.calendar_id,
        go_on(push).remote_url == push.remote_url,
        go_on(push).next >= push.next,
    decreases push.operations.len() - push.next,
{
    if push.next < push.operations.len() {
        let operation = push.operations[push.next];
        if !needs_event(operation) {
            if prepared(operation, push.remote_url, None) is Skip {
                lemma_go_on(counted(push, PushOutcome::Skipped));
            }
        }
    }
}

/// An event keeps what was counted in order.
pub proof fn lemma_stepped(push: PushView, event: PushEvent, data: Option<Seq<char>>)
    requires
        push.wf(),
    ensures
        stepped(push, event, data).wf(),
        stepped(push, event, data).operations == push.operations,
        stepped(push, event, data).next >= push.next,
{
    if push.next < push.operations.len() {
        lemma_go_on(counted(push, PushOutcome::Skipped));
        lemma_go_on(counted(push, PushOutcome::Conflict));
        if let StageView::Store(_, outcome) = push.stage {
            lemma_go_on(counted(push, outcome));
        }
    }
}

/// A push after a number of events.
pub open spec fn run(push: PushView, events: Seq<(PushEvent, Option<Seq<char>>)>) -> PushView
    decreases events.len(),
{
    if events.len() == 0 {
        push
    } else {
        let before = run(push, events.drop_last());
        stepped(before, events.last().0, events.last().1)
    }
}

/// Whatever is loaded, answered and stored, a push that finishes has counted every waiting change
/// exactly once.
pub proof fn law_push_counts_every_change(
    calendar_id: Uuid,
    remote_url: Seq<char>,
    operations: Seq<PendingView>,
    events: Seq<(PushEvent, Option<Seq<char>>)>,
)
    requires
        operations.len() <= usize::MAX,
    ensures
        run(push_begins(calendar_id, remote_url, operations), events).wf(),
        run(push_begins(calendar_id, remote_url, operations), events).operations == operations,
        run(push_begins(calendar_id, remote_url, operations), events).stage is Finished ==> run(
            push_begins(calendar_id, remote_url, operations),
            events,
        ).summary.total() == operations.len(),
    decreases events.len(),
{
    let first = push_begins(calendar_id, remote_url, operations);
    lemma_go_on(unstarted(calendar_id, remote_url, operations));
    if events.len() > 0 {
        law_push_counts_every_change(calendar_id, remote_url, operations, events.drop_last());
        lemma_stepped(run(first, events.drop_last()), events.last().0, events.last().1);
    }
}

/// What a push stores is about the change that it is at, and it stores only after the server took
/// that change; a conflict stores nothing.
pub proof fn law_push_stores_what_was_taken(push: PushView, event: PushEvent, data: Option<Seq<char>>)
    requires
        push.wf(),
        !(push.stage is Store),
        stepped(push, event, data).stage is Store,
    ensures
        ({
            let after = stepped(push, event, data);
            let operation = push.operations[push.next];
            &&& push.stage is Send
            &&& after.next == push.next
            &&& event matches PushEvent::Answered(answer) && (answer is Ok || answer == Err::<
                ResourceWriteResult,
                CaldavError,
            >(CaldavError::HttpStatus { status: 404 }))
            &&& forall|i: int|
                0 <= i < after.stage->Store_0.len() ==> is_about(
                    #[trigger] after.stage->Store_0[i],
                    store::pending_event(operation),
                )
        }),
{
    lemma_go_on_stores_nothing(counted(push, PushOutcome::Skipped));
    lemma_go_on_stores_nothing(counted(push, PushOutcome::Conflict));
}

/// Whether a write is about what waits for an event, or its remote identity.
pub open spec fn is_about(write: WriteView, id: Uuid) -> bool {
    match write {
        WriteView::PutEventSync { state } => state.event_id == id,
        WriteView::DeletePending { event_id } => event_id == id,
        _ => false,
    }
}

proof fn lemma_go_on_stores_nothing(push: PushView)
    ensures
        !(go_on(push).stage is Store),
    decreases push.operations.len() - push.next,
{
    if 0 <= push.next < push.operations.len() {
        lemma_go_on_stores_nothing(counted(push, PushOutcome::Skipped));
    }
}

/// A push that has gone through no change yet.
pub open spec fn unstarted(calendar_id: Uuid, remote_url: Seq<char>, operations: Seq<PendingView>) -> PushView {
    PushView {
        calendar_id,
        remote_url,
        operations,
        next: 0,
        stage: StageView::Finished,
        summary: PendingPushSummary {
            created: 0,
            updated: 0,
            deleted: 0,
            conflicts: 0,
            skipped: 0,
        },
    }
}

/// How a push begins.
pub open spec fn push_begins(calendar_id: Uuid, remote_url: Seq<char>, operations: Seq<PendingView>) -> PushView {
    go_on(unstarted(calendar_id, remote_url, operations))
}

impl Push {
    /// Go on with the changes from `next` on, up to one with which to wait.
    fn go_on(self) -> (r: Push)
        requires
            self.next <= self.operations@.len(),
            self.summary.total() == self.next,
        ensures
            r@ == go_on(self@),
            r@.wf(),
    {
        let mut push = self;
        let total: usize = push.operations.len();
        proof {
            assert(self@.operations.len() == total);
            lemma_go_on(self@);
        }
        while push.next < push.operations.len()
            invariant
                push.next <= push.operations@.len(),
                push.operations@.len() == total,
                push.summary.total() == push.next,
                go_on(push@) == go_on(self@),
                go_on(self@).wf(),
            decreases push.operations@.len() - push.next,
        {
            let ghost before = push@;
            let operation = &push.operations[push.next];
            assert(operation@ == before.operations[before.next]);
            let needs = match operation {
                PendingSyncOperation::Create { .. } => true,
                PendingSyncOperation::Update { base_etag, .. } => base_etag.is_some(),
                PendingSyncOperation::Delete { .. } => false,
            };
            if needs {
                push.stage = PushStage::Load;
                assert(push@ == go_on(before));
                return push;
            }
            match prepare(operation, push.remote_url.as_str(), None) {
                Prepared::Send(request) => {
                    push.stage = PushStage::Send(request);
                    assert(push@ == go_on(before));
                    return push;
                },
                Prepared::Skip => {
                    push.summary = push.summary.counting(PushOutcome::Skipped);
                    push.next = push.next + 1;
                    assert(push@ == counted(before, PushOutcome::Skipped));
                },
                Prepared::Fail(error) => {
                    push.stage = PushStage::Failed(error);
                    assert(push@ == go_on(before));
                    return push;
                },
            }
        }
        push.stage = PushStage::Finished;
        assert(push@ == go_on(self@));
        push
    }

    /// Begin to push the waiting changes of a calendar.
    pub fn begin(state: &Option<CalendarSyncState>, operations: Vec<PendingSyncOperation>) -> (r: Result<
        Push,
        PushSyncError,
    >)
        ensures
            match *state {
                None => r matches Err(error) && error == PushSyncError::MissingCalendarSyncState,
                Some(state) => r matches Ok(push) && push@.wf() && push@ == push_begins(
                    state.calendar_id,
                    state.remote_url@,
                    lists::views_of(operations@),
                ),
            },
    {
        match state {
            None => Err(PushSyncError::MissingCalendarSyncState),
            Some(state) => {
                let push = Push {
                    calendar_id: state.calendar_id,
                    remote_url: state.remote_url.clone(),
                    operations,
                    next: 0,
                    stage: PushStage::Finished,
                    summary: PendingPushSummary {
                        created: 0,
                        updated: 0,
                        deleted: 0,
                        conflicts: 0,
                        skipped: 0,
                    },
                };
                Ok(push.go_on())
            },
        }
    }

    /// Count a change, and go on with the next.
    fn done_with(self, outcome: PushOutcome) -> (r: Push)
        requires
            self@.wf(),
            self.next < self.operations@.len(),
        ensures
            r@ == go_on(counted(self@, outcome)),
            r@.wf(),
    {
        let mut push = self;
        assert(push.operations.len() <= usize::MAX);
        push.summary = push.summary.counting(outcome);
        push.next = push.next + 1;
        assert(push@ == counted(self@, outcome));
        push.go_on()
    }

    /// Go on after an event. `data` is the event that was loaded as a resource, where there is one
    /// and it can be written.
    pub fn step_given(self, event: PushEvent, data: Option<String>) -> (r: Push)
        requires
            self@.wf(),
        ensures
            r@ == stepped(self@, event, model::text_view(data)),
            r@.wf(),
    {
        let mut push = self;
        let ghost before = push@;
        match event {
            PushEvent::Loaded(_) => {
                if let PushStage::Load = push.stage {
                    let operation = &push.operations[push.next];
                    assert(operation@ == before.operations[before.next]);
                    match prepare(operation, push.remote_url.as_str(), data) {
                        Prepared::Send(request) => {
                            push.stage = PushStage::Send(request);
                        },
                        Prepared::Skip => {
                            return push.done_with(PushOutcome::Skipped);
                        },
                        Prepared::Fail(error) => {
                            push.stage = PushStage::Failed(error);
                        },
                    }
                }
            },
            PushEvent::Answered(answer) => {
                if let PushStage::Send(request) = &push.stage {
                    let operation = &push.operations[push.next];
                    assert(operation@ == before.operations[before.next]);
                    match settle(push.calendar_id, operation, request, answer) {
                        Settled::Store(writes, outcome) => {
                            push.stage = PushStage::Store(writes, outcome);
                        },
                        Settled::Conflict => {
                            return push.done_with(PushOutcome::Conflict);
                        },
                        Settled::Fail(error) => {
                            push.stage = PushStage::Failed(error);
                        },
                    }
                }
            },
            PushEvent::Stored(stored) => {
                if let PushStage::Store(_, outcome) = &push.stage {
                    let outcome = *outcome;
                    if stored {
                        return push.done_with(outcome);
                    }
                    push.stage = PushStage::Failed(PushSyncError::Repository(RepositoryError));
                }
            },
        }
        push
    }

    /// The event that was loaded as a resource, where there is one and it can be written.
    pub open spec fn is_data(push: PushView, event: PushEvent, data: Option<Seq<char>>) -> bool {
        match (push.stage, event) {
            (StageView::Load, PushEvent::Loaded(Some(event))) => exists|r: Result<
                Seq<char>,
                crate::backend::caldav::EventSerializationError,
            >|
                #[trigger] serialize::is_written(
                    r,
                    event@,
                    written_uid(push.operations[push.next]),
                ) && data == match r {
                    Ok(content) => Some(content),
                    Err(_) => None,
                },
            _ => data is None,
        }
    }

    /// Go on after an event: an event that was loaded is written as a resource.
    pub fn step(self, event: PushEvent) -> (r: Push)
        requires
            self@.wf(),
            event matches PushEvent::Loaded(Some(event)) ==> serialize::all_writable(
                event@.reminders,
            ),
        ensures
            exists|data: Option<Seq<char>>|
                Push::is_data(self@, event, data) && r@ == #[trigger] stepped(self@, event, data),
            r@.wf(),
    {
        let ghost before = self@;
        let data = match (&self.stage, &event) {
            (PushStage::Load, PushEvent::Loaded(Some(loaded))) => {
                let operation = &self.operations[self.next];
                assert(operation@ == before.operations[before.next]);
                let (_, remote_uid): (Uuid, String) = names_of(operation);
                let written = serialize::serialize_icalendar_event(loaded, remote_uid.as_str());
                assert(serialize::is_written(
                    serialize::serialized_view(written),
                    loaded@,
                    remote_uid@,
                ));
                match written {
                    Ok(content) => Some(content),
                    Err(_) => None,
                }
            },
            _ => None,
        };
        let ghost view = model::text_view(data);
        assert(Push::is_data(before, event, view));
        self.step_given(event, data)
    }
}

// ---------------------------------------------------------------------------------------------
// Laws of the requests
// ---------------------------------------------------------------------------------------------

/// What is sent for a change that waits. A change of a resource goes to its address, and is made only
/// if the resource is still the version that the change was made against; without a known version it
/// is not sent. A new event goes to an address below that of its calendar, named by its identifier.
/// Without anything to send, a change or a new event is passed over.
pub proof fn law_request_for_a_waiting_change(
    operation: PendingView,
    calendar_url: Seq<char>,
    data: Option<Seq<char>>,
)
    ensures
        operation matches PendingView::Create { event_id, .. } ==> match (
            data,
            urls::url_joined(calendar_url, ids::uuid_chars(event_id) + ".ics"@),
        ) {
            (None, _) => prepared(operation, calendar_url, data) is Skip,
            (Some(calendar_data), Some(url)) => prepared(operation, calendar_url, data)
                == Prepared::<RequestView>::Send(RequestView::Create { url, calendar_data }),
            (Some(_), None) => prepared(operation, calendar_url, data)
                == Prepared::<RequestView>::Fail(PushSyncError::Caldav(CaldavError::Url)),
        },
        operation matches PendingView::Update { remote_href, base_etag, .. } ==> match (
            base_etag,
            data,
        ) {
            (Some(etag), Some(calendar_data)) => prepared(operation, calendar_url, data)
                == Prepared::<RequestView>::Send(
                RequestView::Update { url: remote_href, calendar_data, base_etag: etag },
            ),
            _ => prepared(operation, calendar_url, data) is Skip,
        },
        operation matches PendingView::Delete { remote_href, base_etag, .. } ==> match base_etag {
            Some(etag) => prepared(operation, calendar_url, data) == Prepared::<RequestView>::Send(
                RequestView::Delete { url: remote_href, base_etag: etag },
            ),
            None => prepared(operation, calendar_url, data) is Skip,
        },
{
}

/// What is asked for next. A new event, and a change of one whose version is known, need the event;
/// a deletion whose version is known is sent at once; the others are passed over. Nothing that was
/// counted changes but the number of those that were passed over.
pub proof fn law_next_change_is_loaded_sent_or_skipped(push: PushView)
    requires
        push.wf(),
        push.next < push.operations.len(),
    ensures
        ({
            let after = go_on(push);
            let operation = push.operations[push.next];
            &&& operation is Create ==> after.stage is Load && after.next == push.next
            &&& (operation matches PendingView::Update { base_etag: Some(_), .. }) ==> after.stage
                is Load && after.next == push.next
            &&& operation matches PendingView::Delete { remote_href, base_etag: Some(etag), .. }
                ==> after.stage == StageView::Send(
                RequestView::Delete { url: remote_href, base_etag: etag },
            ) && after.next == push.next
            &&& (operation matches PendingView::Update { base_etag: None, .. }) || (
            operation matches PendingView::Delete { base_etag: None, .. }) ==> after == go_on(
                PushView {
                    next: push.next + 1,
                    summary: PendingPushSummary {
                        skipped: (push.summary.skipped + 1) as usize,
                        ..push.summary
                    },
                    ..push
                },
            )
            &&& after.summary.created == push.summary.created && after.summary.updated
                == push.summary.updated && after.summary.deleted == push.summary.deleted
                && after.summary.conflicts == push.summary.conflicts
        }),
{
    lemma_going_on_only_skips(push);
}

proof fn lemma_going_on_only_skips(push: PushView)
    ensures
        go_on(push).summary.created == push.summary.created,
        go_on(push).summary.updated == push.summary.updated,
        go_on(push).summary.deleted == push.summary.deleted,
        go_on(push).summary.conflicts == push.summary.conflicts,
    decreases push.operations.len() - push.next,
{
    if 0 <= push.next < push.operations.len() {
        lemma_going_on_only_skips(counted(push, PushOutcome::Skipped));
    }
}

/// A change that the server took no longer waits. An event that it took is then known by the address
/// that it was sent to, the name that it was written with, and the version that the server gave, or
/// the one that it had where the server gave none.
pub proof fn law_taken_change_no_longer_waits(
    store: store::StoreView,
    calendar_id: Uuid,
    operation: PendingView,
    request: RequestView,
    result: ResourceWriteResult,
)
    ensures
        settled(calendar_id, operation, request, Ok(result)) matches Settled::Store(writes, outcome) && ({
            let after = store::applied_all(store, writes);
            let (id, uid) = match operation {
                PendingView::Create { event_id, remote_uid, .. } => (event_id, remote_uid),
                PendingView::Update { event_id, remote_uid, .. } => (event_id, remote_uid),
                PendingView::Delete { event_id, remote_uid, .. } => (event_id, remote_uid),
            };
            let given: Option<Seq<char>> = match result.etag {
                Some(etag) => Some(etag@),
                None => None,
            };
            &&& after.pending == store.pending.remove(id)
            &&& after.events == store.events && after.detached == store.detached
            &&& match request {
                RequestView::Create { url, .. } => outcome == PushOutcome::Created && after.event_sync
                    == store.event_sync.insert(
                    id,
                    EventSyncView {
                        calendar_id,
                        event_id: id,
                        remote_href: url,
                        remote_uid: uid,
                        etag: given,
                    },
                ),
                RequestView::Update { url, base_etag, .. } => outcome == PushOutcome::Updated
                    && after.event_sync == store.event_sync.insert(
                    id,
                    EventSyncView {
                        calendar_id,
                        event_id: id,
                        remote_href: url,
                        remote_uid: uid,
                        etag: if given is Some {
                            given
                        } else {
                            Some(base_etag)
                        },
                    },
                ),
                RequestView::Delete { .. } => outcome == PushOutcome::Deleted && after.event_sync
                    == store.event_sync,
            }
        }),
{
    let writes = settled(calendar_id, operation, request, Ok(result))->Store_0;
    lemma_accepted_writes(store, calendar_id, operation, request, model::text_view(result.etag));
}

proof fn lemma_accepted_writes(
    store: store::StoreView,
    calendar_id: Uuid,
    operation: PendingView,
    request: RequestView,
    etag: Option<Seq<char>>,
)
    ensures
        ({
            let writes = accepted(calendar_id, operation, request, etag).0;
            let id = store::pending_event(operation);
            let after = store::applied_all(store, writes);
            match request {
                RequestView::Delete { .. } => after == store::applied(
                    store,
                    WriteView::DeletePending { event_id: id },
                ),
                _ => after == store::applied(
                    store::applied(store, writes[0]),
                    WriteView::DeletePending { event_id: id },
                ),
            }
        }),
{
    let writes = accepted(calendar_id, operation, request, etag).0;
    if request is Delete {
        store::lemma_applied_one(store, writes[0]);
        assert(writes =~= seq![writes[0]]);
    } else {
        assert(writes =~= seq![writes[0]].push(writes[1]));
        store::lemma_applied_push(store, seq![writes[0]], writes[1]);
        store::lemma_applied_one(store, writes[0]);
    }
}

/// What a refusal means: 412 is a conflict with a change by others; 404 for a deletion means that the
/// resource is gone already, so that the deletion no longer waits; any other ends the push with the
/// error.
pub proof fn law_refused_change(
    store: store::StoreView,
    calendar_id: Uuid,
    operation: PendingView,
    request: RequestView,
    error: CaldavError,
)
    ensures
        error == (CaldavError::HttpStatus { status: 412 }) ==> settled(
            calendar_id,
            operation,
            request,
            Err(error),
        ) is Conflict,
        error == (CaldavError::HttpStatus { status: 404 }) && request is Delete ==> (settled(
            calendar_id,
            operation,
            request,
            Err(error),
        ) matches Settled::Store(writes, outcome) && outcome == PushOutcome::Deleted
            && store::applied_all(store, writes) == (store::StoreView {
            pending: store.pending.remove(
                match operation {
                    PendingView::Create { event_id, .. } => event_id,
                    PendingView::Update { event_id, .. } => event_id,
                    PendingView::Delete { event_id, .. } => event_id,
                },
            ),
            ..store
        })),
        error != (CaldavError::HttpStatus { status: 412 }) && !(error == (CaldavError::HttpStatus {
            status: 404,
        }) && request is Delete) ==> settled(calendar_id, operation, request, Err(error))
            == Settled::<Seq<WriteView>>::Fail(PushSyncError::Caldav(error)),
{
    lemma_accepted_writes(store, calendar_id, operation, request, None);
}

/// A conflict is counted and passed over: the change goes on waiting, and the push goes on.
pub proof fn law_conflict_is_counted(push: PushView)
    requires
        push.wf(),
        push.stage is Send,
    ensures
        ({
            let after = stepped(
                push,
                PushEvent::Answered(Err(CaldavError::HttpStatus { status: 412 })),
                None,
            );
            &&& after.summary.conflicts == push.summary.conflicts + 1
            &&& after.summary.created == push.summary.created && after.summary.updated
                == push.summary.updated && after.summary.deleted == push.summary.deleted
            &&& after.next > push.next
            &&& !(after.stage is Store)
        }),
{
    let on = counted(push, PushOutcome::Conflict);
    lemma_going_on_only_skips(on);
    lemma_going_on_moves_on(on);
}

proof fn lemma_going_on_moves_on(push: PushView)
    ensures
        go_on(push).next >= push.next,
        !(go_on(push).stage is Store),
    decreases push.operations.len() - push.next,
{
    if 0 <= push.next < push.operations.len() {
        lemma_going_on_moves_on(counted(push, PushOutcome::Skipped));
    }
}

/// A change is counted as what it was once it is stored, and only then; where it cannot be stored the
/// push fails.
pub proof fn law_stored_change_is_counted_as_what_it_was(push: PushView, outcome: PushOutcome)
    requires
        push.wf(),
        push.stage matches StageView::Store(_, expected) && expected == outcome,
    ensures
        ({
            let after = stepped(push, PushEvent::Stored(true), None);
            &&& after.summary.created == push.summary.created + if outcome == PushOutcome::Created {
                1int
            } else {
                0int
            }
            &&& after.summary.updated == push.summary.updated + if outcome == PushOutcome::Updated {
                1int
            } else {
                0int
            }
            &&& after.summary.deleted == push.summary.deleted + if outcome == PushOutcome::Deleted {
                1int
            } else {
                0int
            }
            &&& after.summary.conflicts == push.summary.conflicts + if outcome
                == PushOutcome::Conflict {
                1int
            } else {
                0int
            }
            &&& after.next > push.next
        }),
        stepped(push, PushEvent::Stored(false), None).stage == StageView::Failed(
            PushSyncError::Repository(RepositoryError),
        ),
        stepped(push, PushEvent::Stored(false), None).summary == push.summary,
{
    lemma_going_on_only_skips(counted(push, outcome));
    lemma_going_on_moves_on(counted(push, outcome));
}

/// A pull asks for the changes since the token that is known, and for everything where none is known
/// or it is blank. Where the server no longer accepts the token, which it says with 403, everything is
/// asked for and the token is forgotten. Any other error ends the pull with that error.
pub proof fn law_what_a_pull_asks_for(
    state: Option<CalendarSyncView>,
    url: Seq<char>,
    changes: Result<SyncCollection, CaldavError>,
    resources: Result<Vec<ResourceRecord>, CaldavError>,
    clearing: bool,
)
    ensures
        state is None ==> pull_begins(state) == PullView::Fail(PullSyncError::MissingCalendarSyncState)
            && full_pull_begins(state) == PullView::Fail(PullSyncError::MissingCalendarSyncState),
        state matches Some(known) ==> {
            &&& known.sync_token is None ==> pull_begins(state) == (PullView::FetchResources {
                url: known.remote_url,
                clearing: false,
            })
            &&& known.sync_token matches Some(token) ==> (text::trimmed(token).len() > 0 ==> pull_begins(
                state,
            ) == (PullView::FetchChanges { url: known.remote_url, sync_token: token })) && (
            text::trimmed(token).len() == 0 ==> pull_begins(state) == (PullView::FetchResources {
                url: known.remote_url,
                clearing: false,
            }))
            &&& full_pull_begins(state) == (PullView::FetchResources {
                url: known.remote_url,
                clearing: false,
            })
        },
        changes matches Ok(found) ==> after_changes(url, changes) == (PullView::TakeChanges {
            changes: found@,
        }),
        changes == Err::<SyncCollection, CaldavError>(CaldavError::HttpStatus { status: 403 })
            ==> after_changes(url, changes) == (PullView::FetchResources { url, clearing: true }),
        changes matches Err(error) ==> error != (CaldavError::HttpStatus { status: 403 })
            ==> after_changes(url, changes) == PullView::Fail(PullSyncError::Caldav(error)),
        resources matches Ok(found) ==> after_resources(clearing, resources) == (
        PullView::TakeSnapshot { resources: lists::views_of(found@), clearing }),
        resources matches Err(error) ==> after_resources(clearing, resources) == PullView::Fail(
            PullSyncError::Caldav(error),
        ),
{
}

/// One more calendar that was pulled adds what it changed to the totals, each to its own.
pub proof fn law_pull_totals_add_up(state: InitialPullView, pulled: RemoteSnapshotSummary)
    ensures
        state.pulled(Ok(pulled)).totals.calendars == state.totals.calendars + 1,
        state.pulled(Ok(pulled)).totals.added == state.totals.added + pulled.added,
        state.pulled(Ok(pulled)).totals.updated == state.totals.updated + pulled.updated,
        state.pulled(Ok(pulled)).totals.deleted == state.totals.deleted + pulled.deleted,
        state.pulled(Ok(pulled)).totals.skipped == state.totals.skipped + pulled.skipped,
        state.pulled(Ok(pulled)).failure == state.failure,
        state.pulled(Ok(pulled)).calendars == state.calendars,
{
}

/// The calendars of an account are those that are kept on its server.
pub proof fn law_calendars_of_an_account(account_id: Uuid, calendar: CalendarView)
    ensures
        (belongs_to(account_id))(calendar) <==> (calendar.source matches CalendarSource::CalDav {
            account_id: owner,
        } && owner == account_id),
{
}

/// A resource that can be read is one event without exceptions, and one that cannot is nothing; what
/// arrives keeps its record and the identifier that is free for it.
pub proof fn law_what_arrives(
    mapped: MappedView,
    incoming: IncomingView,
    record: RecordView,
    fresh_id: Uuid,
    calendar_id: Uuid,
)
    requires
        is_incoming(incoming, record, fresh_id, calendar_id),
    ensures
        content_of(mapped).master == mapped,
        content_of(mapped).exceptions.len() == 0,
        incoming.record == record,
        incoming.fresh_id == fresh_id,
        record.calendar_data is None ==> incoming.mapped is None,
        incoming.mapped matches Some(content) ==> record.calendar_data is Some
            && content.exceptions.len() == 0 && exists|valid: bool|
            #[trigger] mapping::mapped_resource(record.calendar_data->0, fresh_id, calendar_id, valid)
                == Ok::<MappedView, crate::backend::caldav::MappingErrorView>(content.master),
{
}

} // verus!
