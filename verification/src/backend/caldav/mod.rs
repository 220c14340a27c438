//! What CalDAV servers are asked, and what their answers say.
use vstd::prelude::*;

use crate::lists;
use crate::model;
use crate::model::{Event, EventView};
use crate::text;

pub mod ical;
pub mod mapping;
pub mod multistatus;
pub mod readback;
pub mod requests;
pub mod serialize;
pub mod xml;

verus! {

/// A calendar that a server offers.
#[derive(Debug)]
pub struct DiscoveredCalendar {
    pub href: String,
    pub display_name: Option<String>,
    pub sync_token: Option<String>,
    pub color: Option<String>,
    pub writable: bool,
}

/// The values of a [`DiscoveredCalendar`].
pub struct DiscoveredView {
    pub href: Seq<char>,
    pub display_name: Option<Seq<char>>,
    pub sync_token: Option<Seq<char>>,
    pub color: Option<Seq<char>>,
    pub writable: bool,
}

impl View for DiscoveredCalendar {
    type V = DiscoveredView;

    open spec fn view(&self) -> DiscoveredView {
        DiscoveredView {
            href: self.href@,
            display_name: model::text_view(self.display_name),
            sync_token: model::text_view(self.sync_token),
            color: model::text_view(self.color),
            writable: self.writable,
        }
    }
}

impl Clone for DiscoveredCalendar {
    fn clone(&self) -> (r: Self)
        ensures
            r@ == self@,
    {
        DiscoveredCalendar {
            href: self.href.clone(),
            display_name: model::copy_text(&self.display_name),
            sync_token: model::copy_text(&self.sync_token),
            color: model::copy_text(&self.color),
            writable: self.writable,
        }
    }
}

/// What a server says of an account.
#[derive(Debug)]
pub struct CaldavDiscovery {
    pub principal_url: String,
    pub calendar_home_url: String,
    pub calendars: Vec<DiscoveredCalendar>,
}

/// The values of a [`CaldavDiscovery`].
#[verifier::ext_equal]
pub struct DiscoveryView {
    pub principal_url: Seq<char>,
    pub calendar_home_url: Seq<char>,
    pub calendars: Seq<DiscoveredView>,
}

impl View for CaldavDiscovery {
    type V = DiscoveryView;

    open spec fn view(&self) -> DiscoveryView {
        DiscoveryView {
            principal_url: self.principal_url@,
            calendar_home_url: self.calendar_home_url@,
            calendars: lists::views_of(self.calendars@),
        }
    }
}

/// One resource of a calendar, as a server describes it.
#[derive(Debug)]
pub struct ResourceRecord {
    pub href: String,
    pub response_status: Option<u16>,
    pub etag: Option<String>,
    pub calendar_data: Option<String>,
}

/// The values of a [`ResourceRecord`].
pub struct RecordView {
    pub href: Seq<char>,
    pub response_status: Option<u16>,
    pub etag: Option<Seq<char>>,
    pub calendar_data: Option<Seq<char>>,
}

impl View for ResourceRecord {
    type V = RecordView;

    open spec fn view(&self) -> RecordView {
        RecordView {
            href: self.href@,
            response_status: self.response_status,
            etag: model::text_view(self.etag),
            calendar_data: model::text_view(self.calendar_data),
        }
    }
}

impl Clone for ResourceRecord {
    fn clone(&self) -> (r: Self)
        ensures
            r@ == self@,
    {
        ResourceRecord {
            href: self.href.clone(),
            response_status: self.response_status,
            etag: model::copy_text(&self.etag),
            calendar_data: model::copy_text(&self.calendar_data),
        }
    }
}

/// The changes of a calendar since a sync token, and the token to ask with next.
#[derive(Debug)]
pub struct SyncCollection {
    pub sync_token: String,
    pub changes: Vec<ResourceRecord>,
}

/// The values of a [`SyncCollection`].
#[verifier::ext_equal]
pub struct CollectionView {
    pub sync_token: Seq<char>,
    pub changes: Seq<RecordView>,
}

impl View for SyncCollection {
    type V = CollectionView;

    open spec fn view(&self) -> CollectionView {
        CollectionView { sync_token: self.sync_token@, changes: lists::views_of(self.changes@) }
    }
}

/// What a server says after a resource was written.
#[derive(Debug)]
pub struct ResourceWriteResult {
    pub etag: Option<String>,
}

/// An event read from a resource, with the identifier that the server knows it by.
#[derive(Debug)]
pub struct MappedEvent {
    pub event: Event,
    pub remote_uid: String,
}

/// The values of a [`MappedEvent`].
#[verifier::ext_equal]
pub struct MappedView {
    pub event: EventView,
    pub remote_uid: Seq<char>,
}

impl View for MappedEvent {
    type V = MappedView;

    open spec fn view(&self) -> MappedView {
        MappedView { event: self.event@, remote_uid: self.remote_uid@ }
    }
}

impl Clone for MappedEvent {
    fn clone(&self) -> (r: Self)
        ensures
            r@ == self@,
    {
        MappedEvent { event: self.event.clone(), remote_uid: self.remote_uid.clone() }
    }
}

// ---------------------------------------------------------------------------------------------
// Errors
// ---------------------------------------------------------------------------------------------

/// An answer of a server is no usable multistatus document.
#[derive(Debug)]
pub struct ParseError(pub String);

impl View for ParseError {
    type V = Seq<char>;

    open spec fn view(&self) -> Seq<char> {
        self.0@
    }
}

impl ParseError {
    /// What to tell the user.
    pub fn message(&self) -> (r: String)
        ensures
            r@ == "invalid CalDAV multistatus XML: "@ + self@,
    {
        text::joined("invalid CalDAV multistatus XML: ", self.0.as_str())
    }
}

/// A request to a server failed.
#[derive(Debug)]
pub enum CaldavError {
    InvalidSyncToken,
    HttpStatus { status: u16 },
    Transport,
    Url,
    Xml(ParseError),
}

impl CaldavError {
    /// What to tell the user.
    pub open spec fn message_spec(self) -> Seq<char> {
        match self {
            CaldavError::InvalidSyncToken => "sync token must not be blank"@,
            CaldavError::HttpStatus { status } => "CalDAV request returned HTTP "@ + text::decimal(
                status as nat,
            ),
            CaldavError::Transport => "CalDAV HTTP request failed"@,
            CaldavError::Url => "invalid CalDAV URL"@,
            CaldavError::Xml(error) => "invalid CalDAV multistatus XML: "@ + error@,
        }
    }

    /// What to tell the user.
    pub fn message(&self) -> (r: String)
        ensures
            r@ == self.message_spec(),
    {
        match self {
            CaldavError::InvalidSyncToken => "sync token must not be blank".to_owned(),
            CaldavError::HttpStatus { status } => text::joined(
                "CalDAV request returned HTTP ",
                text::decimal_text(*status as u64).as_str(),
            ),
            CaldavError::Transport => "CalDAV HTTP request failed".to_owned(),
            CaldavError::Url => "invalid CalDAV URL".to_owned(),
            CaldavError::Xml(error) => error.message(),
        }
    }
}

/// A discovery in the background failed. Nothing of the account is kept in it.
#[derive(Clone, Copy, Debug, PartialEq, Eq, Structural)]
pub enum DiscoveryWorkerError {
    InvalidCredential,
    Http,
    Parse,
    WorkerPanic,
}

impl DiscoveryWorkerError {
    /// What to tell the user.
    pub open spec fn message_spec(self) -> Seq<char> {
        match self {
            DiscoveryWorkerError::InvalidCredential => "invalid CalDAV credential"@,
            DiscoveryWorkerError::Http => "CalDAV HTTP request failed"@,
            DiscoveryWorkerError::Parse => "invalid CalDAV response"@,
            DiscoveryWorkerError::WorkerPanic => "CalDAV worker failed"@,
        }
    }

    /// What to tell the user.
    pub fn message(&self) -> (r: String)
        ensures
            r@ == self.message_spec(),
    {
        match self {
            DiscoveryWorkerError::InvalidCredential => "invalid CalDAV credential".to_owned(),
            DiscoveryWorkerError::Http => "CalDAV HTTP request failed".to_owned(),
            DiscoveryWorkerError::Parse => "invalid CalDAV response".to_owned(),
            DiscoveryWorkerError::WorkerPanic => "CalDAV worker failed".to_owned(),
        }
    }

    /// The error that a failed discovery ends in: what the server sent, or anything else.
    pub fn from_caldav(error: &CaldavError) -> (r: DiscoveryWorkerError)
        ensures
            r == if error is Xml {
                DiscoveryWorkerError::Parse
            } else {
                DiscoveryWorkerError::Http
            },
    {
        match error {
            CaldavError::Xml(_) => DiscoveryWorkerError::Parse,
            _ => DiscoveryWorkerError::Http,
        }
    }
}

/// A resource cannot be read as an event.
#[derive(Debug)]
pub enum EventMappingError {
    MissingUid,
    MissingDtstart,
    FloatingTime,
    UnsupportedRecurrence,
    MultipleEvents,
    NoEvents,
    Parse(String),
    UnsupportedData(String),
}

/// The values of an [`EventMappingError`].
pub enum MappingErrorView {
    MissingUid,
    MissingDtstart,
    FloatingTime,
    UnsupportedRecurrence,
    MultipleEvents,
    NoEvents,
    Parse(Seq<char>),
    UnsupportedData(Seq<char>),
}

impl View for EventMappingError {
    type V = MappingErrorView;

    open spec fn view(&self) -> MappingErrorView {
        match *self {
            EventMappingError::MissingUid => MappingErrorView::MissingUid,
            EventMappingError::MissingDtstart => MappingErrorView::MissingDtstart,
            EventMappingError::FloatingTime => MappingErrorView::FloatingTime,
            EventMappingError::UnsupportedRecurrence => MappingErrorView::UnsupportedRecurrence,
            EventMappingError::MultipleEvents => MappingErrorView::MultipleEvents,
            EventMappingError::NoEvents => MappingErrorView::NoEvents,
            EventMappingError::Parse(message) => MappingErrorView::Parse(message@),
            EventMappingError::UnsupportedData(message) => MappingErrorView::UnsupportedData(message@),
        }
    }
}

impl EventMappingError {
    /// What to tell the user.
    pub open spec fn message_spec(error: MappingErrorView) -> Seq<char> {
        match error {
            MappingErrorView::MissingUid => "VEVENT has no UID"@,
            MappingErrorView::MissingDtstart => "VEVENT has no DTSTART"@,
            MappingErrorView::FloatingTime => "floating DATE-TIME values are unsupported"@,
            MappingErrorView::UnsupportedRecurrence => "recurrence is unsupported"@,
            MappingErrorView::MultipleEvents => "calendar contains multiple VEVENTs"@,
            MappingErrorView::NoEvents => "calendar contains no VEVENT"@,
            MappingErrorView::Parse(message) => "invalid iCalendar data: "@ + message,
            MappingErrorView::UnsupportedData(message) => "unsupported iCalendar data: "@ + message,
        }
    }

    /// What to tell the user.
    pub fn message(&self) -> (r: String)
        ensures
            r@ == Self::message_spec(self@),
    {
        match self {
            EventMappingError::MissingUid => "VEVENT has no UID".to_owned(),
            EventMappingError::MissingDtstart => "VEVENT has no DTSTART".to_owned(),
            EventMappingError::FloatingTime => "floating DATE-TIME values are unsupported".to_owned(),
            EventMappingError::UnsupportedRecurrence => "recurrence is unsupported".to_owned(),
            EventMappingError::MultipleEvents => "calendar contains multiple VEVENTs".to_owned(),
            EventMappingError::NoEvents => "calendar contains no VEVENT".to_owned(),
            EventMappingError::Parse(message) => text::joined(
                "invalid iCalendar data: ",
                message.as_str(),
            ),
            EventMappingError::UnsupportedData(message) => text::joined(
                "unsupported iCalendar data: ",
                message.as_str(),
            ),
        }
    }
}

/// An event cannot be written as a resource.
#[derive(Clone, Copy, Debug, PartialEq, Eq, Structural)]
pub enum EventSerializationError {
    EmptyUid,
    InvalidSchedule,
    UnsupportedRecurrence,
    UnsupportedReminders,
    Serialization,
}

impl EventSerializationError {
    /// What to tell the user.
    pub open spec fn message_spec(self) -> Seq<char> {
        match self {
            EventSerializationError::EmptyUid => "event has no remote UID"@,
            EventSerializationError::InvalidSchedule => "event schedule is invalid"@,
            EventSerializationError::UnsupportedRecurrence => "event recurrence is unsupported"@,
            EventSerializationError::UnsupportedReminders => "event reminders are unsupported"@,
            EventSerializationError::Serialization => "failed to serialize iCalendar data"@,
        }
    }

    /// What to tell the user.
    pub fn message(&self) -> (r: String)
        ensures
            r@ == self.message_spec(),
    {
        match self {
            EventSerializationError::EmptyUid => "event has no remote UID".to_owned(),
            EventSerializationError::InvalidSchedule => "event schedule is invalid".to_owned(),
            EventSerializationError::UnsupportedRecurrence => "event recurrence is unsupported".to_owned(),
            EventSerializationError::UnsupportedReminders => "event reminders are unsupported".to_owned(),
            EventSerializationError::Serialization => "failed to serialize iCalendar data".to_owned(),
        }
    }
}

/// What is said of requests that failed.
pub proof fn law_messages_of_failed_requests(status: u16, error: ParseError)
    ensures
        CaldavError::InvalidSyncToken.message_spec() == "sync token must not be blank"@,
        (CaldavError::HttpStatus { status }).message_spec() == "CalDAV request returned HTTP "@
            + text::decimal(status as nat),
        CaldavError::Transport.message_spec() == "CalDAV HTTP request failed"@,
        CaldavError::Url.message_spec() == "invalid CalDAV URL"@,
        CaldavError::Xml(error).message_spec() == "invalid CalDAV multistatus XML: "@ + error@,
        DiscoveryWorkerError::InvalidCredential.message_spec() == "invalid CalDAV credential"@,
        DiscoveryWorkerError::Http.message_spec() == "CalDAV HTTP request failed"@,
        DiscoveryWorkerError::Parse.message_spec() == "invalid CalDAV response"@,
        DiscoveryWorkerError::WorkerPanic.message_spec() == "CalDAV worker failed"@,
{
}

/// What is said of events that cannot be read or written.
pub proof fn law_messages_of_refused_events(message: Seq<char>)
    ensures
        EventMappingError::message_spec(MappingErrorView::MissingUid) == "VEVENT has no UID"@,
        EventMappingError::message_spec(MappingErrorView::MissingDtstart) == "VEVENT has no DTSTART"@,
        EventMappingError::message_spec(MappingErrorView::FloatingTime)
            == "floating DATE-TIME values are unsupported"@,
        EventMappingError::message_spec(MappingErrorView::UnsupportedRecurrence)
            == "recurrence is unsupported"@,
        EventMappingError::message_spec(MappingErrorView::MultipleEvents)
            == "calendar contains multiple VEVENTs"@,
        EventMappingError::message_spec(MappingErrorView::NoEvents) == "calendar contains no VEVENT"@,
        EventMappingError::message_spec(MappingErrorView::Parse(message)) == "invalid iCalendar data: "@
            + message,
        EventMappingError::message_spec(MappingErrorView::UnsupportedData(message))
            == "unsupported iCalendar data: "@ + message,
        EventSerializationError::EmptyUid.message_spec() == "event has no remote UID"@,
        EventSerializationError::InvalidSchedule.message_spec() == "event schedule is invalid"@,
        EventSerializationError::UnsupportedRecurrence.message_spec()
            == "event recurrence is unsupported"@,
        EventSerializationError::UnsupportedReminders.message_spec() == "event reminders are unsupported"@,
        EventSerializationError::Serialization.message_spec() == "failed to serialize iCalendar data"@,
{
}

} // verus!
