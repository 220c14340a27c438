//! What calendar servers are asked, and how their answers are taken.
use quick_xml::events::{BytesDecl, BytesEnd, BytesStart, BytesText, Event};
use quick_xml::writer::Writer;
use vstd::prelude::*;

use crate::backend::caldav::multistatus;
use crate::backend::caldav::xml;
use crate::backend::caldav::xml::{NamespaceKind, NodeView};
use crate::backend::caldav::{CaldavDiscovery, CaldavError, CollectionView, DiscoveredCalendar, DiscoveredView, DiscoveryView, ParseError, RecordView, ResourceRecord, ResourceWriteResult, SyncCollection};
use crate::backend::urls;
use crate::lists;
use crate::model;
use crate::text;

verus! {

/// Asks a server for the principal of the user.
pub const CURRENT_USER_PRINCIPAL_REQUEST: &'static str = "<?xml version=\"1.0\" encoding=\"utf-8\"?>\n<d:propfind xmlns:d=\"DAV:\"><d:prop><d:current-user-principal/></d:prop></d:propfind>";

/// Asks a principal for its calendar home.
pub const CALENDAR_HOME_SET_REQUEST: &'static str = "<?xml version=\"1.0\" encoding=\"utf-8\"?>\n<d:propfind xmlns:d=\"DAV:\" xmlns:c=\"urn:ietf:params:xml:ns:caldav\"><d:prop><c:calendar-home-set/></d:prop></d:propfind>";

/// Asks a calendar home for its calendars.
pub const CALENDAR_LIST_REQUEST: &'static str = "<?xml version=\"1.0\" encoding=\"utf-8\"?>\n<d:propfind xmlns:d=\"DAV:\" xmlns:c=\"urn:ietf:params:xml:ns:caldav\" xmlns:a=\"http://apple.com/ns/ical/\"><d:prop><d:resourcetype/><d:displayname/><d:sync-token/><a:calendar-color/><d:current-user-privilege-set/><c:supported-calendar-component-set/></d:prop></d:propfind>";

/// Asks a calendar for its events.
pub const CALENDAR_QUERY_REQUEST: &'static str = "<?xml version=\"1.0\" encoding=\"utf-8\"?>\n<c:calendar-query xmlns:d=\"DAV:\" xmlns:c=\"urn:ietf:params:xml:ns:caldav\"><d:prop><d:getetag/><c:calendar-data/></d:prop><c:filter><c:comp-filter name=\"VCALENDAR\"><c:comp-filter name=\"VEVENT\"/></c:comp-filter></c:filter></c:calendar-query>";

// ---------------------------------------------------------------------------------------------
// Writing a document
// ---------------------------------------------------------------------------------------------

/// `quick_xml::writer::Writer`, which writes a document piece by piece.
#[verifier::external_type_specification]
#[verifier::external_body]
#[verifier::reject_recursive_types(W)]
pub struct ExWriter<W>(quick_xml::writer::Writer<W>);

/// What was written with a writer.
pub uninterp spec fn written(writer: Writer<Vec<u8>>) -> Seq<char>;

/// A piece of a document to write.
pub enum Piece<'a> {
    /// The declaration, with its version and encoding.
    Declaration(&'a str, &'a str),
    /// A start tag, with keys and values of its attributes.
    Start(&'a str, Vec<(&'a str, &'a str)>),
    /// Text, of which what must be escaped is escaped.
    Text(&'a str),
    /// An end tag.
    End(&'a str),
    /// The tag of an empty element.
    Empty(&'a str),
}

/// A character as it is written in text.
pub open spec fn escaped_char(c: char) -> Seq<char> {
    if c == '<' {
        "&lt;"@
    } else if c == '>' {
        "&gt;"@
    } else if c == '&' {
        "&amp;"@
    } else if c == '\'' {
        "&apos;"@
    } else if c == '"' {
        "&quot;"@
    } else if c == '\r' {
        "&#13;"@
    } else {
        seq![c]
    }
}

/// A text as it is written.
pub open spec fn escaped(content: Seq<char>) -> Seq<char>
    decreases content.len(),
{
    if content.len() == 0 {
        seq![]
    } else {
        escaped(content.drop_last()) + escaped_char(content.last())
    }
}

/// Whether a text is written in an attribute as it is.
pub open spec fn is_plain_value(value: Seq<char>) -> bool {
    forall|i: int|
        0 <= i < value.len() ==> escaped_char(#[trigger] value[i]) == seq![value[i]] && value[i]
            != '\n' && value[i] != '\t'
}

/// The attributes of a tag as they are written.
pub open spec fn attributes_text(attributes: Seq<(&str, &str)>) -> Seq<char>
    decreases attributes.len(),
{
    if attributes.len() == 0 {
        seq![]
    } else {
        attributes_text(attributes.drop_last()) + " "@ + attributes.last().0@ + "=\""@
            + attributes.last().1@ + "\""@
    }
}

/// A piece as it is written.
pub open spec fn piece_text(piece: Piece) -> Seq<char> {
    match piece {
        Piece::Declaration(version, encoding) => "<?xml version=\""@ + version@ + "\" encoding=\""@
            + encoding@ + "\"?>"@,
        Piece::Start(name, attributes) => "<"@ + name@ + attributes_text(attributes@) + ">"@,
        Piece::Text(content) => escaped(content@),
        Piece::End(name) => "</"@ + name@ + ">"@,
        Piece::Empty(name) => "<"@ + name@ + "/>"@,
    }
}

/// Whether the attributes of a piece are written as they are.
pub open spec fn has_plain_attributes(piece: Piece) -> bool {
    piece matches Piece::Start(_, attributes) ==> (forall|i: int|
        0 <= i < attributes@.len() ==> is_plain_value((#[trigger] attributes@[i]).1@))
}

/// `quick_xml::writer::Writer::new` over an empty list of bytes: nothing was written.
#[verifier::external_body]
fn quick_xml_writer() -> (r: Writer<Vec<u8>>)
    ensures
        written(r) == Seq::<char>::empty(),
{
    Writer::new(Vec::new())
}

/// `quick_xml::writer::Writer::write_event` without indentation: the text of the piece goes to the
/// end of what was written. A list of bytes grows as needed, so that writing succeeds.
#[verifier::external_body]
fn quick_xml_write(writer: &mut Writer<Vec<u8>>, piece: Piece) -> (r: Result<(), String>)
    requires
        has_plain_attributes(piece),
    ensures
        written(*final(writer)) == written(*old(writer)) + piece_text(piece),
        r is Ok,
{
    let event = match piece {
        Piece::Declaration(version, code) => Event::Decl(BytesDecl::new(version, Some(code), None)),
        Piece::Start(name, pairs) => Event::Start(BytesStart::new(name).with_attributes(pairs)),
        Piece::Text(content) => Event::Text(BytesText::new(content)),
        Piece::End(name) => Event::End(BytesEnd::new(name)),
        Piece::Empty(name) => Event::Empty(BytesStart::new(name)),
    };
    writer.write_event(event).map_err(|error| error.to_string())
}

/// `quick_xml::writer::Writer::into_inner`, taken as text (`String::from_utf8`): what was written,
/// which is text because only text was written.
#[verifier::external_body]
fn quick_xml_written(writer: Writer<Vec<u8>>) -> (r: Option<String>)
    ensures
        model::text_view(r) == Some(written(writer)),
{
    String::from_utf8(writer.into_inner()).ok()
}

/// What a server is asked for the changes since a sync token.
pub open spec fn sync_request(token: Seq<char>) -> Seq<char> {
    "<?xml version=\"1.0\" encoding=\"utf-8\"?>"@
        + "<d:sync-collection xmlns:d=\"DAV:\" xmlns:c=\"urn:ietf:params:xml:ns:caldav\">"@
        + "<d:sync-token>"@ + escaped(token) + "</d:sync-token>"@
        + "<d:sync-level>1</d:sync-level>"@
        + "<d:prop><d:getetag/><c:calendar-data/></d:prop>"@ + "</d:sync-collection>"@
}

/// The error of a request that could not be written.
fn sync_request_error(message: String) -> (r: CaldavError)
    ensures
        r matches CaldavError::Xml(error) && error@ == message@,
{
    CaldavError::Xml(ParseError(message))
}

/// Write a piece of a request.
fn write_piece(writer: &mut Writer<Vec<u8>>, piece: Piece) -> (r: Result<(), CaldavError>)
    requires
        has_plain_attributes(piece),
    ensures
        r is Ok,
        written(*final(writer)) == written(*old(writer)) + piece_text(piece),
{
    match quick_xml_write(writer, piece) {
        Ok(_) => Ok(()),
        Err(message) => Err(sync_request_error(message)),
    }
}

/// Write an empty element.
fn write_empty_element(writer: &mut Writer<Vec<u8>>, name: &str) -> (r: Result<(), CaldavError>)
    ensures
        r is Ok,
        written(*final(writer)) == written(*old(writer)) + ("<"@ + name@ + "/>"@),
{
    write_piece(writer, Piece::Empty(name))
}

/// Write the head of a request for changes: its declaration and the start of its root.
fn write_request_head(writer: &mut Writer<Vec<u8>>) -> (r: Result<(), CaldavError>)
    ensures
        r is Ok,
        written(*final(writer)) == written(*old(writer)) + (
        "<?xml version=\"1.0\" encoding=\"utf-8\"?>"@
            + "<d:sync-collection xmlns:d=\"DAV:\" xmlns:c=\"urn:ietf:params:xml:ns:caldav\">"@),
{
    let ghost before = written(*writer);
    let mut attributes: Vec<(&str, &str)> = Vec::new();
    attributes.push(("xmlns:d", "DAV:"));
    attributes.push(("xmlns:c", "urn:ietf:params:xml:ns:caldav"));
    let ghost first = Piece::Declaration("1.0", "utf-8");
    let ghost second = Piece::Start("d:sync-collection", attributes);
    proof {
        lemma_declaration();
        assert(attributes@ =~= seq![
            ("xmlns:d", "DAV:"),
            ("xmlns:c", "urn:ietf:params:xml:ns:caldav"),
        ]);
        lemma_root_tag(attributes);
        lemma_plain_namespaces();
    }
    write_piece(writer, Piece::Declaration("1.0", "utf-8"))?;
    write_piece(writer, Piece::Start("d:sync-collection", attributes))?;
    assert(written(*writer) =~= before + (piece_text(first) + piece_text(second)));
    Ok(())
}

/// The declaration of a request, as it is written.
proof fn lemma_declaration()
    ensures
        piece_text(Piece::Declaration("1.0", "utf-8"))
            == "<?xml version=\"1.0\" encoding=\"utf-8\"?>"@,
{
    reveal_strlit("1.0");
    reveal_strlit("utf-8");
    reveal_strlit("<?xml version=\"");
    reveal_strlit("\" encoding=\"");
    reveal_strlit("\"?>");
    reveal_strlit("<?xml version=\"1.0\" encoding=\"utf-8\"?>");
    assert(piece_text(Piece::Declaration("1.0", "utf-8"))
        =~= "<?xml version=\"1.0\" encoding=\"utf-8\"?>"@);
}

/// The start of the root of a request, as it is written.
proof fn lemma_root_tag(attributes: Vec<(&str, &str)>)
    requires
        attributes@ == seq![("xmlns:d", "DAV:"), ("xmlns:c", "urn:ietf:params:xml:ns:caldav")],
    ensures
        piece_text(Piece::Start("d:sync-collection", attributes))
            == "<d:sync-collection xmlns:d=\"DAV:\" xmlns:c=\"urn:ietf:params:xml:ns:caldav\">"@,
{
    let a = attributes@;
    let b = a.drop_last();
    let c = b.drop_last();
    assert(attributes_text(c) == Seq::<char>::empty());
    reveal_strlit(" ");
    reveal_strlit("=\"");
    reveal_strlit("\"");
    reveal_strlit("<");
    reveal_strlit(">");
    reveal_strlit("xmlns:d");
    reveal_strlit("DAV:");
    reveal_strlit("xmlns:c");
    reveal_strlit("urn:ietf:params:xml:ns:caldav");
    reveal_strlit("d:sync-collection");
    reveal_strlit("<d:sync-collection xmlns:d=\"DAV:\" xmlns:c=\"urn:ietf:params:xml:ns:caldav\">");
    assert(attributes_text(b) == Seq::<char>::empty() + " "@ + "xmlns:d"@ + "=\""@ + "DAV:"@ + "\""@);
    assert(attributes_text(a) == attributes_text(b) + " "@ + "xmlns:c"@ + "=\""@
        + "urn:ietf:params:xml:ns:caldav"@ + "\""@);
    assert(piece_text(Piece::Start("d:sync-collection", attributes))
        =~= "<d:sync-collection xmlns:d=\"DAV:\" xmlns:c=\"urn:ietf:params:xml:ns:caldav\">"@);
}

/// The namespaces of a request are written as they are.
proof fn lemma_plain_namespaces()
    ensures
        is_plain_value("DAV:"@),
        is_plain_value("urn:ietf:params:xml:ns:caldav"@),
{
    reveal_strlit("DAV:");
    reveal_strlit("urn:ietf:params:xml:ns:caldav");
}

/// Write an element that holds text.
fn write_text_element(writer: &mut Writer<Vec<u8>>, name: &str, content: &str) -> (r: Result<
    (),
    CaldavError,
>)
    ensures
        r is Ok,
        written(*final(writer)) == written(*old(writer)) + ("<"@ + name@ + ">"@ + escaped(content@)
            + "</"@ + name@ + ">"@),
{
    let ghost before = written(*writer);
    let attributes: Vec<(&str, &str)> = Vec::new();
    let ghost start = Piece::Start(name, attributes);
    assert(attributes_text(attributes@) == Seq::<char>::empty());
    assert(piece_text(start) =~= "<"@ + name@ + ">"@);
    write_piece(writer, Piece::Start(name, attributes))?;
    write_piece(writer, Piece::Text(content))?;
    write_piece(writer, Piece::End(name))?;
    assert(written(*writer) =~= before + ("<"@ + name@ + ">"@ + escaped(content@) + "</"@ + name@
        + ">"@));
    Ok(())
}

/// The start and the end of the element around a sync token, as they are written.
proof fn lemma_token_tags()
    ensures
        "<"@ + "d:sync-token"@ + ">"@ == "<d:sync-token>"@,
        "</"@ + "d:sync-token"@ + ">"@ == "</d:sync-token>"@,
{
    reveal_strlit("<");
    reveal_strlit("</");
    reveal_strlit(">");
    reveal_strlit("d:sync-token");
    reveal_strlit("<d:sync-token>");
    reveal_strlit("</d:sync-token>");
    assert("<"@ + "d:sync-token"@ + ">"@ =~= "<d:sync-token>"@);
    assert("</"@ + "d:sync-token"@ + ">"@ =~= "</d:sync-token>"@);
}

/// The level of a request, as it is written.
proof fn lemma_level()
    ensures
        "<"@ + "d:sync-level"@ + ">"@ + escaped("1"@) + "</"@ + "d:sync-level"@ + ">"@
            == "<d:sync-level>1</d:sync-level>"@,
{
    reveal_strlit("<");
    reveal_strlit("</");
    reveal_strlit(">");
    reveal_strlit("1");
    reveal_strlit("d:sync-level");
    reveal_strlit("<d:sync-level>1</d:sync-level>");
    assert("1"@.drop_last() =~= Seq::<char>::empty());
    assert(escaped("1"@.drop_last()) == Seq::<char>::empty());
    assert(escaped("1"@) =~= seq!['1']);
    assert("<"@ + "d:sync-level"@ + ">"@ + escaped("1"@) + "</"@ + "d:sync-level"@ + ">"@
        =~= "<d:sync-level>1</d:sync-level>"@);
}

/// The properties of a request, as they are written.
proof fn lemma_properties()
    ensures
        ("<"@ + "d:prop"@ + ">"@) + ("<"@ + "d:getetag"@ + "/>"@) + ("<"@ + "c:calendar-data"@ + "/>"@)
            + ("</"@ + "d:prop"@ + ">"@) == "<d:prop><d:getetag/><c:calendar-data/></d:prop>"@,
        "</"@ + "d:sync-collection"@ + ">"@ == "</d:sync-collection>"@,
{
    reveal_strlit("<");
    reveal_strlit("</");
    reveal_strlit(">");
    reveal_strlit("/>");
    reveal_strlit("d:prop");
    reveal_strlit("d:getetag");
    reveal_strlit("c:calendar-data");
    reveal_strlit("d:sync-collection");
    reveal_strlit("</d:sync-collection>");
    reveal_strlit("<d:prop><d:getetag/><c:calendar-data/></d:prop>");
    assert(("<"@ + "d:prop"@ + ">"@) + ("<"@ + "d:getetag"@ + "/>"@) + ("<"@ + "c:calendar-data"@
        + "/>"@) + ("</"@ + "d:prop"@ + ">"@) =~= "<d:prop><d:getetag/><c:calendar-data/></d:prop>"@);
    assert("</"@ + "d:sync-collection"@ + ">"@ =~= "</d:sync-collection>"@);
}

/// Write the properties that a request for changes asks for.
fn write_properties(writer: &mut Writer<Vec<u8>>) -> (r: Result<(), CaldavError>)
    ensures
        r is Ok,
        written(*final(writer)) == written(*old(writer))
            + "<d:prop><d:getetag/><c:calendar-data/></d:prop>"@,
{
    let ghost before = written(*writer);
    let attributes: Vec<(&str, &str)> = Vec::new();
    let ghost start = Piece::Start("d:prop", attributes);
    assert(attributes_text(attributes@) == Seq::<char>::empty());
    assert(piece_text(start) =~= "<"@ + "d:prop"@ + ">"@);
    write_piece(writer, Piece::Start("d:prop", attributes))?;
    write_empty_element(writer, "d:getetag")?;
    write_empty_element(writer, "c:calendar-data")?;
    write_piece(writer, Piece::End("d:prop"))?;
    proof {
        lemma_properties();
        assert(written(*writer) =~= before + (("<"@ + "d:prop"@ + ">"@) + ("<"@ + "d:getetag"@ + "/>"@)
            + ("<"@ + "c:calendar-data"@ + "/>"@) + ("</"@ + "d:prop"@ + ">"@)));
    }
    Ok(())
}

/// The values of a request, or why it cannot be made.
pub open spec fn request_view(r: Result<String, CaldavError>) -> Option<Seq<char>> {
    match r {
        Ok(request) => Some(request@),
        Err(_) => None,
    }
}

/// What a server is asked for the changes since a sync token.
pub fn sync_collection_request(prior_sync_token: &str) -> (r: Result<String, CaldavError>)
    ensures
        request_view(r) == Some(sync_request(prior_sync_token@)),
{
    let mut writer = quick_xml_writer();
    write_request_head(&mut writer)?;
    write_text_element(&mut writer, "d:sync-token", prior_sync_token)?;
    write_text_element(&mut writer, "d:sync-level", "1")?;
    write_properties(&mut writer)?;
    write_piece(&mut writer, Piece::End("d:sync-collection"))?;
    proof {
        lemma_token_tags();
        lemma_level();
        lemma_properties();
        let token = escaped(prior_sync_token@);
        assert("<"@ + "d:sync-token"@ + ">"@ + token + "</"@ + "d:sync-token"@ + ">"@
            =~= "<d:sync-token>"@ + token + "</d:sync-token>"@) by {
            assert("<"@ + "d:sync-token"@ + ">"@ + token + "</"@ + "d:sync-token"@ + ">"@ =~= ("<"@
                + "d:sync-token"@ + ">"@) + token + ("</"@ + "d:sync-token"@ + ">"@));
        }
        assert(written(writer) =~= sync_request(prior_sync_token@));
    }
    match quick_xml_written(writer) {
        Some(request) => Ok(request),
        None => Err(CaldavError::Xml(xml::malformed("generated sync request is not UTF-8"))),
    }
}

// ---------------------------------------------------------------------------------------------
// Before a request
// ---------------------------------------------------------------------------------------------

/// Whether a request can go to an address.
pub fn check_request_url(address: &str) -> (r: Result<(), CaldavError>)
    ensures
        r is Ok <==> urls::is_http(address@),
        r matches Err(error) ==> error is Url,
{
    if urls::is_http_url(address) {
        Ok(())
    } else {
        Err(CaldavError::Url)
    }
}

/// Whether a server can be asked for the changes since a sync token: the token must not be blank,
/// and a request can go to the address of the calendar.
pub open spec fn changes_error(address: Seq<char>, token: Seq<char>) -> Option<CaldavError> {
    if text::trimmed(token).len() == 0 {
        Some(CaldavError::InvalidSyncToken)
    } else if !urls::is_http(address) {
        Some(CaldavError::Url)
    } else {
        None
    }
}

/// Whether a server can be asked for the changes since a sync token, and what it is asked.
pub fn prepare_changes_request(address: &str, token: &str) -> (r: Result<String, CaldavError>)
    ensures
        match r {
            Ok(request) => changes_error(address@, token@) is None && request@ == sync_request(token@),
            Err(error) => changes_error(address@, token@) == Some(error),
        },
{
    let trimmed = text::trim_chars(&text::chars_of(token));
    if trimmed.len() == 0 {
        return Err(CaldavError::InvalidSyncToken);
    }
    if !urls::is_http_url(address) {
        return Err(CaldavError::Url);
    }
    sync_collection_request(token)
}

// ---------------------------------------------------------------------------------------------
// After a request
// ---------------------------------------------------------------------------------------------

/// Whether a status code means success.
pub open spec fn is_success_status(status: u16) -> bool {
    200 <= status < 300
}

/// What an answer to a written resource says: the entity tag that it names, where it means success.
pub fn response_status(status: u16, etag: Option<String>) -> (r: Result<ResourceWriteResult, CaldavError>)
    ensures
        match r {
            Ok(result) => is_success_status(status) && result.etag == etag,
            Err(error) => !is_success_status(status) && error == (CaldavError::HttpStatus { status }),
        },
{
    if 200 <= status && status < 300 {
        Ok(ResourceWriteResult { etag })
    } else {
        Err(CaldavError::HttpStatus { status })
    }
}

/// The contents of an answer: none where its status does not mean success, or where they could not
/// be received.
pub fn response_body(status: u16, body: Option<String>) -> (r: Result<String, CaldavError>)
    ensures
        match r {
            Ok(content) => is_success_status(status) && body == Some(content),
            Err(error) => if is_success_status(status) {
                body is None && error is Transport
            } else {
                error == (CaldavError::HttpStatus { status })
            },
        },
{
    if status < 200 || status >= 300 {
        return Err(CaldavError::HttpStatus { status });
    }
    match body {
        Some(content) => Ok(content),
        None => Err(CaldavError::Transport),
    }
}

/// What an answer comes to, or why nothing comes of it.
pub enum Taken<T> {
    Done(T),
    Url,
    Xml(Seq<char>),
}

/// What an answer comes to.
pub open spec fn taken_view<T: View>(r: Result<T, CaldavError>) -> Taken<T::V> {
    match r {
        Ok(value) => Taken::Done(value@),
        Err(CaldavError::Xml(error)) => Taken::Xml(error@),
        Err(_) => Taken::Url,
    }
}

/// The resources of an answer with their full addresses, up to the first that has none.
pub open spec fn resolved_records(base: Seq<char>, records: Seq<RecordView>) -> Option<Seq<RecordView>>
    decreases records.len(),
{
    if records.len() == 0 {
        Some(seq![])
    } else {
        match (
            resolved_records(base, records.drop_last()),
            urls::url_joined(base, records.last().href),
        ) {
            (Some(before), Some(href)) => Some(before.push(RecordView { href, ..records.last() })),
            _ => None,
        }
    }
}

/// Without the addresses of its first part, a list has no addresses.
proof fn lemma_resolved_records(base: Seq<char>, records: Seq<RecordView>, n: int)
    requires
        0 <= n <= records.len(),
        resolved_records(base, records.take(n)) is None,
    ensures
        resolved_records(base, records) is None,
    decreases records.len(),
{
    if n == records.len() {
        assert(records.take(n) =~= records);
    } else {
        assert(records.drop_last().take(n) =~= records.take(n));
        lemma_resolved_records(base, records.drop_last(), n);
    }
}

/// The values of a list of resources with full addresses.
pub open spec fn resolved_view(r: Option<Vec<ResourceRecord>>) -> Option<Seq<RecordView>> {
    match r {
        Some(records) => Some(lists::views_of(records@)),
        None => None,
    }
}

/// The resources of an answer with their full addresses.
fn resolve_records(base: &str, records: &Vec<ResourceRecord>) -> (r: Option<Vec<ResourceRecord>>)
    ensures
        resolved_view(r) == resolved_records(base@, lists::views_of(records@)),
{
    let ghost all = lists::views_of(records@);
    let mut out: Vec<ResourceRecord> = Vec::new();
    assert(lists::views_of(out@) =~= seq![]);
    assert(resolved_records(base@, all.take(0)) == Some(lists::views_of(out@)));
    for i in 0..records.len()
        invariant
            all == lists::views_of(records@),
            resolved_records(base@, all.take(i as int)) == Some(lists::views_of(out@)),
    {
        let record = &records[i];
        proof {
            lists::lemma_views_take(records@, i as int);
        }
        match urls::resolve_href(base, record.href.as_str()) {
            Some(href) => {
                let resolved = ResourceRecord {
                    href,
                    response_status: record.response_status,
                    etag: model::copy_text(&record.etag),
                    calendar_data: model::copy_text(&record.calendar_data),
                };
                proof {
                    lists::lemma_views_push(out@, resolved);
                }
                out.push(resolved);
            },
            None => {
                proof {
                    lemma_resolved_records(base@, all, i + 1);
                }
                return None;
            },
        }
    }
    proof {
        lists::lemma_views_all(records@);
    }
    Some(out)
}

/// What the answer of a calendar to a request for its resources comes to.
pub open spec fn resources_of(address: Seq<char>, root: Result<NodeView, Seq<char>>) -> Taken<
    Seq<RecordView>,
> {
    match multistatus::multistatus_of(root) {
        Ok(records) => match resolved_records(address, records) {
            Some(resolved) => Taken::Done(resolved),
            None => Taken::Url,
        },
        Err(message) => Taken::Xml(message),
    }
}

/// What an answer comes to.
pub open spec fn resources_view(r: Result<Vec<ResourceRecord>, CaldavError>) -> Taken<Seq<RecordView>> {
    match r {
        Ok(records) => Taken::Done(lists::views_of(records@)),
        Err(CaldavError::Xml(error)) => Taken::Xml(error@),
        Err(_) => Taken::Url,
    }
}

/// The resources in the answer of a calendar, with their full addresses.
pub fn resources_from_response(address: &str, body: &str) -> (r: Result<
    Vec<ResourceRecord>,
    CaldavError,
>)
    ensures
        resources_view(r) == resources_of(address@, xml::parsed(body@)),
{
    match multistatus::parse_multistatus(body) {
        Ok(records) => match resolve_records(address, &records) {
            Some(resolved) => Ok(resolved),
            None => Err(CaldavError::Url),
        },
        Err(error) => Err(CaldavError::Xml(error)),
    }
}

/// What the answer of a calendar to a request for its changes comes to.
pub open spec fn changes_of(address: Seq<char>, root: Result<NodeView, Seq<char>>) -> Taken<
    CollectionView,
> {
    match multistatus::collection_of(root) {
        Ok(collection) => match resolved_records(address, collection.changes) {
            Some(changes) => Taken::Done(CollectionView { changes, ..collection }),
            None => Taken::Url,
        },
        Err(message) => Taken::Xml(message),
    }
}

/// The changes in the answer of a calendar, with their full addresses.
pub fn changes_from_response(address: &str, body: &str) -> (r: Result<SyncCollection, CaldavError>)
    ensures
        taken_view(r) == changes_of(address@, xml::parsed(body@)),
{
    match multistatus::parse_sync_collection(body) {
        Ok(collection) => match resolve_records(address, &collection.changes) {
            Some(changes) => Ok(SyncCollection { sync_token: collection.sync_token, changes }),
            None => Err(CaldavError::Url),
        },
        Err(error) => Err(CaldavError::Xml(error)),
    }
}

// ---------------------------------------------------------------------------------------------
// Discovery
// ---------------------------------------------------------------------------------------------

/// What an answer that names an address comes to, under the address that was asked.
pub open spec fn address_of(base: Seq<char>, href: Result<Seq<char>, Seq<char>>) -> Taken<Seq<char>> {
    match href {
        Ok(href) => match urls::url_joined(base, href) {
            Some(address) => Taken::Done(address),
            None => Taken::Url,
        },
        Err(message) => Taken::Xml(message),
    }
}

/// What an address that was asked for comes to.
pub open spec fn address_view(r: Result<String, CaldavError>) -> Taken<Seq<char>> {
    match r {
        Ok(address) => Taken::Done(address@),
        Err(CaldavError::Xml(error)) => Taken::Xml(error@),
        Err(_) => Taken::Url,
    }
}

/// The full address of what an answer names.
fn take_address(base: &str, href: Result<String, ParseError>) -> (r: Result<String, CaldavError>)
    ensures
        address_view(r) == address_of(base@, multistatus::href_view(href)),
{
    match href {
        Ok(href) => match urls::resolve_href(base, href.as_str()) {
            Some(address) => Ok(address),
            None => Err(CaldavError::Url),
        },
        Err(error) => Err(CaldavError::Xml(error)),
    }
}

/// The address of the principal in the answer of a server.
pub fn principal_from_response(server_url: &str, body: &str) -> (r: Result<String, CaldavError>)
    ensures
        address_view(r) == address_of(
            server_url@,
            multistatus::property_href(
                xml::parsed(body@),
                NamespaceKind::Dav,
                "current-user-principal"@,
                "missing current-user-principal href"@,
            ),
        ),
{
    take_address(server_url, multistatus::parse_current_user_principal(body))
}

/// The address of the calendar home in the answer of a principal.
pub fn calendar_home_from_response(principal_url: &str, body: &str) -> (r: Result<String, CaldavError>)
    ensures
        address_view(r) == address_of(
            principal_url@,
            multistatus::property_href(
                xml::parsed(body@),
                NamespaceKind::Caldav,
                "calendar-home-set"@,
                "missing calendar-home-set href"@,
            ),
        ),
{
    take_address(principal_url, multistatus::parse_calendar_home_set(body))
}

/// The calendars of an answer with their full addresses, up to the first that has none.
pub open spec fn resolved_calendars(base: Seq<char>, calendars: Seq<DiscoveredView>) -> Option<
    Seq<DiscoveredView>,
>
    decreases calendars.len(),
{
    if calendars.len() == 0 {
        Some(seq![])
    } else {
        match (
            resolved_calendars(base, calendars.drop_last()),
            urls::url_joined(base, calendars.last().href),
        ) {
            (Some(before), Some(href)) => Some(
                before.push(DiscoveredView { href, ..calendars.last() }),
            ),
            _ => None,
        }
    }
}

/// Without the addresses of its first part, a list has no addresses.
proof fn lemma_resolved_calendars(base: Seq<char>, calendars: Seq<DiscoveredView>, n: int)
    requires
        0 <= n <= calendars.len(),
        resolved_calendars(base, calendars.take(n)) is None,
    ensures
        resolved_calendars(base, calendars) is None,
    decreases calendars.len(),
{
    if n == calendars.len() {
        assert(calendars.take(n) =~= calendars);
    } else {
        assert(calendars.drop_last().take(n) =~= calendars.take(n));
        lemma_resolved_calendars(base, calendars.drop_last(), n);
    }
}

/// The values of a list of calendars with full addresses.
pub open spec fn offers_view(r: Option<Vec<DiscoveredCalendar>>) -> Option<Seq<DiscoveredView>> {
    match r {
        Some(calendars) => Some(lists::views_of(calendars@)),
        None => None,
    }
}

/// The calendars of an answer with their full addresses.
fn resolve_calendars(base: &str, calendars: &Vec<DiscoveredCalendar>) -> (r: Option<
    Vec<DiscoveredCalendar>,
>)
    ensures
        offers_view(r) == resolved_calendars(base@, lists::views_of(calendars@)),
{
    let ghost all = lists::views_of(calendars@);
    let mut out: Vec<DiscoveredCalendar> = Vec::new();
    assert(lists::views_of(out@) =~= seq![]);
    assert(resolved_calendars(base@, all.take(0)) == Some(lists::views_of(out@)));
    for i in 0..calendars.len()
        invariant
            all == lists::views_of(calendars@),
            resolved_calendars(base@, all.take(i as int)) == Some(lists::views_of(out@)),
    {
        let calendar = &calendars[i];
        proof {
            lists::lemma_views_take(calendars@, i as int);
        }
        match urls::resolve_href(base, calendar.href.as_str()) {
            Some(href) => {
                let resolved = DiscoveredCalendar {
                    href,
                    display_name: model::copy_text(&calendar.display_name),
                    sync_token: model::copy_text(&calendar.sync_token),
                    color: model::copy_text(&calendar.color),
                    writable: calendar.writable,
                };
                proof {
                    lists::lemma_views_push(out@, resolved);
                }
                out.push(resolved);
            },
            None => {
                proof {
                    lemma_resolved_calendars(base@, all, i + 1);
                }
                return None;
            },
        }
    }
    proof {
        lists::lemma_views_all(calendars@);
    }
    Some(out)
}

/// What the answer of a calendar home comes to.
pub open spec fn discovery_of(
    principal_url: Seq<char>,
    calendar_home_url: Seq<char>,
    root: Result<NodeView, Seq<char>>,
) -> Taken<DiscoveryView> {
    match multistatus::calendars_of(root) {
        Ok(calendars) => match resolved_calendars(calendar_home_url, calendars) {
            Some(calendars) => Taken::Done(
                DiscoveryView { principal_url, calendar_home_url, calendars },
            ),
            None => Taken::Url,
        },
        Err(message) => Taken::Xml(message),
    }
}

/// The calendars in the answer of a calendar home, with their full addresses.
pub fn discovery_from_response(principal_url: &str, calendar_home_url: &str, body: &str) -> (r: Result<
    CaldavDiscovery,
    CaldavError,
>)
    ensures
        taken_view(r) == discovery_of(principal_url@, calendar_home_url@, xml::parsed(body@)),
{
    match multistatus::parse_calendar_home_multistatus(body) {
        Ok(calendars) => match resolve_calendars(calendar_home_url, &calendars) {
            Some(calendars) => Ok(
                CaldavDiscovery {
                    principal_url: principal_url.to_owned(),
                    calendar_home_url: calendar_home_url.to_owned(),
                    calendars,
                },
            ),
            None => Err(CaldavError::Url),
        },
        Err(error) => Err(CaldavError::Xml(error)),
    }
}

// ---------------------------------------------------------------------------------------------
// Laws of requests
// ---------------------------------------------------------------------------------------------

/// What servers are asked: for the principal of the user, for its calendar home, for the calendars in
/// it with their kind, name, token, colour, privileges and components, and for the version and data of
/// every event.
pub proof fn law_what_servers_are_asked()
    ensures
        CURRENT_USER_PRINCIPAL_REQUEST@
            == "<?xml version=\"1.0\" encoding=\"utf-8\"?>\n<d:propfind xmlns:d=\"DAV:\"><d:prop><d:current-user-principal/></d:prop></d:propfind>"@,
        CALENDAR_HOME_SET_REQUEST@
            == "<?xml version=\"1.0\" encoding=\"utf-8\"?>\n<d:propfind xmlns:d=\"DAV:\" xmlns:c=\"urn:ietf:params:xml:ns:caldav\"><d:prop><c:calendar-home-set/></d:prop></d:propfind>"@,
        CALENDAR_LIST_REQUEST@
            == "<?xml version=\"1.0\" encoding=\"utf-8\"?>\n<d:propfind xmlns:d=\"DAV:\" xmlns:c=\"urn:ietf:params:xml:ns:caldav\" xmlns:a=\"http://apple.com/ns/ical/\"><d:prop><d:resourcetype/><d:displayname/><d:sync-token/><a:calendar-color/><d:current-user-privilege-set/><c:supported-calendar-component-set/></d:prop></d:propfind>"@,
        CALENDAR_QUERY_REQUEST@
            == "<?xml version=\"1.0\" encoding=\"utf-8\"?>\n<c:calendar-query xmlns:d=\"DAV:\" xmlns:c=\"urn:ietf:params:xml:ns:caldav\"><d:prop><d:getetag/><c:calendar-data/></d:prop><c:filter><c:comp-filter name=\"VCALENDAR\"><c:comp-filter name=\"VEVENT\"/></c:comp-filter></c:filter></c:calendar-query>"@,
{
}

/// The request for changes holds the token, escaped, between its tags, and asks for the version and
/// the data of each resource, one level deep.
pub proof fn law_request_for_changes(token: Seq<char>)
    ensures
        sync_request(token)
            == "<?xml version=\"1.0\" encoding=\"utf-8\"?><d:sync-collection xmlns:d=\"DAV:\" xmlns:c=\"urn:ietf:params:xml:ns:caldav\"><d:sync-token>"@
            + escaped(token)
            + "</d:sync-token><d:sync-level>1</d:sync-level><d:prop><d:getetag/><c:calendar-data/></d:prop></d:sync-collection>"@,
{
    reveal_strlit("<?xml version=\"1.0\" encoding=\"utf-8\"?>");
    reveal_strlit("<d:sync-collection xmlns:d=\"DAV:\" xmlns:c=\"urn:ietf:params:xml:ns:caldav\">");
    reveal_strlit("<d:sync-token>");
    reveal_strlit("</d:sync-token>");
    reveal_strlit("<d:sync-level>1</d:sync-level>");
    reveal_strlit("<d:prop><d:getetag/><c:calendar-data/></d:prop>");
    reveal_strlit("</d:sync-collection>");
    reveal_strlit(
        "<?xml version=\"1.0\" encoding=\"utf-8\"?><d:sync-collection xmlns:d=\"DAV:\" xmlns:c=\"urn:ietf:params:xml:ns:caldav\"><d:sync-token>",
    );
    reveal_strlit(
        "</d:sync-token><d:sync-level>1</d:sync-level><d:prop><d:getetag/><c:calendar-data/></d:prop></d:sync-collection>",
    );
    let head = "<?xml version=\"1.0\" encoding=\"utf-8\"?>"@
        + "<d:sync-collection xmlns:d=\"DAV:\" xmlns:c=\"urn:ietf:params:xml:ns:caldav\">"@
        + "<d:sync-token>"@;
    let tail = "</d:sync-token>"@ + "<d:sync-level>1</d:sync-level>"@
        + "<d:prop><d:getetag/><c:calendar-data/></d:prop>"@ + "</d:sync-collection>"@;
    assert(head
        =~= "<?xml version=\"1.0\" encoding=\"utf-8\"?><d:sync-collection xmlns:d=\"DAV:\" xmlns:c=\"urn:ietf:params:xml:ns:caldav\"><d:sync-token>"@);
    assert(tail
        =~= "</d:sync-token><d:sync-level>1</d:sync-level><d:prop><d:getetag/><c:calendar-data/></d:prop></d:sync-collection>"@);
    assert(sync_request(token) =~= head + escaped(token) + tail);
}

/// Escaping goes character by character; what has a meaning in a document is replaced, so that no
/// bracket and no quotation mark is left.
pub proof fn law_escaped_text(content: Seq<char>, more: Seq<char>)
    ensures
        escaped(content + more) == escaped(content) + escaped(more),
        escaped(seq!['<']) == "&lt;"@,
        escaped(seq!['>']) == "&gt;"@,
        escaped(seq!['&']) == "&amp;"@,
        escaped(seq!['"']) == "&quot;"@,
        !escaped(content).contains('<'),
        !escaped(content).contains('>'),
        !escaped(content).contains('"'),
    decreases more.len(), content.len(),
{
    lemma_escaped_one('<');
    lemma_escaped_one('>');
    lemma_escaped_one('&');
    lemma_escaped_one('"');
    if more.len() == 0 {
        assert(content + more =~= content);
        assert(escaped(content) + escaped(more) =~= escaped(content));
        if content.len() > 0 {
            law_escaped_text(content.drop_last(), more);
            lemma_escaped_char_is_safe(content.last());
            let (a, b) = (escaped(content.drop_last()), escaped_char(content.last()));
            lemma_concat_without(a, b, '<');
            lemma_concat_without(a, b, '>');
            lemma_concat_without(a, b, '"');
        }
    } else {
        law_escaped_text(content, more.drop_last());
        assert((content + more).drop_last() =~= content + more.drop_last());
        assert((content + more).last() == more.last());
        assert(escaped(content) + escaped(more.drop_last()) + escaped_char(more.last()) =~= escaped(
            content,
        ) + escaped(more));
    }
}

proof fn lemma_concat_without(a: Seq<char>, b: Seq<char>, c: char)
    requires
        !a.contains(c),
        !b.contains(c),
    ensures
        !(a + b).contains(c),
{
    if (a + b).contains(c) {
        let i = choose|i: int| 0 <= i < (a + b).len() && (a + b)[i] == c;
        if i < a.len() {
            assert(a[i] == c);
        } else {
            assert(b[i - a.len()] == c);
        }
    }
}

proof fn lemma_escaped_one(c: char)
    ensures
        escaped(seq![c]) == escaped_char(c),
{
    assert(seq![c].drop_last() =~= seq![]);
    assert(escaped(seq![c].drop_last()) =~= seq![]);
    assert(escaped(seq![c]) =~= escaped_char(c));
}

proof fn lemma_escaped_char_is_safe(c: char)
    ensures
        !escaped_char(c).contains('<'),
        !escaped_char(c).contains('>'),
        !escaped_char(c).contains('"'),
{
    reveal_strlit("&lt;");
    reveal_strlit("&gt;");
    reveal_strlit("&amp;");
    reveal_strlit("&apos;");
    reveal_strlit("&quot;");
    reveal_strlit("&#13;");
}

/// Changes are asked for only with a token that is not blank, at an address that can be asked.
pub proof fn law_changes_that_can_be_asked_for(address: Seq<char>, token: Seq<char>)
    ensures
        text::trimmed(token).len() == 0 ==> changes_error(address, token) == Some(
            CaldavError::InvalidSyncToken,
        ),
        text::trimmed(token).len() > 0 && !urls::is_http(address) ==> changes_error(address, token)
            == Some(CaldavError::Url),
        text::trimmed(token).len() > 0 && urls::is_http(address) ==> changes_error(address, token) is None,
{
}

/// A request succeeded with a status from 200 to 299.
pub proof fn law_successful_statuses(status: u16)
    ensures
        is_success_status(status) <==> 200 <= status <= 299,
{
}

/// The addresses of resources are made whole against the address that was asked, and nothing else of
/// them changes; where one cannot be made whole, none is taken.
pub proof fn law_addresses_are_made_whole(base: Seq<char>, records: Seq<RecordView>, i: int)
    requires
        0 <= i < records.len(),
    ensures
        urls::url_joined(base, records[i].href) is None ==> resolved_records(base, records) is None,
        resolved_records(base, records) matches Some(whole) ==> whole.len() == records.len()
            && urls::url_joined(base, records[i].href) == Some(whole[i].href)
            && whole[i].response_status == records[i].response_status && whole[i].etag == records[i].etag
            && whole[i].calendar_data == records[i].calendar_data,
    decreases records.len(),
{
    let before = records.drop_last();
    if i < before.len() {
        assert(before[i] == records[i]);
        law_addresses_are_made_whole(base, before, i);
    } else if before.len() > 0 {
        law_addresses_are_made_whole(base, before, 0);
    }
}

/// The addresses of calendars are made whole, each on the address that they were found at; where one
/// cannot be, none are.
pub proof fn law_calendars_are_made_whole(base: Seq<char>, calendars: Seq<DiscoveredView>)
    ensures
        resolved_calendars(base, calendars) matches Some(resolved) ==> resolved.len() == calendars.len()
            && forall|i: int|
            0 <= i < calendars.len() ==> urls::url_joined(base, calendars[i].href) is Some
                && #[trigger] resolved[i] == (DiscoveredView {
                href: urls::url_joined(base, calendars[i].href)->0,
                ..calendars[i]
            }),
        resolved_calendars(base, calendars) is None <==> exists|i: int|
            0 <= i < calendars.len() && urls::url_joined(base, (#[trigger] calendars[i]).href) is None,
    decreases calendars.len(),
{
    if calendars.len() > 0 {
        let shorter = calendars.drop_last();
        let last = calendars.len() - 1;
        law_calendars_are_made_whole(base, shorter);
        assert(calendars[last] == calendars.last());
        if resolved_calendars(base, shorter) is None {
            let i = choose|i: int|
                0 <= i < shorter.len() && urls::url_joined(base, (#[trigger] shorter[i]).href) is None;
            assert(calendars[i] == shorter[i]);
        } else {
            let before = resolved_calendars(base, shorter)->0;
            assert forall|i: int| 0 <= i < shorter.len() implies urls::url_joined(
                base,
                (#[trigger] calendars[i]).href,
            ) is Some by {
                assert(shorter[i] == calendars[i]);
                assert(before[i].href == before[i].href);
            }
            if let Some(resolved) = resolved_calendars(base, calendars) {
                assert forall|i: int| 0 <= i < calendars.len() implies urls::url_joined(
                    base,
                    calendars[i].href,
                ) is Some && #[trigger] resolved[i] == (DiscoveredView {
                    href: urls::url_joined(base, calendars[i].href)->0,
                    ..calendars[i]
                }) by {
                    if i < last {
                        assert(shorter[i] == calendars[i]);
                        assert(before[i] == resolved[i]);
                    }
                }
            }
        }
    }
}

/// An answer comes to what it holds, with its addresses made whole; one that cannot be read says why,
/// and one with an address that cannot be made whole is refused.
pub proof fn law_what_answers_come_to(
    address: Seq<char>,
    principal: Seq<char>,
    root: Result<NodeView, Seq<char>>,
    href: Result<Seq<char>, Seq<char>>,
)
    ensures
        match multistatus::multistatus_of(root) {
            Err(message) => resources_of(address, root) == Taken::<Seq<RecordView>>::Xml(message),
            Ok(records) => {
                &&& resolved_records(address, records) is None ==> resources_of(address, root) is Url
                &&& resolved_records(address, records) matches Some(resolved) ==> resources_of(address, root)
                    == Taken::Done(resolved)
            },
        },
        match multistatus::collection_of(root) {
            Err(message) => changes_of(address, root) == Taken::<CollectionView>::Xml(message),
            Ok(collection) => {
                &&& resolved_records(address, collection.changes) is None ==> changes_of(address, root) is Url
                &&& resolved_records(address, collection.changes) matches Some(resolved) ==> (changes_of(
                    address,
                    root,
                ) matches Taken::Done(done) && done.changes == resolved && done.sync_token
                    == collection.sync_token)
            },
        },
        match multistatus::calendars_of(root) {
            Err(message) => discovery_of(principal, address, root) == Taken::<DiscoveryView>::Xml(message),
            Ok(calendars) => {
                &&& resolved_calendars(address, calendars) is None ==> discovery_of(principal, address, root)
                    is Url
                &&& resolved_calendars(address, calendars) matches Some(resolved) ==> (discovery_of(
                    principal,
                    address,
                    root,
                ) matches Taken::Done(done) && done.calendars == resolved && done.principal_url
                    == principal && done.calendar_home_url == address)
            },
        },
        href matches Err(message) ==> address_of(address, href) == Taken::<Seq<char>>::Xml(message),
        href matches Ok(reference) ==> match urls::url_joined(address, reference) {
            Some(whole) => address_of(address, href) == Taken::Done(whole),
            None => address_of(address, href) is Url,
        },
{
}

/// Addresses that can all be made whole are.
pub proof fn law_whole_addresses_are_there(base: Seq<char>, records: Seq<RecordView>)
    requires
        forall|i: int|
            0 <= i < records.len() ==> urls::url_joined(base, (#[trigger] records[i]).href) is Some,
    ensures
        resolved_records(base, records) is Some,
    decreases records.len(),
{
    if records.len() > 0 {
        let shorter = records.drop_last();
        assert(urls::url_joined(base, records[records.len() - 1].href) is Some);
        assert forall|i: int| 0 <= i < shorter.len() implies urls::url_joined(
            base,
            (#[trigger] shorter[i]).href,
        ) is Some by {
            assert(shorter[i] == records[i]);
        }
        law_whole_addresses_are_there(base, shorter);
    }
}

} // verus!
