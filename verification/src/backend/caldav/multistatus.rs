//! What multistatus documents say.
use vstd::prelude::*;

use crate::backend::caldav::xml;
use crate::backend::caldav::xml::{NamespaceKind, NodeView, XmlNode};
use crate::backend::caldav::{CollectionView, DiscoveredCalendar, DiscoveredView, ParseError, RecordView, ResourceRecord, SyncCollection};
use crate::lists;
use crate::model;
use crate::text;

verus! {

// ---------------------------------------------------------------------------------------------
// Status lines
// ---------------------------------------------------------------------------------------------

/// Position of the first white space in `s`, or the length of `s`.
pub open spec fn index_of_white(s: Seq<char>) -> int
    decreases s.len(),
{
    if s.len() == 0 || text::is_white(s[0]) {
        0
    } else {
        1 + index_of_white(s.drop_first())
    }
}

/// What is left of a text from its second word on.
pub open spec fn from_second_word(s: Seq<char>) -> Seq<char> {
    let first = text::trimmed_start(s);
    text::trimmed_start(first.skip(index_of_white(first)))
}

/// The code of a status line: its second word, where that is a number of sixteen bits.
pub open spec fn status_code(status: Seq<char>) -> Option<int> {
    let rest = from_second_word(status);
    if rest.len() == 0 {
        None
    } else {
        text::parsed_number(rest.take(index_of_white(rest)), u16::MAX as int)
    }
}

/// A text without the white space before it.
fn skip_white(s: &Vec<char>) -> (r: Vec<char>)
    ensures
        r@ == text::trimmed_start(s@),
{
    let mut from: usize = 0;
    assert(s@.skip(0) =~= s@);
    while from < s.len() && text::white(s[from])
        invariant
            from <= s@.len(),
            text::trimmed_start(s@) == text::trimmed_start(s@.skip(from as int)),
        decreases s@.len() - from,
    {
        assert(s@.skip(from as int).drop_first() =~= s@.skip(from + 1));
        from += 1;
    }
    let rest = text::slice(s, from, s.len());
    assert(rest@ =~= s@.skip(from as int));
    rest
}

/// Position of the first white space, or the length.
fn find_white(s: &Vec<char>) -> (r: usize)
    ensures
        r == index_of_white(s@),
        r <= s@.len(),
{
    let mut i: usize = 0;
    assert(s@.skip(0) =~= s@);
    while i < s.len() && !text::white(s[i])
        invariant
            i <= s@.len(),
            index_of_white(s@) == i + index_of_white(s@.skip(i as int)),
        decreases s@.len() - i,
    {
        assert(s@.skip(i as int).drop_first() =~= s@.skip(i + 1));
        i += 1;
    }
    i
}

/// The code of a status line.
pub fn parse_status_code(status: &str) -> (r: Option<u16>)
    ensures
        match r {
            Some(code) => status_code(status@) == Some(code as int),
            None => status_code(status@) is None,
        },
{
    let first = skip_white(&text::chars_of(status));
    let at: usize = find_white(&first);
    let tail = text::slice(&first, at, first.len());
    assert(tail@ =~= first@.skip(at as int));
    let rest = skip_white(&tail);
    if rest.len() == 0 {
        return None;
    }
    let end: usize = find_white(&rest);
    let word = text::slice(&rest, 0, end);
    assert(word@ =~= rest@.take(end as int));
    match text::parse_number(&word, 65535) {
        Some(code) => Some(code as u16),
        None => None,
    }
}

// ---------------------------------------------------------------------------------------------
// Responses and their properties
// ---------------------------------------------------------------------------------------------

/// The values of references to elements.
pub open spec fn ref_views(nodes: Seq<&XmlNode>) -> Seq<NodeView> {
    Seq::new(nodes.len(), |i: int| xml::node_view(*nodes[i]))
}

/// Whether an element is a response.
pub open spec fn is_response() -> spec_fn(NodeView) -> bool {
    |node: NodeView| node.is_named(NamespaceKind::Dav, "response"@)
}

/// The responses of a multistatus document.
pub open spec fn responses_of(root: NodeView) -> Result<Seq<NodeView>, Seq<char>> {
    if root.is_named(NamespaceKind::Dav, "multistatus"@) {
        Ok(root.children.filter(is_response()))
    } else {
        Err("root is not DAV:multistatus"@)
    }
}

/// The values of the outcome of [`multistatus_responses`].
pub open spec fn responses_view(r: Result<Vec<&XmlNode>, ParseError>) -> Result<Seq<NodeView>, Seq<char>> {
    match r {
        Ok(nodes) => Ok(ref_views(nodes@)),
        Err(error) => Err(error@),
    }
}

/// The children of an element with a name in a namespace.
fn children_named<'a>(node: &'a XmlNode, namespace: NamespaceKind, local_name: &str) -> (r: Vec<
    &'a XmlNode,
>)
    ensures
        ref_views(r@) == xml::node_view(*node).children.filter(
            |child: NodeView| child.is_named(namespace, local_name@),
        ),
{
    let ghost all = xml::node_views(node.children@);
    let ghost wanted = |child: NodeView| child.is_named(namespace, local_name@);
    let mut out: Vec<&'a XmlNode> = Vec::new();
    proof {
        xml::lemma_node_views(node.children@);
        reveal(Seq::filter);
        assert(ref_views(out@) =~= all.take(0).filter(wanted));
    }
    for i in 0..node.children.len()
        invariant
            all == xml::node_views(node.children@),
            all.len() == node.children@.len(),
            forall|k: int|
                0 <= k < all.len() ==> #[trigger] all[k] == xml::node_view(node.children@[k]),
            wanted == |child: NodeView| child.is_named(namespace, local_name@),
            ref_views(out@) == all.take(i as int).filter(wanted),
    {
        let ghost before = out@;
        let child = &node.children[i];
        proof {
            assert(all.take(i + 1) =~= all.take(i as int).push(all[i as int]));
            crate::lines::lemma_filter_push(all.take(i as int), all[i as int], wanted);
        }
        if child.is_named(namespace, local_name) {
            out.push(child);
            assert(ref_views(out@) =~= ref_views(before).push(all[i as int]));
        }
    }
    assert(all.take(all.len() as int) =~= all);
    out
}

/// The responses of a multistatus document.
pub fn multistatus_responses(root: &XmlNode) -> (r: Result<Vec<&XmlNode>, ParseError>)
    ensures
        responses_view(r) == responses_of(root@),
{
    if !root.is_named(NamespaceKind::Dav, "multistatus") {
        return Err(xml::malformed("root is not DAV:multistatus"));
    }
    let nodes = children_named(root, NamespaceKind::Dav, "response");
    assert(root@.children.filter(is_response()) == ref_views(nodes@)) by {
        assert(is_response() =~= |child: NodeView| child.is_named(NamespaceKind::Dav, "response"@));
    }
    Ok(nodes)
}

/// The code of the status of an element, where it has one.
pub open spec fn status_of(node: NodeView) -> Option<int> {
    match node.child(NamespaceKind::Dav, "status"@) {
        Some(status) => status_code(xml::text_in(status)),
        None => None,
    }
}

/// The code of the status of an element.
fn read_status(node: &XmlNode) -> (r: Option<u16>)
    ensures
        match r {
            Some(code) => status_of(node@) == Some(code as int),
            None => status_of(node@) is None,
        },
{
    match node.child(NamespaceKind::Dav, "status") {
        Some(status) => parse_status_code(status.text_value().as_str()),
        None => None,
    }
}

/// Whether an element holds properties that were found.
pub open spec fn is_found_propstat(node: NodeView) -> bool {
    node.is_named(NamespaceKind::Dav, "propstat"@) && (status_of(node) matches Some(code) && 200 <= code
        < 300)
}

/// The properties that one part of a response holds, where they were found.
pub open spec fn found_in(node: NodeView) -> Seq<NodeView> {
    if is_found_propstat(node) {
        match node.child(NamespaceKind::Dav, "prop"@) {
            Some(prop) => prop.children,
            None => seq![],
        }
    } else {
        seq![]
    }
}

/// The properties that the parts of a response hold, where they were found.
pub open spec fn found_in_all(nodes: Seq<NodeView>) -> Seq<NodeView>
    decreases nodes.len(),
{
    if nodes.len() == 0 {
        seq![]
    } else {
        found_in_all(nodes.drop_last()) + found_in(nodes.last())
    }
}

/// The properties of a response that were found.
pub open spec fn properties_of(response: NodeView) -> Seq<NodeView> {
    found_in_all(response.children)
}

/// Put references to the children of an element at the end of a list.
fn push_children<'a>(out: &mut Vec<&'a XmlNode>, node: &'a XmlNode)
    ensures
        ref_views(final(out)@) == ref_views(old(out)@) + xml::node_view(*node).children,
{
    let ghost before = ref_views(out@);
    let ghost all = xml::node_views(node.children@);
    proof {
        xml::lemma_node_views(node.children@);
        assert(before + all.take(0) =~= before);
    }
    for i in 0..node.children.len()
        invariant
            all == xml::node_views(node.children@),
            all.len() == node.children@.len(),
            forall|k: int|
                0 <= k < all.len() ==> #[trigger] all[k] == xml::node_view(node.children@[k]),
            ref_views(out@) == before + all.take(i as int),
    {
        let ghost so_far = out@;
        out.push(&node.children[i]);
        assert(ref_views(out@) =~= ref_views(so_far).push(all[i as int]));
        assert(before + all.take(i + 1) =~= (before + all.take(i as int)).push(all[i as int]));
    }
    assert(all.take(all.len() as int) =~= all);
}

/// The properties of a response that were found.
pub fn successful_properties(response: &XmlNode) -> (r: Vec<&XmlNode>)
    ensures
        ref_views(r@) == properties_of(response@),
{
    let ghost all = xml::node_views(response.children@);
    let mut out: Vec<&XmlNode> = Vec::new();
    proof {
        xml::lemma_node_views(response.children@);
        assert(ref_views(out@) =~= found_in_all(all.take(0)));
    }
    for i in 0..response.children.len()
        invariant
            all == xml::node_views(response.children@),
            all.len() == response.children@.len(),
            forall|k: int|
                0 <= k < all.len() ==> #[trigger] all[k] == xml::node_view(response.children@[k]),
            ref_views(out@) == found_in_all(all.take(i as int)),
    {
        let part = &response.children[i];
        let ghost before = ref_views(out@);
        proof {
            assert(all.take(i + 1).drop_last() =~= all.take(i as int));
            assert(all.take(i + 1).last() == xml::node_view(*part));
            assert(before + seq![] =~= before);
        }
        if part.is_named(NamespaceKind::Dav, "propstat") {
            if let Some(code) = read_status(part) {
                if 200 <= code && code < 300 {
                    if let Some(prop) = part.child(NamespaceKind::Dav, "prop") {
                        push_children(&mut out, prop);
                    }
                }
            }
        }
    }
    assert(all.take(all.len() as int) =~= all);
    out
}

/// The address of a response: empty where it names none.
pub open spec fn href_of(response: NodeView) -> Seq<char> {
    match response.child(NamespaceKind::Dav, "href"@) {
        Some(href) => xml::text_in(href),
        None => seq![],
    }
}

/// The address of a response.
pub fn response_href(response: &XmlNode) -> (r: String)
    ensures
        r@ == href_of(response@),
{
    match response.child(NamespaceKind::Dav, "href") {
        Some(href) => href.text_value(),
        None => {
            let r = String::new();
            assert(r@ =~= seq![]);
            r
        },
    }
}

/// The text of the last property of a list with a name in a namespace.
pub open spec fn last_text(
    properties: Seq<NodeView>,
    namespace: NamespaceKind,
    local_name: Seq<char>,
) -> Option<Seq<char>>
    decreases properties.len(),
{
    if properties.len() == 0 {
        None
    } else if properties.last().is_named(namespace, local_name) {
        Some(xml::text_in(properties.last()))
    } else {
        last_text(properties.drop_last(), namespace, local_name)
    }
}

/// The text of the last property of a list with a name in a namespace.
fn find_last_text(properties: &Vec<&XmlNode>, namespace: NamespaceKind, local_name: &str) -> (r: Option<
    String,
>)
    ensures
        model::text_view(r) == last_text(ref_views(properties@), namespace, local_name@),
{
    let ghost all = ref_views(properties@);
    let mut i: usize = properties.len();
    assert(all.take(all.len() as int) =~= all);
    while i > 0
        invariant
            i <= properties@.len(),
            all == ref_views(properties@),
            last_text(all, namespace, local_name@) == last_text(
                all.take(i as int),
                namespace,
                local_name@,
            ),
        decreases i,
    {
        i -= 1;
        assert(all.take(i + 1).last() == xml::node_view(*properties@[i as int]));
        assert(all.take(i + 1).drop_last() =~= all.take(i as int));
        if properties[i].is_named(namespace, local_name) {
            return Some(properties[i].text_value());
        }
    }
    None
}

/// What a response says of a resource.
pub open spec fn record_of(response: NodeView) -> RecordView {
    RecordView {
        href: href_of(response),
        response_status: match status_of(response) {
            Some(code) => Some(code as u16),
            None => None,
        },
        etag: last_text(properties_of(response), NamespaceKind::Dav, "getetag"@),
        calendar_data: last_text(properties_of(response), NamespaceKind::Caldav, "calendar-data"@),
    }
}

/// What a response says of a resource.
pub fn resource_record(response: &XmlNode) -> (r: ResourceRecord)
    ensures
        r@ == record_of(response@),
{
    let properties = successful_properties(response);
    ResourceRecord {
        href: response_href(response),
        response_status: read_status(response),
        etag: find_last_text(&properties, NamespaceKind::Dav, "getetag"),
        calendar_data: find_last_text(&properties, NamespaceKind::Caldav, "calendar-data"),
    }
}

/// What each response of a list says of a resource.
pub open spec fn records_of(responses: Seq<NodeView>) -> Seq<RecordView> {
    Seq::new(responses.len(), |i: int| record_of(responses[i]))
}

/// What each response of a list says of a resource.
fn read_records(responses: &Vec<&XmlNode>) -> (r: Vec<ResourceRecord>)
    ensures
        lists::views_of(r@) == records_of(ref_views(responses@)),
{
    let mut out: Vec<ResourceRecord> = Vec::new();
    for i in 0..responses.len()
        invariant
            out@.len() == i,
            forall|k: int|
                0 <= k < i ==> (#[trigger] out@[k])@ == record_of(xml::node_view(*responses@[k])),
    {
        out.push(resource_record(responses[i]));
    }
    assert(lists::views_of(out@) =~= records_of(ref_views(responses@)));
    out
}

// ---------------------------------------------------------------------------------------------
// Whole documents
// ---------------------------------------------------------------------------------------------

/// The responses of a document that was read, or why there are none.
pub open spec fn responses_in(root: Result<NodeView, Seq<char>>) -> Result<Seq<NodeView>, Seq<char>> {
    match root {
        Ok(root) => responses_of(root),
        Err(message) => Err(message),
    }
}

/// What a list of resources says, by the tree of its document.
pub open spec fn multistatus_of(root: Result<NodeView, Seq<char>>) -> Result<Seq<RecordView>, Seq<char>> {
    match responses_in(root) {
        Ok(responses) => Ok(records_of(responses)),
        Err(message) => Err(message),
    }
}

/// The values of a list of resources, or why there is none.
pub open spec fn records_view(r: Result<Vec<ResourceRecord>, ParseError>) -> Result<
    Seq<RecordView>,
    Seq<char>,
> {
    match r {
        Ok(records) => Ok(lists::views_of(records@)),
        Err(error) => Err(error@),
    }
}

/// The resources that the tree of a document describes.
pub fn multistatus_from_tree(root: &XmlNode) -> (r: Result<Vec<ResourceRecord>, ParseError>)
    ensures
        records_view(r) == multistatus_of(Ok(root@)),
{
    match multistatus_responses(root) {
        Ok(responses) => Ok(read_records(&responses)),
        Err(error) => Err(error),
    }
}

/// The resources that a document describes.
pub fn parse_multistatus(document: &str) -> (r: Result<Vec<ResourceRecord>, ParseError>)
    ensures
        records_view(r) == multistatus_of(xml::parsed(document@)),
{
    match xml::parse_xml(document) {
        Ok(root) => multistatus_from_tree(&root),
        Err(error) => Err(error),
    }
}

/// Whether an element is a sync token.
pub open spec fn is_sync_token() -> spec_fn(NodeView) -> bool {
    |child: NodeView| child.is_named(NamespaceKind::Dav, "sync-token"@)
}

/// What a list of changes says, by the tree of its document: the root must hold one token, which is
/// not blank.
pub open spec fn collection_of(root: Result<NodeView, Seq<char>>) -> Result<CollectionView, Seq<char>> {
    match responses_in(root) {
        Ok(responses) => {
            let tokens = (root->Ok_0).children.filter(is_sync_token());
            if tokens.len() == 0 {
                Err("missing root DAV:sync-token"@)
            } else if tokens.len() > 1 {
                Err("multiple root DAV:sync-token elements"@)
            } else if text::trimmed(xml::text_in(tokens[0])).len() == 0 {
                Err("empty root DAV:sync-token"@)
            } else {
                Ok(
                    CollectionView {
                        sync_token: xml::text_in(tokens[0]),
                        changes: records_of(responses),
                    },
                )
            }
        },
        Err(message) => Err(message),
    }
}

/// The values of a list of changes, or why there is none.
pub open spec fn collection_view(r: Result<SyncCollection, ParseError>) -> Result<
    CollectionView,
    Seq<char>,
> {
    match r {
        Ok(collection) => Ok(collection@),
        Err(error) => Err(error@),
    }
}

/// The changes that the tree of a document describes.
pub fn sync_collection_from_tree(root: &XmlNode) -> (r: Result<SyncCollection, ParseError>)
    ensures
        collection_view(r) == collection_of(Ok(root@)),
{
    let responses = match multistatus_responses(root) {
        Ok(responses) => responses,
        Err(error) => {
            return Err(error);
        },
    };
    let tokens = children_named(root, NamespaceKind::Dav, "sync-token");
    assert(is_sync_token() =~= |child: NodeView| child.is_named(NamespaceKind::Dav, "sync-token"@));
    assert(ref_views(tokens@) == root@.children.filter(is_sync_token()));
    if tokens.len() == 0 {
        return Err(xml::malformed("missing root DAV:sync-token"));
    }
    let sync_token = tokens[0].text_value();
    assert(ref_views(tokens@)[0] == xml::node_view(*tokens@[0]));
    if tokens.len() > 1 {
        return Err(xml::malformed("multiple root DAV:sync-token elements"));
    }
    let trimmed = text::trim_chars(&text::chars_of(sync_token.as_str()));
    if trimmed.len() == 0 {
        return Err(xml::malformed("empty root DAV:sync-token"));
    }
    Ok(SyncCollection { sync_token, changes: read_records(&responses) })
}

/// The changes that a document describes.
pub fn parse_sync_collection(document: &str) -> (r: Result<SyncCollection, ParseError>)
    ensures
        collection_view(r) == collection_of(xml::parsed(document@)),
{
    match xml::parse_xml(document) {
        Ok(root) => sync_collection_from_tree(&root),
        Err(error) => Err(error),
    }
}

/// The address in the first property of a list that has a name in a namespace and holds an address.
pub open spec fn first_href(
    properties: Seq<NodeView>,
    namespace: NamespaceKind,
    local_name: Seq<char>,
) -> Option<Seq<char>>
    decreases properties.len(),
{
    if properties.len() == 0 {
        None
    } else if properties[0].is_named(namespace, local_name) && properties[0].child(
        NamespaceKind::Dav,
        "href"@,
    ) is Some {
        Some(xml::text_in(properties[0].child(NamespaceKind::Dav, "href"@)->0))
    } else {
        first_href(properties.drop_first(), namespace, local_name)
    }
}

/// The address in the first property of any response that has a name in a namespace and holds an
/// address.
pub open spec fn first_href_in(
    responses: Seq<NodeView>,
    namespace: NamespaceKind,
    local_name: Seq<char>,
) -> Option<Seq<char>>
    decreases responses.len(),
{
    if responses.len() == 0 {
        None
    } else {
        match first_href(properties_of(responses[0]), namespace, local_name) {
            Some(href) => Some(href),
            None => first_href_in(responses.drop_first(), namespace, local_name),
        }
    }
}

/// The address in a property of an account, by the tree of the document: the first that is there,
/// which must not be empty.
pub open spec fn property_href(
    root: Result<NodeView, Seq<char>>,
    namespace: NamespaceKind,
    local_name: Seq<char>,
    missing: Seq<char>,
) -> Result<Seq<char>, Seq<char>> {
    match responses_in(root) {
        Ok(responses) => match first_href_in(responses, namespace, local_name) {
            Some(href) => if href.len() == 0 {
                Err(missing)
            } else {
                Ok(href)
            },
            None => Err(missing),
        },
        Err(message) => Err(message),
    }
}

/// The values of an address, or why there is none.
pub open spec fn href_view(r: Result<String, ParseError>) -> Result<Seq<char>, Seq<char>> {
    match r {
        Ok(href) => Ok(href@),
        Err(error) => Err(error@),
    }
}

/// The address in the first property of a list that has a name in a namespace and holds an address.
fn find_href(properties: &Vec<&XmlNode>, namespace: NamespaceKind, local_name: &str) -> (r: Option<
    String,
>)
    ensures
        model::text_view(r) == first_href(ref_views(properties@), namespace, local_name@),
{
    let ghost all = ref_views(properties@);
    assert(all.skip(0) =~= all);
    for i in 0..properties.len()
        invariant
            all == ref_views(properties@),
            first_href(all, namespace, local_name@) == first_href(
                all.skip(i as int),
                namespace,
                local_name@,
            ),
    {
        assert(all.skip(i as int)[0] == xml::node_view(*properties@[i as int]));
        assert(all.skip(i as int).drop_first() =~= all.skip(i + 1));
        if properties[i].is_named(namespace, local_name) {
            if let Some(href) = properties[i].child(NamespaceKind::Dav, "href") {
                return Some(href.text_value());
            }
        }
    }
    None
}

/// The address in a property of an account, from the tree of a document.
pub fn href_from_tree(root: &XmlNode, namespace: NamespaceKind, local_name: &str, missing: &str) -> (r:
    Result<String, ParseError>)
    ensures
        href_view(r) == property_href(Ok(root@), namespace, local_name@, missing@),
{
    let responses = match multistatus_responses(root) {
        Ok(responses) => responses,
        Err(error) => {
            return Err(error);
        },
    };
    let ghost all = ref_views(responses@);
    assert(all.skip(0) =~= all);
    for i in 0..responses.len()
        invariant
            all == ref_views(responses@),
            responses_of(root@) == Ok::<Seq<NodeView>, Seq<char>>(all),
            first_href_in(all, namespace, local_name@) == first_href_in(
                all.skip(i as int),
                namespace,
                local_name@,
            ),
    {
        assert(all.skip(i as int)[0] == xml::node_view(*responses@[i as int]));
        assert(all.skip(i as int).drop_first() =~= all.skip(i + 1));
        let properties = successful_properties(responses[i]);
        if let Some(href) = find_href(&properties, namespace, local_name) {
            if text::chars_of(href.as_str()).len() == 0 {
                return Err(xml::malformed(missing));
            }
            return Ok(href);
        }
    }
    Err(xml::malformed(missing))
}

/// The address of the principal that a document names.
pub fn parse_current_user_principal(document: &str) -> (r: Result<String, ParseError>)
    ensures
        href_view(r) == property_href(
            xml::parsed(document@),
            NamespaceKind::Dav,
            "current-user-principal"@,
            "missing current-user-principal href"@,
        ),
{
    match xml::parse_xml(document) {
        Ok(root) => href_from_tree(
            &root,
            NamespaceKind::Dav,
            "current-user-principal",
            "missing current-user-principal href",
        ),
        Err(error) => Err(error),
    }
}

/// The address of the calendar home that a document names.
pub fn parse_calendar_home_set(document: &str) -> (r: Result<String, ParseError>)
    ensures
        href_view(r) == property_href(
            xml::parsed(document@),
            NamespaceKind::Caldav,
            "calendar-home-set"@,
            "missing calendar-home-set href"@,
        ),
{
    match xml::parse_xml(document) {
        Ok(root) => href_from_tree(
            &root,
            NamespaceKind::Caldav,
            "calendar-home-set",
            "missing calendar-home-set href",
        ),
        Err(error) => Err(error),
    }
}

// ---------------------------------------------------------------------------------------------
// Calendars that a server offers
// ---------------------------------------------------------------------------------------------

/// Whether an element grants writing, itself or through an element in it.
pub open spec fn grants_writing(node: NodeView) -> bool
    decreases node,
{
    node.is_named(NamespaceKind::Dav, "write"@) || node.is_named(
        NamespaceKind::Dav,
        "write-content"@,
    ) || node.is_named(NamespaceKind::Dav, "all"@) || any_grants_writing(node.children)
}

/// Whether an element of a list grants writing.
pub open spec fn any_grants_writing(nodes: Seq<NodeView>) -> bool
    decreases nodes,
{
    nodes.len() > 0 && (any_grants_writing(nodes.drop_last()) || grants_writing(nodes.last()))
}

/// Whether a set of privileges grants writing.
pub fn has_write_privilege(property: &XmlNode) -> (r: bool)
    ensures
        r == any_grants_writing(property@.children),
    decreases property,
{
    proof {
        xml::lemma_node_views(property.children@);
        let all = xml::node_views(property.children@);
        assert(all.take(all.len() as int) =~= all);
    }
    some_grants_writing(&property.children, property.children.len())
}

/// Whether one of the first `n` elements of a list grants writing.
fn some_grants_writing(nodes: &Vec<XmlNode>, n: usize) -> (r: bool)
    requires
        n <= nodes@.len(),
    ensures
        r == any_grants_writing(xml::node_views(nodes@).take(n as int)),
    decreases nodes, n,
{
    proof {
        xml::lemma_node_views(nodes@);
    }
    if n == 0 {
        return false;
    }
    let child = &nodes[n - 1];
    proof {
        let first = xml::node_views(nodes@).take(n as int);
        assert(first.drop_last() =~= xml::node_views(nodes@).take(n - 1));
        assert(first.last() == xml::node_view(*child));
        reveal_with_fuel(grants_writing, 2);
        reveal_with_fuel(any_grants_writing, 2);
        assert(any_grants_writing(first) == (any_grants_writing(first.drop_last())
            || grants_writing(first.last())));
    }
    if child.is_named(NamespaceKind::Dav, "write") || child.is_named(
        NamespaceKind::Dav,
        "write-content",
    ) || child.is_named(NamespaceKind::Dav, "all") {
        return true;
    }
    has_write_privilege(child) || some_grants_writing(nodes, n - 1)
}

/// Whether a property says that the resource is a calendar.
pub open spec fn says_calendar(property: NodeView) -> bool {
    property.is_named(NamespaceKind::Dav, "resourcetype"@) && exists|i: int|
        0 <= i < property.children.len() && (#[trigger] property.children[i]).is_named(
            NamespaceKind::Caldav,
            "calendar"@,
        )
}

/// Whether a property says which components the calendar holds.
pub open spec fn says_components(property: NodeView) -> bool {
    property.is_named(NamespaceKind::Caldav, "supported-calendar-component-set"@)
}

/// Whether an element stands for events.
pub open spec fn is_event_component(node: NodeView) -> bool {
    node.is_named(NamespaceKind::Caldav, "comp"@) && node.attribute("name"@) == Some("VEVENT"@)
}

/// Whether a property says that the calendar holds events.
pub open spec fn says_events(property: NodeView) -> bool {
    says_components(property) && exists|i: int|
        0 <= i < property.children.len() && is_event_component(#[trigger] property.children[i])
}

/// Whether a property says that the calendar can be written to.
pub open spec fn says_writable(property: NodeView) -> bool {
    property.is_named(NamespaceKind::Dav, "current-user-privilege-set"@) && any_grants_writing(
        property.children,
    )
}

/// The calendar that a response offers, where it offers one that can hold events. A response that
/// does not say which components it holds can hold any.
pub open spec fn offered_calendar(response: NodeView) -> Option<DiscoveredView> {
    let properties = properties_of(response);
    if (exists|i: int| 0 <= i < properties.len() && says_calendar(#[trigger] properties[i])) && ((
    exists|i: int| 0 <= i < properties.len() && says_components(#[trigger] properties[i])) ==> (
    exists|i: int| 0 <= i < properties.len() && says_events(#[trigger] properties[i]))) {
        Some(
            DiscoveredView {
                href: href_of(response),
                display_name: last_text(properties, NamespaceKind::Dav, "displayname"@),
                sync_token: last_text(properties, NamespaceKind::Dav, "sync-token"@),
                color: last_text(properties, NamespaceKind::AppleIcal, "calendar-color"@),
                writable: exists|i: int|
                    0 <= i < properties.len() && says_writable(#[trigger] properties[i]),
            },
        )
    } else {
        None
    }
}

/// Whether a child of an element has a name in a namespace.
fn has_child_named(node: &XmlNode, namespace: NamespaceKind, local_name: &str) -> (r: bool)
    ensures
        r == exists|i: int|
            0 <= i < node@.children.len() && (#[trigger] node@.children[i]).is_named(
                namespace,
                local_name@,
            ),
{
    let ghost all = xml::node_views(node.children@);
    proof {
        xml::lemma_node_views(node.children@);
    }
    for i in 0..node.children.len()
        invariant
            all == xml::node_views(node.children@),
            node@.children == all,
            all.len() == node.children@.len(),
            forall|k: int|
                0 <= k < all.len() ==> #[trigger] all[k] == xml::node_view(node.children@[k]),
            forall|k: int| 0 <= k < i ==> !(#[trigger] all[k]).is_named(namespace, local_name@),
    {
        assert(all[i as int] == xml::node_view(node.children@[i as int]));
        if node.children[i].is_named(namespace, local_name) {
            return true;
        }
    }
    false
}

/// Whether a child of an element stands for events.
fn has_event_component(node: &XmlNode) -> (r: bool)
    ensures
        r == exists|i: int|
            0 <= i < node@.children.len() && is_event_component(#[trigger] node@.children[i]),
{
    let ghost all = xml::node_views(node.children@);
    proof {
        xml::lemma_node_views(node.children@);
    }
    for i in 0..node.children.len()
        invariant
            all == xml::node_views(node.children@),
            node@.children == all,
            all.len() == node.children@.len(),
            forall|k: int|
                0 <= k < all.len() ==> #[trigger] all[k] == xml::node_view(node.children@[k]),
            forall|k: int| 0 <= k < i ==> !is_event_component(#[trigger] all[k]),
    {
        assert(all[i as int] == xml::node_view(node.children@[i as int]));
        if node.children[i].is_named(NamespaceKind::Caldav, "comp") {
            if let Some(name) = node.children[i].attribute("name") {
                if text::same_text(name.as_str(), "VEVENT") {
                    return true;
                }
            }
        }
    }
    false
}

/// The values of an optional calendar that a server offers.
pub open spec fn offer_view(r: Option<DiscoveredCalendar>) -> Option<DiscoveredView> {
    match r {
        Some(calendar) => Some(calendar@),
        None => None,
    }
}

/// The calendar that a response offers.
pub fn discovered_calendar(response: &XmlNode) -> (r: Option<DiscoveredCalendar>)
    ensures
        offer_view(r) == offered_calendar(response@),
{
    let properties = successful_properties(response);
    let ghost all = ref_views(properties@);
    let mut is_calendar = false;
    let mut names_components = false;
    let mut supports_events = false;
    let mut writable = false;
    for i in 0..properties.len()
        invariant
            all == ref_views(properties@),
            is_calendar == exists|k: int| 0 <= k < i && says_calendar(#[trigger] all[k]),
            names_components == exists|k: int| 0 <= k < i && says_components(#[trigger] all[k]),
            supports_events == exists|k: int| 0 <= k < i && says_events(#[trigger] all[k]),
            writable == exists|k: int| 0 <= k < i && says_writable(#[trigger] all[k]),
    {
        let property = properties[i];
        assert(all[i as int] == xml::node_view(*property));
        let calendar_here = property.is_named(NamespaceKind::Dav, "resourcetype") && has_child_named(
            property,
            NamespaceKind::Caldav,
            "calendar",
        );
        let components_here = property.is_named(
            NamespaceKind::Caldav,
            "supported-calendar-component-set",
        );
        let events_here = components_here && has_event_component(property);
        let writable_here = property.is_named(NamespaceKind::Dav, "current-user-privilege-set")
            && has_write_privilege(property);
        proof {
            lemma_one_more(all, i as int, |node: NodeView| says_calendar(node));
            lemma_one_more(all, i as int, |node: NodeView| says_components(node));
            lemma_one_more(all, i as int, |node: NodeView| says_events(node));
            lemma_one_more(all, i as int, |node: NodeView| says_writable(node));
            assert(calendar_here == says_calendar(all[i as int]));
            assert(components_here == says_components(all[i as int]));
            assert(events_here == says_events(all[i as int]));
            assert(writable_here == says_writable(all[i as int]));
        }
        if calendar_here {
            is_calendar = true;
        }
        if components_here {
            names_components = true;
        }
        if events_here {
            supports_events = true;
        }
        if writable_here {
            writable = true;
        }
    }
    if is_calendar && (!names_components || supports_events) {
        Some(
            DiscoveredCalendar {
                href: response_href(response),
                display_name: find_last_text(&properties, NamespaceKind::Dav, "displayname"),
                sync_token: find_last_text(&properties, NamespaceKind::Dav, "sync-token"),
                color: find_last_text(&properties, NamespaceKind::AppleIcal, "calendar-color"),
                writable,
            },
        )
    } else {
        None
    }
}

/// Whether something holds of one of the first `i + 1` elements of a list.
proof fn lemma_one_more(all: Seq<NodeView>, i: int, says: spec_fn(NodeView) -> bool)
    requires
        0 <= i < all.len(),
    ensures
        (exists|k: int| 0 <= k < i + 1 && says(#[trigger] all[k])) == ((exists|k: int|
            0 <= k < i && says(#[trigger] all[k])) || says(all[i])),
{
    if says(all[i]) {
        assert(0 <= i < i + 1 && says(all[i]));
    }
}

/// The calendars that responses offer.
pub open spec fn offered_calendars(responses: Seq<NodeView>) -> Seq<DiscoveredView>
    decreases responses.len(),
{
    if responses.len() == 0 {
        seq![]
    } else {
        let before = offered_calendars(responses.drop_last());
        match offered_calendar(responses.last()) {
            Some(calendar) => before.push(calendar),
            None => before,
        }
    }
}

/// What a list of calendars says, by the tree of its document.
pub open spec fn calendars_of(root: Result<NodeView, Seq<char>>) -> Result<
    Seq<DiscoveredView>,
    Seq<char>,
> {
    match responses_in(root) {
        Ok(responses) => Ok(offered_calendars(responses)),
        Err(message) => Err(message),
    }
}

/// The values of a list of calendars, or why there is none.
pub open spec fn calendars_view(r: Result<Vec<DiscoveredCalendar>, ParseError>) -> Result<
    Seq<DiscoveredView>,
    Seq<char>,
> {
    match r {
        Ok(calendars) => Ok(lists::views_of(calendars@)),
        Err(error) => Err(error@),
    }
}

/// The calendars that the tree of a document offers.
pub fn calendars_from_tree(root: &XmlNode) -> (r: Result<Vec<DiscoveredCalendar>, ParseError>)
    ensures
        calendars_view(r) == calendars_of(Ok(root@)),
{
    let responses = match multistatus_responses(root) {
        Ok(responses) => responses,
        Err(error) => {
            return Err(error);
        },
    };
    let ghost all = ref_views(responses@);
    let mut calendars: Vec<DiscoveredCalendar> = Vec::new();
    assert(lists::views_of(calendars@) =~= offered_calendars(all.take(0)));
    for i in 0..responses.len()
        invariant
            all == ref_views(responses@),
            lists::views_of(calendars@) == offered_calendars(all.take(i as int)),
    {
        assert(all.take(i + 1).drop_last() =~= all.take(i as int));
        assert(all.take(i + 1).last() == xml::node_view(*responses@[i as int]));
        if let Some(calendar) = discovered_calendar(responses[i]) {
            proof {
                lists::lemma_views_push(calendars@, calendar);
            }
            calendars.push(calendar);
        }
    }
    assert(all.take(all.len() as int) =~= all);
    Ok(calendars)
}

/// The calendars that a document offers.
pub fn parse_calendar_home_multistatus(document: &str) -> (r: Result<
    Vec<DiscoveredCalendar>,
    ParseError,
>)
    ensures
        calendars_view(r) == calendars_of(xml::parsed(document@)),
{
    match xml::parse_xml(document) {
        Ok(root) => calendars_from_tree(&root),
        Err(error) => Err(error),
    }
}

// ---------------------------------------------------------------------------------------------
// Laws of answers
// ---------------------------------------------------------------------------------------------

/// The status of an answer is the number in the second word of its status line, whatever follows.
pub proof fn law_status_is_the_second_word(version: Seq<char>, digits: Seq<char>, rest: Seq<char>)
    requires
        version.len() > 0,
        forall|i: int| 0 <= i < version.len() ==> !text::is_white(#[trigger] version[i]),
        text::is_number(digits),
        rest.len() == 0 || text::is_white(rest[0]),
    ensures
        text::number_value(digits) <= 65535 ==> status_code(version + seq![' '] + digits + rest) == Some(
            text::number_value(digits),
        ),
        text::number_value(digits) > 65535 ==> status_code(version + seq![' '] + digits + rest) is None,
        status_code(version) is None,
{
    let line = version + seq![' '] + digits + rest;
    assert(line[0] == version[0]);
    assert(text::trimmed_start(line) == line);
    lemma_index_of_white(line, version.len() as int);
    let after = line.skip(version.len() as int);
    assert(after =~= seq![' '] + digits + rest);
    assert(after[0] == ' ' && text::is_white(' '));
    assert(after.drop_first() =~= digits + rest);
    let tail = digits + rest;
    assert(tail[0] == digits[0]);
    assert(text::is_digit(digits[0]));
    assert(text::trimmed_start(tail) == tail);
    assert(text::trimmed_start(after) == tail);
    assert forall|i: int| 0 <= i < digits.len() implies !text::is_white(#[trigger] tail[i]) by {
        assert(tail[i] == digits[i]);
        assert(text::is_digit(digits[i]));
    }
    if rest.len() > 0 {
        assert(tail[digits.len() as int] == rest[0]);
    }
    lemma_index_of_white(tail, digits.len() as int);
    assert(tail.take(digits.len() as int) =~= digits);
    assert(digits[0] != '+');
    assert(text::trimmed_start(version) == version);
    lemma_index_of_white(version, version.len() as int);
    assert(version.skip(version.len() as int) =~= seq![]);
}

proof fn lemma_index_of_white(s: Seq<char>, at: int)
    requires
        0 <= at <= s.len(),
        forall|i: int| 0 <= i < at ==> !text::is_white(#[trigger] s[i]),
        at < s.len() ==> text::is_white(s[at]),
    ensures
        index_of_white(s) == at,
    decreases s.len(),
{
    if at > 0 {
        let rest = s.drop_first();
        assert(!text::is_white(s[0]));
        assert forall|i: int| 0 <= i < at - 1 implies !text::is_white(#[trigger] rest[i]) by {
            assert(rest[i] == s[i + 1]);
        }
        lemma_index_of_white(rest, at - 1);
    }
}

/// Only what was found counts: the properties of an answer are those in its parts with a status from
/// 200 to 299.
pub proof fn law_found_properties(node: NodeView)
    ensures
        found_in(node).len() > 0 ==> node.namespace == NamespaceKind::Dav && node.local_name
            == "propstat"@ && (status_of(node) matches Some(code) && 200 <= code <= 299),
        node.namespace == NamespaceKind::Dav && node.local_name == "propstat"@ ==> (status_of(node) matches Some(
            code,
        ) ==> 200 <= code <= 299 ==> (node.child(NamespaceKind::Dav, "prop"@) matches Some(prop)
            ==> found_in(node) == prop.children)),
{
}

/// The text of a property is that of the last one with its name, and there is none exactly where no
/// property has the name.
pub proof fn law_text_of_a_property(
    properties: Seq<NodeView>,
    namespace: NamespaceKind,
    local_name: Seq<char>,
)
    ensures
        last_text(properties, namespace, local_name) matches Some(found) ==> exists|i: int|
            0 <= i < properties.len() && (#[trigger] properties[i]).namespace == namespace
                && properties[i].local_name == local_name && found == xml::text_in(properties[i])
                && forall|k: int|
                i < k < properties.len() ==> !((#[trigger] properties[k]).namespace == namespace
                    && properties[k].local_name == local_name),
        last_text(properties, namespace, local_name) is None ==> forall|k: int|
            0 <= k < properties.len() ==> !((#[trigger] properties[k]).namespace == namespace
                && properties[k].local_name == local_name),
    decreases properties.len(),
{
    if properties.len() > 0 {
        let before = properties.drop_last();
        let last = properties.len() - 1;
        law_text_of_a_property(before, namespace, local_name);
        if properties.last().is_named(namespace, local_name) {
            assert(properties[last].local_name == local_name);
        } else if let Some(found) = last_text(before, namespace, local_name) {
            let i = choose|i: int|
                0 <= i < before.len() && (#[trigger] before[i]).namespace == namespace
                    && before[i].local_name == local_name && found == xml::text_in(before[i])
                    && forall|k: int|
                    i < k < before.len() ==> !((#[trigger] before[k]).namespace == namespace
                        && before[k].local_name == local_name);
            assert(properties[i] == before[i]);
            assert forall|k: int| i < k < properties.len() implies !((
            #[trigger] properties[k]).namespace == namespace && properties[k].local_name
                == local_name) by {
                if k < last {
                    assert(before[k] == properties[k]);
                }
            }
        } else {
            assert forall|k: int| 0 <= k < properties.len() implies !((
            #[trigger] properties[k]).namespace == namespace && properties[k].local_name
                == local_name) by {
                if k < last {
                    assert(before[k] == properties[k]);
                }
            }
        }
    }
}

/// What is read of a resource: its address and its own status, and of what was found its version and
/// its calendar data.
pub proof fn law_what_is_read_of_a_resource(response: NodeView)
    ensures
        record_of(response).href == match response.child(NamespaceKind::Dav, "href"@) {
            Some(href) => xml::text_in(href),
            None => Seq::<char>::empty(),
        },
        match response.child(NamespaceKind::Dav, "status"@) {
            None => record_of(response).response_status is None,
            Some(status) => match status_code(xml::text_in(status)) {
                None => record_of(response).response_status is None,
                Some(code) => 0 <= code <= 65535 ==> (record_of(response).response_status matches Some(
                    found,
                ) && found == code),
            },
        },
        record_of(response).etag == last_text(
            properties_of(response),
            NamespaceKind::Dav,
            "getetag"@,
        ),
        record_of(response).calendar_data == last_text(
            properties_of(response),
            NamespaceKind::Caldav,
            "calendar-data"@,
        ),
{
}

/// Answers are read only under a root of their kind, each answer as one resource and in order.
pub proof fn law_answers_under_their_root(root: NodeView, i: int)
    ensures
        !(root.namespace == NamespaceKind::Dav && root.local_name == "multistatus"@) ==> multistatus_of(
            Ok(root),
        ) is Err && collection_of(Ok(root)) is Err && calendars_of(Ok(root)) is Err,
        root.namespace == NamespaceKind::Dav && root.local_name == "multistatus"@ ==> {
            let answers = root.children.filter(
                |node: NodeView| node.namespace == NamespaceKind::Dav && node.local_name == "response"@,
            );
            &&& multistatus_of(Ok(root)) matches Ok(records)
            &&& records.len() == answers.len()
            &&& 0 <= i < answers.len() ==> records[i] == record_of(answers[i])
        },
{
    assert(is_response() =~= (|node: NodeView|
        node.namespace == NamespaceKind::Dav && node.local_name == "response"@));
}

/// A list of changes has exactly one token that is not blank; with none, several or a blank one it is
/// refused. The changes are the answers.
pub proof fn law_changes_have_one_token(root: NodeView)
    requires
        root.namespace == NamespaceKind::Dav,
        root.local_name == "multistatus"@,
    ensures
        ({
            let tokens = root.children.filter(
                |node: NodeView| node.namespace == NamespaceKind::Dav && node.local_name
                    == "sync-token"@,
            );
            &&& collection_of(Ok(root)) is Ok <==> tokens.len() == 1 && text::trimmed(
                xml::text_in(tokens[0]),
            ).len() > 0
            &&& collection_of(Ok(root)) matches Ok(found) ==> found.sync_token == xml::text_in(tokens[0])
                && multistatus_of(Ok(root)) == Ok::<Seq<RecordView>, Seq<char>>(found.changes)
        }),
{
    assert(is_sync_token() =~= (|node: NodeView|
        node.namespace == NamespaceKind::Dav && node.local_name == "sync-token"@));
}

/// A calendar is offered where its kind says so and it holds events, or does not say what it holds. It
/// is offered with its address, name, token and colour, and as writable where the user is granted
/// writing.
pub proof fn law_calendars_that_are_offered(response: NodeView)
    ensures
        ({
            let properties = properties_of(response);
            &&& offered_calendar(response) is Some ==> exists|i: int|
                0 <= i < properties.len() && (#[trigger] properties[i]).namespace == NamespaceKind::Dav
                    && properties[i].local_name == "resourcetype"@ && exists|k: int|
                    0 <= k < properties[i].children.len() && (
                    #[trigger] properties[i].children[k]).namespace == NamespaceKind::Caldav
                        && properties[i].children[k].local_name == "calendar"@
            &&& offered_calendar(response) matches Some(offer) ==> offer.href == href_of(response)
                && offer.display_name == last_text(properties, NamespaceKind::Dav, "displayname"@)
                && offer.sync_token == last_text(properties, NamespaceKind::Dav, "sync-token"@)
                && offer.color == last_text(properties, NamespaceKind::AppleIcal, "calendar-color"@)
            &&& offered_calendar(response) matches Some(offer) ==> offer.writable ==> exists|i: int|
                0 <= i < properties.len() && (#[trigger] properties[i]).namespace == NamespaceKind::Dav
                    && properties[i].local_name == "current-user-privilege-set"@
            &&& (exists|i: int|
                0 <= i < properties.len() && says_components(#[trigger] properties[i])) && (forall|
                i: int,
            |
                0 <= i < properties.len() ==> !says_events(#[trigger] properties[i]))
                ==> offered_calendar(response) is None
            &&& (exists|i: int| 0 <= i < properties.len() && says_calendar(#[trigger] properties[i])) && (
            forall|i: int| 0 <= i < properties.len() ==> !says_components(#[trigger] properties[i]))
                ==> offered_calendar(response) is Some
        }),
{
    let properties = properties_of(response);
    if offered_calendar(response) is Some {
        let i = choose|i: int| 0 <= i < properties.len() && says_calendar(#[trigger] properties[i]);
        assert(properties[i].local_name == "resourcetype"@);
    }
}

/// Writing is granted by the privileges to write, to write content, and to do all, wherever they stand
/// in what is granted.
pub proof fn law_privileges_that_grant_writing(node: NodeView, nodes: Seq<NodeView>, i: int)
    requires
        0 <= i < nodes.len(),
    ensures
        node.namespace == NamespaceKind::Dav && (node.local_name == "write"@ || node.local_name
            == "write-content"@ || node.local_name == "all"@) ==> grants_writing(node),
        grants_writing(nodes[i]) ==> any_grants_writing(nodes),
        node.children.len() == 0 && !(node.namespace == NamespaceKind::Dav && (node.local_name
            == "write"@ || node.local_name == "write-content"@ || node.local_name == "all"@))
            ==> !grants_writing(node),
        any_grants_writing(node.children) ==> grants_writing(node),
        !any_grants_writing(Seq::<NodeView>::empty()),
    decreases nodes.len(),
{
    if i < nodes.len() - 1 {
        assert(nodes.drop_last()[i] == nodes[i]);
        law_privileges_that_grant_writing(node, nodes.drop_last(), i);
    }
    reveal_with_fuel(any_grants_writing, 2);
}

/// The address in a property is that of the first property of the name that holds one.
pub proof fn law_first_address_in_properties(
    properties: Seq<NodeView>,
    namespace: NamespaceKind,
    local_name: Seq<char>,
    i: int,
)
    requires
        0 <= i < properties.len(),
        properties[i].namespace == namespace,
        properties[i].local_name == local_name,
        properties[i].child(NamespaceKind::Dav, "href"@) is Some,
        forall|k: int|
            0 <= k < i ==> (#[trigger] properties[k]).namespace != namespace || properties[k].local_name
                != local_name || properties[k].child(NamespaceKind::Dav, "href"@) is None,
    ensures
        first_href(properties, namespace, local_name) == Some(
            xml::text_in(properties[i].child(NamespaceKind::Dav, "href"@)->0),
        ),
    decreases properties.len(),
{
    if i > 0 {
        let rest = properties.drop_first();
        assert(properties[0].namespace != namespace || properties[0].local_name != local_name
            || properties[0].child(NamespaceKind::Dav, "href"@) is None);
        assert(rest[i - 1] == properties[i]);
        assert forall|k: int| 0 <= k < i - 1 implies (#[trigger] rest[k]).namespace != namespace
            || rest[k].local_name != local_name || rest[k].child(NamespaceKind::Dav, "href"@) is None by {
            assert(rest[k] == properties[k + 1]);
        }
        law_first_address_in_properties(rest, namespace, local_name, i - 1);
    }
}

/// There is no address where no property of the name holds one.
pub proof fn law_no_address_in_properties(
    properties: Seq<NodeView>,
    namespace: NamespaceKind,
    local_name: Seq<char>,
)
    requires
        forall|k: int|
            0 <= k < properties.len() ==> (#[trigger] properties[k]).namespace != namespace
                || properties[k].local_name != local_name || properties[k].child(
                NamespaceKind::Dav,
                "href"@,
            ) is None,
    ensures
        first_href(properties, namespace, local_name) is None,
    decreases properties.len(),
{
    if properties.len() > 0 {
        let rest = properties.drop_first();
        assert(properties[0].namespace != namespace || properties[0].local_name != local_name
            || properties[0].child(NamespaceKind::Dav, "href"@) is None);
        assert forall|k: int| 0 <= k < rest.len() implies (#[trigger] rest[k]).namespace != namespace
            || rest[k].local_name != local_name || rest[k].child(NamespaceKind::Dav, "href"@) is None by {
            assert(rest[k] == properties[k + 1]);
        }
        law_no_address_in_properties(rest, namespace, local_name);
    }
}

/// The address in an answer is the one in the first of its responses that holds one.
pub proof fn law_first_address_in_responses(
    responses: Seq<NodeView>,
    namespace: NamespaceKind,
    local_name: Seq<char>,
)
    ensures
        first_href_in(responses, namespace, local_name) matches Some(href) ==> exists|i: int|
            0 <= i < responses.len() && first_href(
                properties_of(#[trigger] responses[i]),
                namespace,
                local_name,
            ) == Some(href) && forall|k: int|
                0 <= k < i ==> first_href(
                    properties_of(#[trigger] responses[k]),
                    namespace,
                    local_name,
                ) is None,
        first_href_in(responses, namespace, local_name) is None ==> forall|k: int|
            0 <= k < responses.len() ==> first_href(
                properties_of(#[trigger] responses[k]),
                namespace,
                local_name,
            ) is None,
    decreases responses.len(),
{
    if responses.len() > 0 {
        let rest = responses.drop_first();
        law_first_address_in_responses(rest, namespace, local_name);
        if first_href(properties_of(responses[0]), namespace, local_name) is Some {
            assert(first_href(properties_of(responses[0]), namespace, local_name) == first_href_in(
                responses,
                namespace,
                local_name,
            ));
        } else if let Some(href) = first_href_in(rest, namespace, local_name) {
            let i = choose|i: int|
                0 <= i < rest.len() && first_href(
                    properties_of(#[trigger] rest[i]),
                    namespace,
                    local_name,
                ) == Some(href) && forall|k: int|
                    0 <= k < i ==> first_href(
                        properties_of(#[trigger] rest[k]),
                        namespace,
                        local_name,
                    ) is None;
            assert(responses[i + 1] == rest[i]);
            assert forall|k: int| 0 <= k < i + 1 implies first_href(
                properties_of(#[trigger] responses[k]),
                namespace,
                local_name,
            ) is None by {
                if k > 0 {
                    assert(rest[k - 1] == responses[k]);
                }
            }
        } else {
            assert forall|k: int| 0 <= k < responses.len() implies first_href(
                properties_of(#[trigger] responses[k]),
                namespace,
                local_name,
            ) is None by {
                if k > 0 {
                    assert(rest[k - 1] == responses[k]);
                }
            }
        }
    }
}

/// An answer gives an address that is not empty, or says that it is missing; one that cannot be read
/// says why.
pub proof fn law_address_of_an_answer(
    responses: Seq<NodeView>,
    root: Result<NodeView, Seq<char>>,
    namespace: NamespaceKind,
    local_name: Seq<char>,
    missing: Seq<char>,
)
    ensures
        root matches Err(message) ==> property_href(root, namespace, local_name, missing) == Err::<
            Seq<char>,
            Seq<char>,
        >(message),
        responses_in(root) == Ok::<Seq<NodeView>, Seq<char>>(responses) ==> {
            let found = first_href_in(responses, namespace, local_name);
            &&& found is None || found->0.len() == 0 ==> property_href(root, namespace, local_name, missing)
                == Err::<Seq<char>, Seq<char>>(missing)
            &&& found is Some && found->0.len() > 0 ==> property_href(root, namespace, local_name, missing)
                == Ok::<Seq<char>, Seq<char>>(found->0)
        },
{
}

/// An answer lists every calendar that one of its responses offers, and no others.
pub proof fn law_offers_of_an_answer(responses: Seq<NodeView>, root: Result<NodeView, Seq<char>>, offer: DiscoveredView)
    ensures
        responses_in(root) == Ok::<Seq<NodeView>, Seq<char>>(responses) ==> (calendars_of(root) matches Ok(
            calendars,
        ) && calendars == offered_calendars(responses)),
        offered_calendars(responses).contains(offer) <==> exists|i: int|
            0 <= i < responses.len() && offered_calendar(#[trigger] responses[i]) == Some(offer),
    decreases responses.len(),
{
    if responses.len() > 0 {
        let shorter = responses.drop_last();
        let last = responses.len() - 1;
        law_offers_of_an_answer(shorter, root, offer);
        let before = offered_calendars(shorter);
        let out = offered_calendars(responses);
        assert(responses[last] == responses.last());
        if out.contains(offer) {
            let k = choose|k: int| 0 <= k < out.len() && out[k] == offer;
            if k < before.len() {
                assert(before[k] == offer);
                assert(before.contains(offer));
                let i = choose|i: int|
                    0 <= i < shorter.len() && offered_calendar(#[trigger] shorter[i]) == Some(offer);
                assert(responses[i] == shorter[i]);
            }
        }
        if exists|i: int|
            0 <= i < responses.len() && offered_calendar(#[trigger] responses[i]) == Some(offer) {
            let i = choose|i: int|
                0 <= i < responses.len() && offered_calendar(#[trigger] responses[i]) == Some(offer);
            if i < last {
                assert(shorter[i] == responses[i]);
                let k = choose|k: int| 0 <= k < before.len() && before[k] == offer;
                assert(out[k] == offer);
            } else {
                assert(out[before.len() as int] == offer);
            }
        }
    }
}

/// A calendar can be written to exactly where one of its properties says so; and one that says that it
/// holds events is offered.
pub proof fn law_offers_that_can_be_written(response: NodeView, i: int, k: int)
    requires
        0 <= i < properties_of(response).len(),
        says_calendar(properties_of(response)[i]),
        0 <= k < properties_of(response).len(),
        says_events(properties_of(response)[k]),
    ensures
        offered_calendar(response) matches Some(offer) && (offer.writable <==> exists|n: int|
            0 <= n < properties_of(response).len() && says_writable(#[trigger] properties_of(response)[n])),
{
}

/// An answer has a record for each of its responses, in their order.
pub proof fn law_records_of_an_answer(root: Result<NodeView, Seq<char>>, responses: Seq<NodeView>, i: int)
    requires
        responses_in(root) == Ok::<Seq<NodeView>, Seq<char>>(responses),
        0 <= i < responses.len(),
    ensures
        multistatus_of(root) matches Ok(records) && records.len() == responses.len() && records[i]
            == record_of(responses[i]),
{
}

/// The properties of a response are those of all its parts that were found.
pub proof fn law_properties_of_a_response(nodes: Seq<NodeView>, property: NodeView)
    ensures
        found_in_all(nodes).contains(property) <==> exists|i: int|
            0 <= i < nodes.len() && found_in(#[trigger] nodes[i]).contains(property),
    decreases nodes.len(),
{
    if nodes.len() > 0 {
        let shorter = nodes.drop_last();
        let last = nodes.len() - 1;
        law_properties_of_a_response(shorter, property);
        let before = found_in_all(shorter);
        let more = found_in(nodes[last]);
        let out = found_in_all(nodes);
        assert(out =~= before + more);
        if out.contains(property) {
            let k = choose|k: int| 0 <= k < out.len() && out[k] == property;
            if k < before.len() {
                assert(before[k] == property);
                assert(before.contains(property));
                let i = choose|i: int|
                    0 <= i < shorter.len() && found_in(#[trigger] shorter[i]).contains(property);
                assert(nodes[i] == shorter[i]);
            } else {
                assert(more[k - before.len()] == property);
                assert(found_in(nodes[last]).contains(property));
            }
        }
        if exists|i: int| 0 <= i < nodes.len() && found_in(#[trigger] nodes[i]).contains(property) {
            let i = choose|i: int|
                0 <= i < nodes.len() && found_in(#[trigger] nodes[i]).contains(property);
            if i < last {
                assert(shorter[i] == nodes[i]);
                assert(before.contains(property));
                let k = choose|k: int| 0 <= k < before.len() && before[k] == property;
                assert(out[k] == property);
            } else {
                let k = choose|k: int| 0 <= k < more.len() && more[k] == property;
                assert(out[before.len() + k] == property);
            }
        }
    }
}

} // verus!
