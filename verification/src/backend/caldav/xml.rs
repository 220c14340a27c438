//! XML documents as trees.
use quick_xml::events::attributes::Attributes;
use quick_xml::events::Event;
use quick_xml::name::{QName, ResolveResult};
use quick_xml::reader::NsReader;
use vstd::prelude::*;

use crate::backend::caldav::ParseError;
use crate::text;

verus! {

// ---------------------------------------------------------------------------------------------
// What the reader hands out
// ---------------------------------------------------------------------------------------------

/// `quick_xml::reader::NsReader`, which reads a document piece by piece.
#[verifier::external_type_specification]
#[verifier::external_body]
#[verifier::reject_recursive_types(R)]
pub struct ExNsReader<R>(quick_xml::reader::NsReader<R>);

/// A piece of a document.
#[derive(Debug)]
pub enum XmlRead {
    /// A start tag: its name, and all that stands between its brackets.
    Start(String, String),
    /// A tag of an empty element: its name, and all that stands between its brackets.
    Empty(String, String),
    /// An end tag: its name.
    End(String),
    /// Text that may hold escaped characters.
    Text(String),
    /// Text that is to be taken as it is.
    CData(String),
    /// A reference to an entity or a character, without its marks.
    Reference(String),
    /// The end of the document.
    Eof,
    /// A comment or another piece that carries no contents.
    Other,
}

/// The values of what a read returns.
pub enum ReadView {
    Start(Seq<char>, Seq<char>),
    Empty(Seq<char>, Seq<char>),
    End(Seq<char>),
    Text(Seq<char>),
    CData(Seq<char>),
    Reference(Seq<char>),
    Eof,
    Other,
    Failed(Seq<char>),
}

/// The values of what a read returns.
pub open spec fn read_view(r: Result<XmlRead, String>) -> ReadView {
    match r {
        Ok(XmlRead::Start(name, content)) => ReadView::Start(name@, content@),
        Ok(XmlRead::Empty(name, content)) => ReadView::Empty(name@, content@),
        Ok(XmlRead::End(name)) => ReadView::End(name@),
        Ok(XmlRead::Text(content)) => ReadView::Text(content@),
        Ok(XmlRead::CData(content)) => ReadView::CData(content@),
        Ok(XmlRead::Reference(content)) => ReadView::Reference(content@),
        Ok(XmlRead::Eof) => ReadView::Eof,
        Ok(XmlRead::Other) => ReadView::Other,
        Err(message) => ReadView::Failed(message@),
    }
}

/// The namespaces that are bound at a place of a document: under `None` the default one, under a
/// prefix the one that it stands for.
pub type Scope = Map<Option<Seq<char>>, Seq<char>>;

/// Whether a piece is the last that a reader hands out.
pub open spec fn is_last(read: ReadView) -> bool {
    read is Eof || read is Failed
}

/// The pieces that a reader still has to hand out, up to the end of the document or the first
/// failure, each with the namespaces that are bound at it.
pub uninterp spec fn reads_left(reader: NsReader<&[u8]>) -> Seq<(ReadView, Scope)>;

/// The namespaces that are bound at the piece that a reader handed out last.
pub uninterp spec fn scope_of(reader: NsReader<&[u8]>) -> Scope;

/// The pieces of a document, up to its end or the first failure, each with the namespaces that are
/// bound at it.
pub uninterp spec fn document_reads(document: Seq<char>) -> Seq<(ReadView, Scope)>;

/// Attribute `k` of a tag with a name and all that stands between its brackets, as key and value, or
/// why it cannot be read; none behind the last.
pub uninterp spec fn tag_attribute(name: Seq<char>, content: Seq<char>, k: usize) -> Option<
    Result<(Seq<char>, Seq<char>), Seq<char>>,
>;

/// A text with its escaped characters replaced, or why that cannot be done.
pub uninterp spec fn unescaped(content: Seq<char>) -> Result<Seq<char>, Seq<char>>;

/// `quick_xml::reader::NsReader::from_str`, with white space kept (`trim_text`). Reading what it
/// returns hands out the pieces named by [`document_reads`], of which there is always one.
#[verifier::external_body]
fn quick_xml_reader<'i>(document: &'i str) -> (r: NsReader<&'i [u8]>)
    ensures
        reads_left(r) == document_reads(document@),
        reads_left(r).len() > 0,
{
    let mut reader = NsReader::from_str(document);
    reader.config_mut().trim_text(false);
    reader
}

/// Whether a tag begins with its name, so that its attributes begin behind it.
pub open spec fn is_tag(name: Seq<char>, content: Seq<char>) -> bool {
    name.len() <= content.len() && content.take(name.len() as int) == name
}

/// `quick_xml::reader::NsReader::read_event`: the next piece, or the message of its error. A piece
/// that is neither the end nor a failure is followed by another. What stands between the brackets of
/// a tag begins with its name.
#[verifier::external_body]
fn quick_xml_read<'i>(reader: &mut NsReader<&'i [u8]>) -> (r: Result<XmlRead, String>)
    requires
        reads_left(*old(reader)).len() > 0,
    ensures
        read_view(r) == reads_left(*old(reader))[0].0,
        scope_of(*final(reader)) == reads_left(*old(reader))[0].1,
        reads_left(*final(reader)) == reads_left(*old(reader)).drop_first(),
        !is_last(read_view(r)) ==> reads_left(*final(reader)).len() > 0,
        read_view(r) matches ReadView::Start(name, content) ==> is_tag(name, content),
        read_view(r) matches ReadView::Empty(name, content) ==> is_tag(name, content),
{
    let event = reader.read_event().map_err(|error| error.to_string())?;
    let content = event.to_string();
    Ok(match event {
        Event::Start(tag) => XmlRead::Start(tag.name().into_inner().to_owned(), content),
        Event::Empty(tag) => XmlRead::Empty(tag.name().into_inner().to_owned(), content),
        Event::End(_) => XmlRead::End(content),
        Event::Text(_) => XmlRead::Text(content),
        Event::CData(_) => XmlRead::CData(content),
        Event::GeneralRef(_) => XmlRead::Reference(content),
        Event::Eof => XmlRead::Eof,
        _ => XmlRead::Other,
    })
}

/// The prefix of a name: what stands before its first colon.
pub open spec fn prefix_of(name: Seq<char>) -> Option<Seq<char>> {
    match text::split_once(name, ':') {
        Some((prefix, _)) => Some(prefix),
        None => None,
    }
}

/// A name without its prefix.
pub open spec fn local_name_of(name: Seq<char>) -> Seq<char> {
    match text::split_once(name, ':') {
        Some((_, local)) => local,
        None => name,
    }
}

/// The namespace that is bound to the prefix of a name.
pub open spec fn namespace_in(scope: Scope, name: Seq<char>) -> Option<Seq<char>> {
    if scope.dom().contains(prefix_of(name)) {
        Some(scope[prefix_of(name)])
    } else {
        None
    }
}

/// The values of a resolved name.
pub open spec fn resolved_view(r: (Option<String>, String)) -> (Option<Seq<char>>, Seq<char>) {
    (crate::model::text_view(r.0), r.1@)
}

/// `quick_xml::name::NamespaceResolver::resolve_element` of a reader: the namespace that is bound to
/// the prefix of a name at the last piece, and the name without its prefix.
#[verifier::external_body]
fn quick_xml_resolve<'i>(reader: &NsReader<&'i [u8]>, name: &str) -> (r: (Option<String>, String))
    ensures
        resolved_view(r) == (namespace_in(scope_of(*reader), name@), local_name_of(name@)),
{
    let (resolved, local) = reader.resolver().resolve_element(QName(name));
    let namespace = match resolved {
        ResolveResult::Bound(namespace) => Some(namespace.into_inner().to_owned()),
        ResolveResult::Unbound => None,
        ResolveResult::Unknown(_) => None,
    };
    (namespace, local.into_inner().to_owned())
}

/// The values of an attribute.
pub open spec fn attribute_view(r: Option<Result<(String, String), String>>) -> Option<
    Result<(Seq<char>, Seq<char>), Seq<char>>,
> {
    match r {
        Some(Ok((key, value))) => Some(Ok((key@, value@))),
        Some(Err(message)) => Some(Err(message@)),
        None => None,
    }
}

/// Item `k` of `quick_xml::events::attributes::Attributes` over a tag, with its value normalised
/// (`normalized_value`), or the message of its error: named by [`tag_attribute`]. The attributes are
/// looked for from the end of the name on, which has to be the end of a character.
#[verifier::external_body]
fn quick_xml_attribute(name: &str, content: &str, k: usize) -> (r: Option<
    Result<(String, String), String>,
>)
    requires
        is_tag(name@, content@),
    ensures
        attribute_view(r) == tag_attribute(name@, content@, k),
{
    match Attributes::new(content, name.len()).nth(k) {
        Some(Ok(attribute)) => match attribute.normalized_value(quick_xml::XmlVersion::Implicit1_0) {
            Ok(value) => Some(Ok((attribute.key.into_inner().to_owned(), value.into_owned()))),
            Err(error) => Some(Err(error.to_string())),
        },
        Some(Err(error)) => Some(Err(quick_xml::Error::from(error).to_string())),
        None => None,
    }
}

/// The values of an unescaped text.
pub open spec fn text_result(r: Result<String, String>) -> Result<Seq<char>, Seq<char>> {
    match r {
        Ok(value) => Ok(value@),
        Err(message) => Err(message@),
    }
}

/// `quick_xml::escape::unescape`, with the message of its error: named by [`unescaped`].
#[verifier::external_body]
fn quick_xml_unescape(content: &str) -> (r: Result<String, String>)
    ensures
        text_result(r) == unescaped(content@),
{
    match quick_xml::escape::unescape(content) {
        Ok(value) => Ok(value.into_owned()),
        Err(error) => Err(error.to_string()),
    }
}

// ---------------------------------------------------------------------------------------------
// Tokens
// ---------------------------------------------------------------------------------------------

/// The namespaces that matter in answers of calendar servers.
#[derive(Clone, Copy, Debug, PartialEq, Eq, Structural)]
pub enum NamespaceKind {
    Dav,
    Caldav,
    AppleIcal,
    Other,
}

/// Which namespace a name is in.
pub open spec fn kind_of(namespace: Option<Seq<char>>) -> NamespaceKind {
    match namespace {
        Some(namespace) => if namespace == "DAV:"@ {
            NamespaceKind::Dav
        } else if namespace == "urn:ietf:params:xml:ns:caldav"@ {
            NamespaceKind::Caldav
        } else if namespace == "http://apple.com/ns/ical/"@ {
            NamespaceKind::AppleIcal
        } else {
            NamespaceKind::Other
        },
        None => NamespaceKind::Other,
    }
}

impl NamespaceKind {
    /// Which namespace a name is in.
    pub fn from_resolved(namespace: &Option<String>) -> (r: NamespaceKind)
        ensures
            r == kind_of(crate::model::text_view(*namespace)),
    {
        match namespace {
            Some(namespace) => if text::same_text(namespace.as_str(), "DAV:") {
                NamespaceKind::Dav
            } else if text::same_text(namespace.as_str(), "urn:ietf:params:xml:ns:caldav") {
                NamespaceKind::Caldav
            } else if text::same_text(namespace.as_str(), "http://apple.com/ns/ical/") {
                NamespaceKind::AppleIcal
            } else {
                NamespaceKind::Other
            },
            None => NamespaceKind::Other,
        }
    }
}

/// An attribute: its key and its value.
pub type Attribute = (String, String);

/// The values of a list of attributes.
pub open spec fn attribute_views(attributes: Seq<Attribute>) -> Seq<(Seq<char>, Seq<char>)> {
    Seq::new(attributes.len(), |i: int| (attributes[i].0@, attributes[i].1@))
}

/// A piece of a document, with its names and texts resolved where that can be done.
#[derive(Debug)]
pub enum XmlToken {
    Start {
        namespace: NamespaceKind,
        local_name: String,
        attributes: Result<Vec<Attribute>, String>,
    },
    Empty {
        namespace: NamespaceKind,
        local_name: String,
        attributes: Result<Vec<Attribute>, String>,
    },
    End { namespace: NamespaceKind, local_name: String },
    Text(Result<String, String>),
    Eof,
    Other,
    Failed(String),
}

/// The values of an [`XmlToken`].
pub enum TokenView {
    Start {
        namespace: NamespaceKind,
        local_name: Seq<char>,
        attributes: Result<Seq<(Seq<char>, Seq<char>)>, Seq<char>>,
    },
    Empty {
        namespace: NamespaceKind,
        local_name: Seq<char>,
        attributes: Result<Seq<(Seq<char>, Seq<char>)>, Seq<char>>,
    },
    End { namespace: NamespaceKind, local_name: Seq<char> },
    Text(Result<Seq<char>, Seq<char>>),
    Eof,
    Other,
    Failed(Seq<char>),
}

/// The values of a list of attributes, or why they cannot be read.
pub open spec fn attributes_result(r: Result<Vec<Attribute>, String>) -> Result<
    Seq<(Seq<char>, Seq<char>)>,
    Seq<char>,
> {
    match r {
        Ok(attributes) => Ok(attribute_views(attributes@)),
        Err(message) => Err(message@),
    }
}

impl View for XmlToken {
    type V = TokenView;

    open spec fn view(&self) -> TokenView {
        match *self {
            XmlToken::Start { namespace, local_name, attributes } => TokenView::Start {
                namespace,
                local_name: local_name@,
                attributes: attributes_result(attributes),
            },
            XmlToken::Empty { namespace, local_name, attributes } => TokenView::Empty {
                namespace,
                local_name: local_name@,
                attributes: attributes_result(attributes),
            },
            XmlToken::End { namespace, local_name } => TokenView::End {
                namespace,
                local_name: local_name@,
            },
            XmlToken::Text(content) => TokenView::Text(text_result(content)),
            XmlToken::Eof => TokenView::Eof,
            XmlToken::Other => TokenView::Other,
            XmlToken::Failed(message) => TokenView::Failed(message@),
        }
    }
}

/// The attributes of a tag from number `k` on, up to the last or the first that cannot be read.
/// There are not more of them than characters in the tag.
pub open spec fn attributes_from(name: Seq<char>, content: Seq<char>, k: int) -> Result<
    Seq<(Seq<char>, Seq<char>)>,
    Seq<char>,
>
    decreases content.len() - k,
{
    if k >= content.len() {
        Ok(seq![])
    } else {
        match tag_attribute(name, content, k as usize) {
            None => Ok(seq![]),
            Some(Err(message)) => Err(message),
            Some(Ok(attribute)) => match attributes_from(name, content, k + 1) {
                Ok(rest) => Ok(seq![attribute] + rest),
                Err(message) => Err(message),
            },
        }
    }
}

/// The attributes of a tag, or why they cannot be read.
fn tag_attributes(name: &str, content: &str) -> (r: Result<Vec<Attribute>, String>)
    requires
        is_tag(name@, content@),
    ensures
        attributes_result(r) == attributes_from(name@, content@, 0),
{
    let length: usize = text::chars_of(content).len();
    let ghost all = attributes_from(name@, content@, 0);
    let mut out: Vec<Attribute> = Vec::new();
    let mut k: usize = 0;
    proof {
        assert(attribute_views(out@) =~= seq![]);
        if all is Ok {
            assert(attribute_views(out@) + all->Ok_0 =~= all->Ok_0);
        }
    }
    while k < length
        invariant
            is_tag(name@, content@),
            length == content@.len(),
            k <= length,
            all == attributes_from(name@, content@, 0),
            all == match attributes_from(name@, content@, k as int) {
                Ok(rest) => Ok::<Seq<(Seq<char>, Seq<char>)>, Seq<char>>(
                    attribute_views(out@) + rest,
                ),
                Err(message) => Err(message),
            },
        decreases length - k,
    {
        let ghost before = attribute_views(out@);
        match quick_xml_attribute(name, content, k) {
            None => {
                assert(before + seq![] =~= before);
                return Ok(out);
            },
            Some(Err(message)) => {
                return Err(message);
            },
            Some(Ok(attribute)) => {
                let ghost view = (attribute.0@, attribute.1@);
                out.push(attribute);
                proof {
                    assert(attribute_views(out@) =~= before.push(view));
                    if attributes_from(name@, content@, k + 1) is Ok {
                        let rest = attributes_from(name@, content@, k + 1)->Ok_0;
                        assert(before + (seq![view] + rest) =~= before.push(view) + rest);
                    }
                }
                k += 1;
            },
        }
    }
    assert(attribute_views(out@) + seq![] =~= attribute_views(out@));
    Ok(out)
}

/// A piece of a document with its names and texts resolved.
pub open spec fn token_of(read: ReadView, scope: Scope) -> TokenView {
    match read {
        ReadView::Start(name, content) => TokenView::Start {
            namespace: kind_of(namespace_in(scope, name)),
            local_name: local_name_of(name),
            attributes: attributes_from(name, content, 0),
        },
        ReadView::Empty(name, content) => TokenView::Empty {
            namespace: kind_of(namespace_in(scope, name)),
            local_name: local_name_of(name),
            attributes: attributes_from(name, content, 0),
        },
        ReadView::End(name) => TokenView::End {
            namespace: kind_of(namespace_in(scope, name)),
            local_name: local_name_of(name),
        },
        ReadView::Text(content) => TokenView::Text(unescaped(content)),
        ReadView::CData(content) => TokenView::Text(Ok(content)),
        ReadView::Reference(content) => TokenView::Text(unescaped("&"@ + content + ";"@)),
        ReadView::Eof => TokenView::Eof,
        ReadView::Other => TokenView::Other,
        ReadView::Failed(message) => TokenView::Failed(message),
    }
}

/// The next piece of a document with its names and texts resolved.
fn next_token<'i>(reader: &mut NsReader<&'i [u8]>) -> (r: XmlToken)
    requires
        reads_left(*old(reader)).len() > 0,
    ensures
        r@ == token_of(reads_left(*old(reader))[0].0, reads_left(*old(reader))[0].1),
        reads_left(*final(reader)) == reads_left(*old(reader)).drop_first(),
        !(r@ is Eof) && !(r@ is Failed) ==> reads_left(*final(reader)).len() > 0,
{
    let read = quick_xml_read(reader);
    match read {
        Ok(XmlRead::Start(name, content)) => {
            let (namespace, local_name): (Option<String>, String) = quick_xml_resolve(
                reader,
                name.as_str(),
            );
            XmlToken::Start {
                namespace: NamespaceKind::from_resolved(&namespace),
                local_name,
                attributes: tag_attributes(name.as_str(), content.as_str()),
            }
        },
        Ok(XmlRead::Empty(name, content)) => {
            let (namespace, local_name): (Option<String>, String) = quick_xml_resolve(
                reader,
                name.as_str(),
            );
            XmlToken::Empty {
                namespace: NamespaceKind::from_resolved(&namespace),
                local_name,
                attributes: tag_attributes(name.as_str(), content.as_str()),
            }
        },
        Ok(XmlRead::End(name)) => {
            let (namespace, local_name): (Option<String>, String) = quick_xml_resolve(
                reader,
                name.as_str(),
            );
            XmlToken::End { namespace: NamespaceKind::from_resolved(&namespace), local_name }
        },
        Ok(XmlRead::Text(content)) => XmlToken::Text(quick_xml_unescape(content.as_str())),
        Ok(XmlRead::CData(content)) => XmlToken::Text(Ok(content)),
        Ok(XmlRead::Reference(content)) => {
            let marked = text::joined(text::joined("&", content.as_str()).as_str(), ";");
            XmlToken::Text(quick_xml_unescape(marked.as_str()))
        },
        Ok(XmlRead::Eof) => XmlToken::Eof,
        Ok(XmlRead::Other) => XmlToken::Other,
        Err(message) => XmlToken::Failed(message),
    }
}

// ---------------------------------------------------------------------------------------------
// Trees
// ---------------------------------------------------------------------------------------------

/// An element of a document.
#[derive(Debug)]
pub struct XmlNode {
    pub namespace: NamespaceKind,
    pub local_name: String,
    pub attributes: Vec<Attribute>,
    /// The text directly in the element.
    pub text: String,
    pub children: Vec<XmlNode>,
}

/// The values of an [`XmlNode`].
pub struct NodeView {
    pub namespace: NamespaceKind,
    pub local_name: Seq<char>,
    pub attributes: Seq<(Seq<char>, Seq<char>)>,
    pub text: Seq<char>,
    pub children: Seq<NodeView>,
}

/// The values of an element.
pub open spec fn node_view(node: XmlNode) -> NodeView
    decreases node,
{
    NodeView {
        namespace: node.namespace,
        local_name: node.local_name@,
        attributes: attribute_views(node.attributes@),
        text: node.text@,
        children: node_views(node.children@),
    }
}

/// The values of a list of elements.
pub open spec fn node_views(nodes: Seq<XmlNode>) -> Seq<NodeView>
    decreases nodes,
{
    if nodes.len() == 0 {
        seq![]
    } else {
        node_views(nodes.drop_last()).push(node_view(nodes.last()))
    }
}

impl View for XmlNode {
    type V = NodeView;

    open spec fn view(&self) -> NodeView {
        node_view(*self)
    }
}

/// The values of a list of elements are those of each.
pub proof fn lemma_node_views(nodes: Seq<XmlNode>)
    ensures
        node_views(nodes).len() == nodes.len(),
        forall|i: int| 0 <= i < nodes.len() ==> #[trigger] node_views(nodes)[i] == node_view(nodes[i]),
    decreases nodes.len(),
{
    if nodes.len() > 0 {
        lemma_node_views(nodes.drop_last());
    }
}

/// The values of a list of elements with one more at its end.
pub proof fn lemma_node_views_push(nodes: Seq<XmlNode>, node: XmlNode)
    ensures
        node_views(nodes.push(node)) == node_views(nodes).push(node_view(node)),
{
    assert(nodes.push(node).drop_last() =~= nodes);
}

/// A document that is being read: the elements that are open, the outermost first, and the root once
/// it is closed.
pub struct TreeView {
    pub stack: Seq<NodeView>,
    pub root: Option<NodeView>,
}

/// A document that is being read.
#[derive(Debug)]
pub struct XmlTree {
    stack: Vec<XmlNode>,
    root: Option<XmlNode>,
}

/// The values of an optional element.
pub open spec fn optional_node(node: Option<XmlNode>) -> Option<NodeView> {
    match node {
        Some(node) => Some(node_view(node)),
        None => None,
    }
}

impl View for XmlTree {
    type V = TreeView;

    closed spec fn view(&self) -> TreeView {
        TreeView { stack: node_views(self.stack@), root: optional_node(self.root) }
    }
}

/// A document of which nothing was read.
pub open spec fn empty_tree() -> TreeView {
    TreeView { stack: seq![], root: None }
}

/// A document with one more element closed: in the innermost open element, or as the root, of which
/// there can be only one.
pub open spec fn with_node(tree: TreeView, node: NodeView) -> Result<TreeView, Seq<char>> {
    if tree.stack.len() > 0 {
        let parent = tree.stack.last();
        Ok(
            TreeView {
                stack: tree.stack.drop_last().push(
                    NodeView { children: parent.children.push(node), ..parent },
                ),
                root: tree.root,
            },
        )
    } else if tree.root is Some {
        Err("multiple XML roots"@)
    } else {
        Ok(TreeView { stack: tree.stack, root: Some(node) })
    }
}

/// A document with more text in the innermost open element. Outside the root only white space may
/// stand.
pub open spec fn with_text(tree: TreeView, content: Seq<char>) -> Result<TreeView, Seq<char>> {
    if tree.stack.len() > 0 {
        let node = tree.stack.last();
        Ok(
            TreeView {
                stack: tree.stack.drop_last().push(NodeView { text: node.text + content, ..node }),
                root: tree.root,
            },
        )
    } else if text::trimmed(content).len() > 0 {
        Err("text outside XML root"@)
    } else {
        Ok(tree)
    }
}

/// An element without text or children.
pub open spec fn bare_node(
    namespace: NamespaceKind,
    local_name: Seq<char>,
    attributes: Seq<(Seq<char>, Seq<char>)>,
) -> NodeView {
    NodeView { namespace, local_name, attributes, text: seq![], children: seq![] }
}

/// A document with one more piece read; the reason where the piece cannot stand there.
pub open spec fn with_token(tree: TreeView, token: TokenView) -> Result<TreeView, Seq<char>> {
    match token {
        TokenView::Start { namespace, local_name, attributes } => if tree.stack.len() == 0
            && tree.root is Some {
            Err("multiple XML roots"@)
        } else {
            match attributes {
                Ok(attributes) => Ok(
                    TreeView {
                        stack: tree.stack.push(bare_node(namespace, local_name, attributes)),
                        root: tree.root,
                    },
                ),
                Err(message) => Err(message),
            }
        },
        TokenView::Empty { namespace, local_name, attributes } => match attributes {
            Ok(attributes) => with_node(tree, bare_node(namespace, local_name, attributes)),
            Err(message) => Err(message),
        },
        TokenView::Text(content) => match content {
            Ok(content) => with_text(tree, content),
            Err(message) => Err(message),
        },
        TokenView::End { namespace, local_name } => if tree.stack.len() == 0 {
            Err("unmatched end tag"@)
        } else {
            let node = tree.stack.last();
            if node.namespace != namespace || node.local_name != local_name {
                Err("mismatched end tag"@)
            } else {
                with_node(TreeView { stack: tree.stack.drop_last(), root: tree.root }, node)
            }
        },
        TokenView::Failed(message) => Err(message),
        TokenView::Eof | TokenView::Other => Ok(tree),
    }
}

/// The root of a document that was read to its end.
pub open spec fn finished(tree: TreeView) -> Result<NodeView, Seq<char>> {
    if tree.stack.len() > 0 {
        Err("truncated multistatus XML"@)
    } else {
        match tree.root {
            Some(root) => Ok(root),
            None => Err("missing XML root"@),
        }
    }
}

/// The values of what reading one more piece returns.
pub open spec fn step_view(r: Result<(), ParseError>, tree: TreeView) -> Result<TreeView, Seq<char>> {
    match r {
        Ok(_) => Ok(tree),
        Err(error) => Err(error@),
    }
}

/// The values of what reading a document returns.
pub open spec fn root_view(r: Result<XmlNode, ParseError>) -> Result<NodeView, Seq<char>> {
    match r {
        Ok(root) => Ok(node_view(root)),
        Err(error) => Err(error@),
    }
}

/// An error with a message.
pub fn malformed(message: &str) -> (r: ParseError)
    ensures
        r@ == message@,
{
    ParseError(message.to_owned())
}

/// An element without text or children.
fn make_node(namespace: NamespaceKind, local_name: String, attributes: Vec<Attribute>) -> (r: XmlNode)
    ensures
        node_view(r) == bare_node(namespace, local_name@, attribute_views(attributes@)),
{
    let node = XmlNode {
        namespace,
        local_name,
        attributes,
        text: String::new(),
        children: Vec::new(),
    };
    assert(node.text@ =~= seq![]);
    assert(node_views(node.children@) =~= seq![]);
    node
}

impl XmlTree {
    /// A document of which nothing was read.
    pub fn new() -> (r: XmlTree)
        ensures
            r@ == empty_tree(),
    {
        let tree = XmlTree { stack: Vec::new(), root: None };
        assert(node_views(tree.stack@) =~= seq![]);
        tree
    }

    /// Close an element.
    fn append_node(&mut self, node: XmlNode) -> (r: Result<(), ParseError>)
        ensures
            with_node(old(self)@, node_view(node)) matches Ok(tree) ==> r is Ok && final(self)@ == tree,
            with_node(old(self)@, node_view(node)) matches Err(message) ==> (r matches Err(error)
                && error@ == message),
    {
        proof {
            lemma_node_views(self.stack@);
        }
        let ghost stack = self.stack@;
        match self.stack.pop() {
            Some(parent) => {
                let mut parent = parent;
                proof {
                    assert(stack =~= self.stack@.push(parent));
                    lemma_node_views_push(self.stack@, parent);
                    lemma_node_views_push(parent.children@, node);
                }
                let ghost before = node_views(self.stack@);
                let ghost old_parent = node_view(parent);
                parent.children.push(node);
                proof {
                    lemma_node_views_push(self.stack@, parent);
                    assert(node_views(stack).drop_last() =~= before);
                    assert(node_view(parent) == (NodeView {
                        children: old_parent.children.push(node_view(node)),
                        ..old_parent
                    }));
                }
                self.stack.push(parent);
                Ok(())
            },
            None => {
                if self.root.is_some() {
                    return Err(malformed("multiple XML roots"));
                }
                self.root = Some(node);
                Ok(())
            },
        }
    }

    /// Add text to the innermost open element.
    fn append_text(&mut self, content: &str) -> (r: Result<(), ParseError>)
        ensures
            with_text(old(self)@, content@) matches Ok(tree) ==> r is Ok && final(self)@ == tree,
            with_text(old(self)@, content@) matches Err(message) ==> (r matches Err(error) && error@
                == message),
    {
        proof {
            lemma_node_views(self.stack@);
        }
        let ghost stack = self.stack@;
        match self.stack.pop() {
            Some(node) => {
                let mut node = node;
                proof {
                    assert(stack =~= self.stack@.push(node));
                    lemma_node_views_push(self.stack@, node);
                }
                let ghost before = node_views(self.stack@);
                let ghost old_node = node_view(node);
                node.text.append(content);
                proof {
                    lemma_node_views_push(self.stack@, node);
                    assert(node_views(stack).drop_last() =~= before);
                    assert(node_view(node) == (NodeView {
                        text: old_node.text + content@,
                        ..old_node
                    }));
                }
                self.stack.push(node);
                Ok(())
            },
            None => {
                let trimmed = text::trim_chars(&text::chars_of(content));
                if trimmed.len() > 0 {
                    return Err(malformed("text outside XML root"));
                }
                Ok(())
            },
        }
    }

    /// Read one more piece of a document. After an error the document cannot be read on.
    pub fn take(&mut self, token: XmlToken) -> (r: Result<(), ParseError>)
        ensures
            with_token(old(self)@, token@) matches Ok(tree) ==> r is Ok && final(self)@ == tree,
            with_token(old(self)@, token@) matches Err(message) ==> (r matches Err(error) && error@
                == message),
    {
        proof {
            lemma_node_views(self.stack@);
        }
        let ghost stack = self.stack@;
        match token {
            XmlToken::Start { namespace, local_name, attributes } => {
                if self.stack.len() == 0 && self.root.is_some() {
                    return Err(malformed("multiple XML roots"));
                }
                match attributes {
                    Ok(attributes) => {
                        let node = make_node(namespace, local_name, attributes);
                        proof {
                            lemma_node_views_push(self.stack@, node);
                        }
                        self.stack.push(node);
                        Ok(())
                    },
                    Err(message) => Err(ParseError(message)),
                }
            },
            XmlToken::Empty { namespace, local_name, attributes } => match attributes {
                Ok(attributes) => self.append_node(make_node(namespace, local_name, attributes)),
                Err(message) => Err(ParseError(message)),
            },
            XmlToken::Text(content) => match content {
                Ok(content) => self.append_text(content.as_str()),
                Err(message) => Err(ParseError(message)),
            },
            XmlToken::End { namespace, local_name } => match self.stack.pop() {
                Some(node) => {
                    proof {
                        assert(stack =~= self.stack@.push(node));
                        lemma_node_views_push(self.stack@, node);
                        assert(node_views(stack).drop_last() =~= node_views(self.stack@));
                    }
                    if node.namespace != namespace || !text::same_text(
                        node.local_name.as_str(),
                        local_name.as_str(),
                    ) {
                        return Err(malformed("mismatched end tag"));
                    }
                    self.append_node(node)
                },
                None => Err(malformed("unmatched end tag")),
            },
            XmlToken::Failed(message) => Err(ParseError(message)),
            XmlToken::Eof => Ok(()),
            XmlToken::Other => Ok(()),
        }
    }

    /// The root of a document that was read to its end.
    pub fn finish(self) -> (r: Result<XmlNode, ParseError>)
        ensures
            root_view(r) == finished(self@),
    {
        proof {
            lemma_node_views(self.stack@);
        }
        if self.stack.len() > 0 {
            return Err(malformed("truncated multistatus XML"));
        }
        match self.root {
            Some(root) => Ok(root),
            None => Err(malformed("missing XML root")),
        }
    }
}

/// What reading a document gives, from the pieces that are left.
pub open spec fn parsed_from(tree: TreeView, reads: Seq<(ReadView, Scope)>) -> Result<
    NodeView,
    Seq<char>,
>
    decreases reads.len(),
{
    if reads.len() == 0 {
        finished(tree)
    } else {
        let token = token_of(reads[0].0, reads[0].1);
        match with_token(tree, token) {
            Ok(next) => if token is Eof {
                finished(next)
            } else {
                parsed_from(next, reads.drop_first())
            },
            Err(message) => Err(message),
        }
    }
}

/// The root of a document, or why the document cannot be read.
pub open spec fn parsed(document: Seq<char>) -> Result<NodeView, Seq<char>> {
    parsed_from(empty_tree(), document_reads(document))
}

/// Read a document into a tree.
pub fn parse_xml(document: &str) -> (r: Result<XmlNode, ParseError>)
    ensures
        root_view(r) == parsed(document@),
{
    let mut reader = quick_xml_reader(document);
    let mut tree = XmlTree::new();
    loop
        invariant
            reads_left(reader).len() > 0,
            parsed_from(tree@, reads_left(reader)) == parsed(document@),
        decreases reads_left(reader).len(),
    {
        let token = next_token(&mut reader);
        let last = match &token {
            XmlToken::Eof => true,
            _ => false,
        };
        match tree.take(token) {
            Ok(_) => {},
            Err(error) => {
                return Err(error);
            },
        }
        if last {
            return tree.finish();
        }
    }
}

// ---------------------------------------------------------------------------------------------
// Looking at elements
// ---------------------------------------------------------------------------------------------

impl NodeView {
    /// Whether an element has a name in a namespace.
    pub open spec fn is_named(self, namespace: NamespaceKind, local_name: Seq<char>) -> bool {
        self.namespace == namespace && self.local_name == local_name
    }

    /// The first child with a name in a namespace.
    pub open spec fn child(self, namespace: NamespaceKind, local_name: Seq<char>) -> Option<NodeView> {
        first_named(self.children, namespace, local_name)
    }

    /// The value of the first attribute with a key.
    pub open spec fn attribute(self, key: Seq<char>) -> Option<Seq<char>> {
        first_value(self.attributes, key)
    }
}

/// The first element of a list with a name in a namespace.
pub open spec fn first_named(
    nodes: Seq<NodeView>,
    namespace: NamespaceKind,
    local_name: Seq<char>,
) -> Option<NodeView>
    decreases nodes.len(),
{
    if nodes.len() == 0 {
        None
    } else if nodes[0].is_named(namespace, local_name) {
        Some(nodes[0])
    } else {
        first_named(nodes.drop_first(), namespace, local_name)
    }
}

/// The value of the first attribute of a list with a key.
pub open spec fn first_value(attributes: Seq<(Seq<char>, Seq<char>)>, key: Seq<char>) -> Option<Seq<char>>
    decreases attributes.len(),
{
    if attributes.len() == 0 {
        None
    } else if attributes[0].0 == key {
        Some(attributes[0].1)
    } else {
        first_value(attributes.drop_first(), key)
    }
}

/// All the text in an element: its own, then that of its children in their order.
pub open spec fn text_in(node: NodeView) -> Seq<char>
    decreases node,
{
    node.text + text_in_all(node.children)
}

/// All the text in elements, one after the other.
pub open spec fn text_in_all(nodes: Seq<NodeView>) -> Seq<char>
    decreases nodes,
{
    if nodes.len() == 0 {
        seq![]
    } else {
        text_in_all(nodes.drop_last()) + text_in(nodes.last())
    }
}

/// The values of an optional reference to an element.
pub open spec fn child_view(r: Option<&XmlNode>) -> Option<NodeView> {
    match r {
        Some(node) => Some(node_view(*node)),
        None => None,
    }
}

/// The values of an optional reference to a text.
pub open spec fn value_view(r: Option<&String>) -> Option<Seq<char>> {
    match r {
        Some(value) => Some(value@),
        None => None,
    }
}

impl XmlNode {
    /// Whether an element has a name in a namespace.
    pub fn is_named(&self, namespace: NamespaceKind, local_name: &str) -> (r: bool)
        ensures
            r == node_view(*self).is_named(namespace, local_name@),
    {
        self.namespace == namespace && text::same_text(self.local_name.as_str(), local_name)
    }

    /// The first child with a name in a namespace.
    pub fn child(&self, namespace: NamespaceKind, local_name: &str) -> (r: Option<&XmlNode>)
        ensures
            child_view(r) == node_view(*self).child(namespace, local_name@),
    {
        let ghost all = node_views(self.children@);
        proof {
            lemma_node_views(self.children@);
            assert(all.skip(0) =~= all);
        }
        for i in 0..self.children.len()
            invariant
                all == node_views(self.children@),
                all.len() == self.children@.len(),
                forall|k: int| 0 <= k < all.len() ==> #[trigger] all[k] == node_view(self.children@[k]),
                first_named(all, namespace, local_name@) == first_named(
                    all.skip(i as int),
                    namespace,
                    local_name@,
                ),
        {
            assert(all.skip(i as int)[0] == all[i as int]);
            assert(all.skip(i as int).drop_first() =~= all.skip(i + 1));
            if self.children[i].is_named(namespace, local_name) {
                return Some(&self.children[i]);
            }
        }
        None
    }

    /// The value of the first attribute with a key.
    pub fn attribute(&self, key: &str) -> (r: Option<&String>)
        ensures
            value_view(r) == node_view(*self).attribute(key@),
    {
        let ghost all = attribute_views(self.attributes@);
        assert(all.skip(0) =~= all);
        for i in 0..self.attributes.len()
            invariant
                all == attribute_views(self.attributes@),
                first_value(all, key@) == first_value(all.skip(i as int), key@),
        {
            assert(all.skip(i as int)[0] == (self.attributes@[i as int].0@, self.attributes@[i as int].1@));
            assert(all.skip(i as int).drop_first() =~= all.skip(i + 1));
            if text::same_text(self.attributes[i].0.as_str(), key) {
                return Some(&self.attributes[i].1);
            }
        }
        None
    }

    /// All the text in an element.
    pub fn text_value(&self) -> (r: String)
        ensures
            r@ == text_in(node_view(*self)),
        decreases self,
    {
        let mut value = self.text.clone();
        let rest = text_of_all(&self.children, self.children.len());
        proof {
            lemma_node_views(self.children@);
            assert(node_views(self.children@).take(self.children@.len() as int) =~= node_views(
                self.children@,
            ));
        }
        value.append(rest.as_str());
        value
    }
}

/// All the text in the first `n` elements of a list.
fn text_of_all(nodes: &Vec<XmlNode>, n: usize) -> (r: String)
    requires
        n <= nodes@.len(),
    ensures
        r@ == text_in_all(node_views(nodes@).take(n as int)),
    decreases nodes, n,
{
    proof {
        lemma_node_views(nodes@);
    }
    if n == 0 {
        let r = String::new();
        assert(r@ =~= seq![]);
        r
    } else {
        let mut value = text_of_all(nodes, n - 1);
        let last = nodes[n - 1].text_value();
        proof {
            let first = node_views(nodes@).take(n as int);
            assert(first.drop_last() =~= node_views(nodes@).take(n - 1));
            assert(first.last() == node_view(nodes@[n - 1]));
        }
        value.append(last.as_str());
        value
    }
}

// ---------------------------------------------------------------------------------------------
// Laws of documents
// ---------------------------------------------------------------------------------------------

/// The tokens of an element: its start, its text, its children one after the other, and its end.
pub open spec fn tokens_of(node: NodeView) -> Seq<TokenView>
    decreases node,
{
    seq![
        TokenView::Start {
            namespace: node.namespace,
            local_name: node.local_name,
            attributes: Ok(node.attributes),
        },
        TokenView::Text(Ok(node.text)),
    ] + tokens_of_all(node.children) + seq![
        TokenView::End { namespace: node.namespace, local_name: node.local_name },
    ]
}

/// The tokens of elements one after the other.
pub open spec fn tokens_of_all(nodes: Seq<NodeView>) -> Seq<TokenView>
    decreases nodes,
{
    if nodes.len() == 0 {
        seq![]
    } else {
        tokens_of_all(nodes.drop_last()) + tokens_of(nodes.last())
    }
}

/// The tree after tokens were read one after the other.
pub open spec fn after_tokens(tree: TreeView, tokens: Seq<TokenView>) -> Result<TreeView, Seq<char>>
    decreases tokens.len(),
{
    if tokens.len() == 0 {
        Ok(tree)
    } else {
        match after_tokens(tree, tokens.drop_last()) {
            Ok(before) => with_token(before, tokens.last()),
            Err(message) => Err(message),
        }
    }
}

/// The tokens of an element are read as that element: with its name, attributes and text, and its
/// children in order. A document of one element is read as that element.
pub proof fn law_element_is_read_as_itself(node: NodeView)
    ensures
        after_tokens(empty_tree(), tokens_of(node)) == Ok::<TreeView, Seq<char>>(
            TreeView { stack: seq![], root: Some(node) },
        ),
        finished(TreeView { stack: seq![], root: Some(node) }) == Ok::<NodeView, Seq<char>>(node),
{
    lemma_element_is_read(empty_tree(), node);
    assert(empty_tree().stack =~= seq![]);
}

proof fn lemma_after_concat(tree: TreeView, first: Seq<TokenView>, second: Seq<TokenView>)
    ensures
        after_tokens(tree, first + second) == match after_tokens(tree, first) {
            Ok(middle) => after_tokens(middle, second),
            Err(message) => Err(message),
        },
    decreases second.len(),
{
    if second.len() == 0 {
        assert(first + second =~= first);
    } else {
        lemma_after_concat(tree, first, second.drop_last());
        assert((first + second).drop_last() =~= first + second.drop_last());
        assert((first + second).last() == second.last());
    }
}

proof fn lemma_after_one(tree: TreeView, token: TokenView)
    ensures
        after_tokens(tree, seq![token]) == with_token(tree, token),
{
    assert(seq![token].drop_last() =~= seq![]);
    assert(after_tokens(tree, seq![token].drop_last()) == Ok::<TreeView, Seq<char>>(tree));
}

proof fn lemma_element_is_read(tree: TreeView, node: NodeView)
    requires
        tree.stack.len() > 0 || tree.root is None,
    ensures
        after_tokens(tree, tokens_of(node)) == with_node(tree, node),
    decreases node,
{
    let start = TokenView::Start {
        namespace: node.namespace,
        local_name: node.local_name,
        attributes: Ok(node.attributes),
    };
    let content = TokenView::Text(Ok(node.text));
    let end = TokenView::End { namespace: node.namespace, local_name: node.local_name };
    let inside = tokens_of_all(node.children);
    let bare = bare_node(node.namespace, node.local_name, node.attributes);
    let t1 = TreeView { stack: tree.stack.push(bare), root: tree.root };
    let t2 = TreeView { stack: tree.stack.push(NodeView { text: node.text, ..bare }), root: tree.root };
    lemma_after_one(tree, start);
    lemma_after_one(t1, content);
    assert(seq![start, content] =~= seq![start] + seq![content]);
    lemma_after_concat(tree, seq![start], seq![content]);
    assert(t1.stack.drop_last() =~= tree.stack);
    assert(Seq::<char>::empty() + node.text =~= node.text);
    assert(after_tokens(tree, seq![start, content]) == Ok::<TreeView, Seq<char>>(t2));
    lemma_after_concat(tree, seq![start, content], inside);
    lemma_children_are_read(tree, NodeView { text: node.text, ..bare }, node.children);
    let full = NodeView { text: node.text, children: node.children, ..bare };
    assert(Seq::<NodeView>::empty() + node.children =~= node.children);
    let t3 = TreeView { stack: tree.stack.push(full), root: tree.root };
    assert(after_tokens(t2, inside) == Ok::<TreeView, Seq<char>>(t3));
    lemma_after_concat(tree, seq![start, content] + inside, seq![end]);
    lemma_after_one(t3, end);
    assert(t3.stack.drop_last() =~= tree.stack);
    assert(full == node);
}

proof fn lemma_children_are_read(tree: TreeView, open: NodeView, children: Seq<NodeView>)
    ensures
        after_tokens(
            TreeView { stack: tree.stack.push(open), root: tree.root },
            tokens_of_all(children),
        ) == Ok::<TreeView, Seq<char>>(
            TreeView {
                stack: tree.stack.push(NodeView { children: open.children + children, ..open }),
                root: tree.root,
            },
        ),
    decreases children,
{
    let begun = TreeView { stack: tree.stack.push(open), root: tree.root };
    if children.len() == 0 {
        assert(open.children + children =~= open.children);
    } else {
        let before = children.drop_last();
        lemma_children_are_read(tree, open, before);
        let middle = TreeView {
            stack: tree.stack.push(NodeView { children: open.children + before, ..open }),
            root: tree.root,
        };
        lemma_after_concat(begun, tokens_of_all(before), tokens_of(children.last()));
        lemma_element_is_read(middle, children.last());
        assert(middle.stack.drop_last() =~= tree.stack);
        assert((open.children + before).push(children.last()) =~= open.children + children);
    }
}

/// A document is refused that has two roots, text beside its root, or an end without its start, or
/// that ends too early.
pub proof fn law_documents_that_are_refused(tree: TreeView, token: TokenView)
    ensures
        tree.stack.len() == 0 && tree.root is Some && (token is Start || token is Empty) ==> with_token(
            tree,
            token,
        ) is Err,
        tree.stack.len() == 0 && token is End ==> with_token(tree, token) is Err,
        tree.stack.len() > 0 ==> (token matches TokenView::End { namespace, local_name } && (namespace
            != tree.stack.last().namespace || local_name != tree.stack.last().local_name))
            ==> with_token(tree, token) is Err,
        tree.stack.len() == 0 ==> (token matches TokenView::Text(Ok(content)) && text::trimmed(
            content,
        ).len() > 0) ==> with_token(tree, token) is Err,
        tree.stack.len() > 0 ==> finished(tree) is Err,
        tree.stack.len() == 0 && tree.root is None ==> finished(tree) is Err,
{
}

/// The namespaces that are told apart are those of WebDAV, of CalDAV and of Apple's calendar.
pub proof fn law_namespaces(namespace: Seq<char>)
    ensures
        kind_of(Some("DAV:"@)) == NamespaceKind::Dav,
        kind_of(Some("urn:ietf:params:xml:ns:caldav"@)) == NamespaceKind::Caldav,
        kind_of(Some("http://apple.com/ns/ical/"@)) == NamespaceKind::AppleIcal,
        namespace != "DAV:"@ && namespace != "urn:ietf:params:xml:ns:caldav"@ && namespace
            != "http://apple.com/ns/ical/"@ ==> kind_of(Some(namespace)) == NamespaceKind::Other,
        kind_of(None) == NamespaceKind::Other,
{
    reveal_strlit("DAV:");
    reveal_strlit("urn:ietf:params:xml:ns:caldav");
    reveal_strlit("http://apple.com/ns/ical/");
    assert("DAV:"@.len() == 4 && "urn:ietf:params:xml:ns:caldav"@.len() == 29
        && "http://apple.com/ns/ical/"@.len() == 25);
}

/// The child with a name is the first one with it; there is none exactly where no child has it. The
/// same is true of attributes and their keys.
pub proof fn law_first_with_a_name(nodes: Seq<NodeView>, namespace: NamespaceKind, local_name: Seq<char>)
    ensures
        first_named(nodes, namespace, local_name) matches Some(node) ==> node.namespace == namespace
            && node.local_name == local_name && exists|i: int|
            0 <= i < nodes.len() && #[trigger] nodes[i] == node && forall|k: int|
                0 <= k < i ==> !((#[trigger] nodes[k]).namespace == namespace && nodes[k].local_name
                    == local_name),
        first_named(nodes, namespace, local_name) is None ==> forall|k: int|
            0 <= k < nodes.len() ==> !((#[trigger] nodes[k]).namespace == namespace
                && nodes[k].local_name == local_name),
    decreases nodes.len(),
{
    if nodes.len() > 0 {
        let rest = nodes.drop_first();
        law_first_with_a_name(rest, namespace, local_name);
        if nodes[0].is_named(namespace, local_name) {
            assert(nodes[0] == first_named(nodes, namespace, local_name)->0);
        } else if let Some(node) = first_named(rest, namespace, local_name) {
            let i = choose|i: int|
                0 <= i < rest.len() && #[trigger] rest[i] == node && forall|k: int|
                    0 <= k < i ==> !((#[trigger] rest[k]).namespace == namespace && rest[k].local_name
                        == local_name);
            assert(nodes[i + 1] == node);
            assert forall|k: int| 0 <= k < i + 1 implies !((#[trigger] nodes[k]).namespace == namespace
                && nodes[k].local_name == local_name) by {
                if k > 0 {
                    assert(rest[k - 1] == nodes[k]);
                }
            }
        } else {
            assert forall|k: int| 0 <= k < nodes.len() implies !((#[trigger] nodes[k]).namespace
                == namespace && nodes[k].local_name == local_name) by {
                if k > 0 {
                    assert(rest[k - 1] == nodes[k]);
                }
            }
        }
    }
}

/// A name is written with a prefix before a colon, or without one.
pub proof fn law_names_and_prefixes(prefix: Seq<char>, local_name: Seq<char>)
    requires
        !prefix.contains(':'),
    ensures
        prefix_of(prefix + seq![':'] + local_name) == Some(prefix),
        local_name_of(prefix + seq![':'] + local_name) == local_name,
        !local_name.contains(':') ==> prefix_of(local_name) is None && local_name_of(local_name)
            == local_name,
{
    let name = prefix + seq![':'] + local_name;
    assert forall|i: int| 0 <= i < prefix.len() implies name[i] != ':' by {
        assert(name[i] == prefix[i]);
        assert(prefix.contains(prefix[i]));
    }
    text::lemma_index_of_char_unique(name, ':', prefix.len() as int);
    assert(name.take(prefix.len() as int) =~= prefix);
    assert(name.skip(prefix.len() as int + 1) =~= local_name);
    if !local_name.contains(':') {
        text::lemma_index_of_char(local_name, ':');
        if text::index_of_char(local_name, ':') < local_name.len() {
            assert(local_name.contains(local_name[text::index_of_char(local_name, ':')]));
        }
    }
}

/// What is read of a document: an element is named by the namespace of its prefix and its local name,
/// a text is read with its references, and one that is marked off is read as it stands.
pub proof fn law_what_is_read(name: Seq<char>, content: Seq<char>, scope: Scope, uri: Seq<char>)
    ensures
        scope.dom().contains(prefix_of(name)) && scope[prefix_of(name)] == uri ==> {
            &&& token_of(ReadView::Start(name, content), scope) matches TokenView::Start {
                namespace,
                local_name,
                attributes,
            } && namespace == kind_of(Some(uri)) && local_name == local_name_of(name) && attributes
                == attributes_from(name, content, 0)
            &&& token_of(ReadView::Empty(name, content), scope) matches TokenView::Empty {
                namespace,
                local_name,
                attributes,
            } && namespace == kind_of(Some(uri)) && local_name == local_name_of(name) && attributes
                == attributes_from(name, content, 0)
            &&& token_of(ReadView::End(name), scope) matches TokenView::End { namespace, local_name }
                && namespace == kind_of(Some(uri)) && local_name == local_name_of(name)
        },
        !scope.dom().contains(prefix_of(name)) ==> (token_of(ReadView::End(name), scope)
            matches TokenView::End { namespace, .. } && namespace == kind_of(None)),
        token_of(ReadView::Text(content), scope) == TokenView::Text(unescaped(content)),
        token_of(ReadView::CData(content), scope) == TokenView::Text(Ok(content)),
        token_of(ReadView::Reference(content), scope) == TokenView::Text(
            unescaped(seq!['&'] + content + seq![';']),
        ),
        token_of(ReadView::Eof, scope) is Eof,
        token_of(ReadView::Other, scope) is Other,
        token_of(ReadView::Failed(content), scope) == TokenView::Failed(content),
{
    reveal_strlit("&");
    reveal_strlit(";");
    assert("&"@ =~= seq!['&']);
    assert(";"@ =~= seq![';']);
}

/// The attributes of a tag are read in order, up to where there are no more; one that cannot be read
/// makes the tag unreadable.
pub proof fn law_attributes_in_order(
    name: Seq<char>,
    content: Seq<char>,
    k: int,
    attributes: Seq<(Seq<char>, Seq<char>)>,
)
    requires
        0 <= k,
        k + attributes.len() <= content.len(),
        content.len() <= usize::MAX,
        forall|i: int|
            0 <= i < attributes.len() ==> tag_attribute(name, content, (k + i) as usize) == Some(
                Ok::<(Seq<char>, Seq<char>), Seq<char>>(#[trigger] attributes[i]),
            ),
    ensures
        k + attributes.len() == content.len() || tag_attribute(
            name,
            content,
            (k + attributes.len()) as usize,
        ) is None ==> attributes_from(name, content, k) == Ok::<Seq<(Seq<char>, Seq<char>)>, Seq<char>>(
            attributes,
        ),
        forall|message: Seq<char>|
            k + attributes.len() < content.len() && #[trigger] tag_attribute(
                name,
                content,
                (k + attributes.len()) as usize,
            ) == Some(Err::<(Seq<char>, Seq<char>), Seq<char>>(message)) ==> attributes_from(name, content, k)
                == Err::<Seq<(Seq<char>, Seq<char>)>, Seq<char>>(message),
    decreases attributes.len(),
{
    if attributes.len() > 0 {
        let rest = attributes.drop_first();
        assert(tag_attribute(name, content, (k + 0) as usize) == Some(
            Ok::<(Seq<char>, Seq<char>), Seq<char>>(attributes[0]),
        ));
        assert forall|i: int| 0 <= i < rest.len() implies tag_attribute(
            name,
            content,
            (k + 1 + i) as usize,
        ) == Some(Ok::<(Seq<char>, Seq<char>), Seq<char>>(#[trigger] rest[i])) by {
            assert(rest[i] == attributes[i + 1]);
            assert(k + (i + 1) == k + 1 + i);
        }
        law_attributes_in_order(name, content, k + 1, rest);
        assert(k + 1 + rest.len() == k + attributes.len());
        assert(seq![attributes[0]] + rest =~= attributes);
    } else {
        assert(attributes =~= seq![]);
    }
}

/// A document is read token by token up to its end; a token that does not fit is why it is refused.
pub proof fn law_documents_are_read_to_their_end(tree: TreeView, reads: Seq<(ReadView, Scope)>, next: TreeView)
    requires
        reads.len() > 0,
    ensures
        ({
            let token = token_of(reads[0].0, reads[0].1);
            &&& with_token(tree, token) matches Err(message) ==> parsed_from(tree, reads) == Err::<
                NodeView,
                Seq<char>,
            >(message)
            &&& with_token(tree, token) == Ok::<TreeView, Seq<char>>(next) && token is Eof ==> parsed_from(
                tree,
                reads,
            ) == finished(next)
            &&& with_token(tree, token) == Ok::<TreeView, Seq<char>>(next) && !(token is Eof) ==> parsed_from(
                tree,
                reads,
            ) == parsed_from(next, reads.drop_first())
        }),
{
}

} // verus!
