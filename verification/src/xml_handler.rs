//! Parsing feed documents into the canonical model.
//!
//! `roxmltree` turns the raw document into an XML node tree, which is read
//! off into the flat, plain-value [`XmlDoc`] form below. Everything after
//! that point — dialect detection (RSS vs. Atom), the per-dialect field
//! rules, and the assembly of a [`Channel`] — is ordinary verified code
//! over [`XmlDoc`], specified by the `spec_*` functions in this module.
//!
//! Dialect rules, in brief: a root tag `rss` with no namespace is RSS; a
//! root in the Atom namespace is Atom; anything else is rejected. RSS needs
//! a `channel` child with `title` and `link`; `description` defaults to
//! empty. Atom needs a `title` and a `link` child whose `rel` attribute is
//! `self` (stricter than the Atom specification on purpose). RSS items keep
//! their title or, failing that, their description, and are dropped when
//! both are missing; Atom entries are dropped when they lack a title.

use vstd::prelude::*;
use crate::rss::{identity_of, Channel, ChannelV, Item, ItemV};
use crate::text::str_eq;
use crate::time::{parse_rfc2822, parse_rfc3339, rfc2822_timestamp_of, rfc3339_timestamp_of};

verus! {

/// Why a document could not be turned into a channel.
#[derive(Clone, Copy, Debug, PartialEq, Eq, Structural)]
pub enum XmlError {
    /// The root element is neither an RSS nor an Atom root.
    UnknownFormat,
    /// The document is not well-formed XML.
    ParserFailed,
    /// An RSS document with no `channel` element.
    NoChannelTag,
    /// The mandatory channel title is missing.
    NoTitle,
    /// The mandatory channel link is missing.
    NoLink,
}

impl XmlError {
    /// A human-readable description of the error.
    pub fn message(&self) -> (r: &'static str)
        ensures
            r@ == match self {
                XmlError::UnknownFormat => "Format of the XML passed is neither Atom nor RSS"@,
                XmlError::ParserFailed => "Could not parse XML"@,
                XmlError::NoChannelTag => "The channel tag was not found in the xml passed"@,
                XmlError::NoTitle => "The title for the channel is not present in the xml passed"@,
                XmlError::NoLink => "The link for the channel is not present in the xml passed"@,
            },
    {
        match self {
            XmlError::UnknownFormat => "Format of the XML passed is neither Atom nor RSS",
            XmlError::ParserFailed => "Could not parse XML",
            XmlError::NoChannelTag => "The channel tag was not found in the xml passed",
            XmlError::NoTitle => "The title for the channel is not present in the xml passed",
            XmlError::NoLink => "The link for the channel is not present in the xml passed",
        }
    }
}

/// The view of an [`XmlNode`]: the same record over mathematical values.
#[verifier::ext_equal]
pub struct XmlNodeV {
    pub id: u64,
    pub parent: u64,
    pub name: Seq<char>,
    pub ns: Option<Seq<char>>,
    pub text: Option<Seq<char>>,
    pub attrs: Seq<(Seq<char>, Seq<char>)>,
}

/// One node of a parsed document, read off from `roxmltree`: its id, its
/// parent's id, and — for element nodes — tag name, namespace URI, leading
/// text content and attributes.
#[derive(Debug)]
pub struct XmlNode {
    /// The node's id within the document.
    pub id: u64,
    /// The id of the node's parent; the document root node (id 0) is its
    /// own parent.
    pub parent: u64,
    /// The element's local tag name; empty for every non-element node, so
    /// a lookup by a real name can only ever land on an element.
    pub name: String,
    /// The namespace URI of the tag, when it has one.
    pub ns: Option<String>,
    /// For an element whose first child is text, that text.
    pub text: Option<String>,
    /// The element's attributes as local-name/value pairs, in document
    /// order.
    pub attrs: Vec<(String, String)>,
}

impl View for XmlNode {
    type V = XmlNodeV;

    open spec fn view(&self) -> XmlNodeV {
        XmlNodeV {
            id: self.id,
            parent: self.parent,
            name: self.name@,
            ns: self.ns.deep_view(),
            text: self.text.deep_view(),
            attrs: self.attrs.deep_view(),
        }
    }
}

impl DeepView for XmlNode {
    type V = XmlNodeV;

    open spec fn deep_view(&self) -> XmlNodeV {
        self.view()
    }
}

/// The view of an [`XmlDoc`].
#[verifier::ext_equal]
pub struct XmlDocV {
    pub nodes: Seq<XmlNodeV>,
}

/// A whole parsed document, flattened to a list of plain-value nodes.
#[derive(Debug)]
pub struct XmlDoc {
    /// Every node of the document, in document order; the document root
    /// node comes first and carries id 0.
    pub nodes: Vec<XmlNode>,
}

impl View for XmlDoc {
    type V = XmlDocV;

    open spec fn view(&self) -> XmlDocV {
        XmlDocV { nodes: self.nodes.deep_view() }
    }
}

impl DeepView for XmlDoc {
    type V = XmlDocV;

    open spec fn deep_view(&self) -> XmlDocV {
        self.view()
    }
}

/// What `roxmltree` yields for a given document string, read off node by
/// node as an [`XmlDocV`]: `None` when the text is not well-formed XML.
/// Parsing is a pure function of the input string.
pub uninterp spec fn xml_tree_of(s: Seq<char>) -> Option<XmlDocV>;

/// Relies on `roxmltree::Document::parse` and its node accessors: the node
/// tree is walked in document order and each node's id, parent id, tag
/// name, namespace, leading text and attributes are copied out as plain
/// values. The document root node has id 0, and a non-element node
/// reports an empty tag name and no namespace.
#[verifier::external_body]
fn parse_xml(s: &str) -> (r: Option<XmlDoc>)
    ensures
        match r {
            Some(doc) => xml_tree_of(s@) == Some(doc@),
            None => xml_tree_of(s@) is None,
        },
{
    let doc = match roxmltree::Document::parse(s) {
        Ok(d) => d,
        Err(_) => return None,
    };
    let nodes = doc.root().descendants().map(|n| XmlNode {
        id: n.id().get() as u64,
        parent: n.parent().map_or(0, |p| p.id().get()) as u64,
        name: n.tag_name().name().to_string(),
        ns: n.tag_name().namespace().map(str::to_string),
        text: n.text().map(str::to_string),
        attrs: n.attributes().map(|a| (a.name().to_string(), a.value().to_string())).collect(),
    }).collect();
    Some(XmlDoc { nodes })
}

/// The Atom XML namespace.
pub open spec fn atom_ns() -> Seq<char> {
    "http://www.w3.org/2005/Atom"@
}

/// `e` is an element child of `parent` with local name `name` and no
/// namespace — the lookup rule for RSS fields, which keeps elements of
/// foreign namespaces from being mistaken for RSS markup.
pub open spec fn is_named_child(e: XmlNodeV, parent: u64, name: Seq<char>) -> bool {
    e.parent == parent && e.name == name && e.ns is None
}

/// As [`is_named_child`], but in the Atom namespace.
pub open spec fn is_named_child_atom(e: XmlNodeV, parent: u64, name: Seq<char>) -> bool {
    e.parent == parent && e.name == name && e.ns == Some(atom_ns())
}

/// The first node satisfying [`is_named_child`], in document order.
pub open spec fn spec_named_child(nodes: Seq<XmlNodeV>, parent: u64, name: Seq<char>) -> Option<XmlNodeV>
    decreases nodes.len(),
{
    if nodes.len() == 0 {
        None
    } else if is_named_child(nodes[0], parent, name) {
        Some(nodes[0])
    } else {
        spec_named_child(nodes.drop_first(), parent, name)
    }
}

/// The first node satisfying [`is_named_child_atom`], in document order.
pub open spec fn spec_named_child_atom(nodes: Seq<XmlNodeV>, parent: u64, name: Seq<char>) -> Option<XmlNodeV>
    decreases nodes.len(),
{
    if nodes.len() == 0 {
        None
    } else if is_named_child_atom(nodes[0], parent, name) {
        Some(nodes[0])
    } else {
        spec_named_child_atom(nodes.drop_first(), parent, name)
    }
}

/// The value of the first attribute with local name `name`.
pub open spec fn spec_attr(attrs: Seq<(Seq<char>, Seq<char>)>, name: Seq<char>) -> Option<Seq<char>>
    decreases attrs.len(),
{
    if attrs.len() == 0 {
        None
    } else if attrs[0].0 == name {
        Some(attrs[0].1)
    } else {
        spec_attr(attrs.drop_first(), name)
    }
}

/// `e` is a top-level element: a child of the document root node (id 0)
/// with a real tag name.
pub open spec fn is_root_elem(e: XmlNodeV) -> bool {
    e.parent == 0 && e.name.len() > 0
}

/// The document's root element: the first top-level element. A
/// well-formed document has exactly one.
pub open spec fn spec_root_elem(nodes: Seq<XmlNodeV>) -> Option<XmlNodeV>
    decreases nodes.len(),
{
    if nodes.len() == 0 {
        None
    } else if is_root_elem(nodes[0]) {
        Some(nodes[0])
    } else {
        spec_root_elem(nodes.drop_first())
    }
}

/// The text content of the first matching RSS-style child.
pub open spec fn spec_child_text(nodes: Seq<XmlNodeV>, parent: u64, name: Seq<char>) -> Option<Seq<char>> {
    match spec_named_child(nodes, parent, name) {
        Some(e) => e.text,
        None => None,
    }
}

/// The text content of the first matching Atom-style child.
pub open spec fn spec_child_text_atom(nodes: Seq<XmlNodeV>, parent: u64, name: Seq<char>) -> Option<Seq<char>> {
    match spec_named_child_atom(nodes, parent, name) {
        Some(e) => e.text,
        None => None,
    }
}

/// `e` is an Atom `link` child of `parent` whose `rel` attribute is
/// `self` — the element that carries an Atom feed's own URL.
pub open spec fn is_atom_self_link(e: XmlNodeV, parent: u64) -> bool {
    e.parent == parent && e.name == "link"@ && e.ns == Some(atom_ns())
        && spec_attr(e.attrs, "rel"@) == Some("self"@)
}

/// The first node satisfying [`is_atom_self_link`].
pub open spec fn spec_atom_self_link(nodes: Seq<XmlNodeV>, parent: u64) -> Option<XmlNodeV>
    decreases nodes.len(),
{
    if nodes.len() == 0 {
        None
    } else if is_atom_self_link(nodes[0], parent) {
        Some(nodes[0])
    } else {
        spec_atom_self_link(nodes.drop_first(), parent)
    }
}

/// What an RSS `item` element yields: its title or, failing that, its
/// description, together with link and publication date; `None` when it
/// has neither title nor description and is therefore dropped.
pub open spec fn spec_process_item(nodes: Seq<XmlNodeV>, item_id: u64) -> Option<ItemV> {
    let text = match spec_child_text(nodes, item_id, "title"@) {
        Some(t) => Some(t),
        None => spec_child_text(nodes, item_id, "description"@),
    };
    match text {
        None => None,
        Some(t) => {
            let link = spec_child_text(nodes, item_id, "link"@);
            Some(ItemV {
                title_or_description: t,
                title_or_description_hash: identity_of(t, link),
                link,
                pub_date: match spec_child_text(nodes, item_id, "pubDate"@) {
                    Some(d) => rfc2822_timestamp_of(d),
                    None => None,
                },
                read: false,
            })
        },
    }
}

/// What an Atom `entry` element yields; entries without a title are
/// dropped.
pub open spec fn spec_process_atom_entry(nodes: Seq<XmlNodeV>, entry_id: u64) -> Option<ItemV> {
    match spec_child_text_atom(nodes, entry_id, "title"@) {
        None => None,
        Some(t) => {
            let link = match spec_named_child_atom(nodes, entry_id, "link"@) {
                Some(lt) => spec_attr(lt.attrs, "href"@),
                None => None,
            };
            Some(ItemV {
                title_or_description: t,
                title_or_description_hash: identity_of(t, link),
                link,
                pub_date: match spec_child_text_atom(nodes, entry_id, "updated"@) {
                    Some(d) => rfc3339_timestamp_of(d),
                    None => None,
                },
                read: false,
            })
        },
    }
}

/// `e` is a child of `parent` tagged `item` (in any namespace, as in the
/// RSS item selection rule).
pub open spec fn is_item_tag(e: XmlNodeV, parent: u64) -> bool {
    e.parent == parent && e.name == "item"@
}

/// `e` is a child of `parent` tagged `entry`.
pub open spec fn is_entry_tag(e: XmlNodeV, parent: u64) -> bool {
    e.parent == parent && e.name == "entry"@
}

/// The items produced by scanning `scan` for `item` children of `parent`,
/// with child lookups done in `nodes`.
pub open spec fn rss_items_in(nodes: Seq<XmlNodeV>, scan: Seq<XmlNodeV>, parent: u64) -> Seq<ItemV>
    decreases scan.len(),
{
    if scan.len() == 0 {
        Seq::empty()
    } else {
        rss_items_in(nodes, scan.drop_last(), parent) + (
        if is_item_tag(scan.last(), parent) {
            match spec_process_item(nodes, scan.last().id) {
                Some(iv) => seq![iv],
                None => Seq::empty(),
            }
        } else {
            Seq::empty()
        })
    }
}

/// All items of the RSS channel rooted at `parent`, in document order.
pub open spec fn spec_rss_items(nodes: Seq<XmlNodeV>, parent: u64) -> Seq<ItemV> {
    rss_items_in(nodes, nodes, parent)
}

/// As [`rss_items_in`], for Atom entries.
pub open spec fn atom_entries_in(nodes: Seq<XmlNodeV>, scan: Seq<XmlNodeV>, parent: u64) -> Seq<ItemV>
    decreases scan.len(),
{
    if scan.len() == 0 {
        Seq::empty()
    } else {
        atom_entries_in(nodes, scan.drop_last(), parent) + (
        if is_entry_tag(scan.last(), parent) {
            match spec_process_atom_entry(nodes, scan.last().id) {
                Some(iv) => seq![iv],
                None => Seq::empty(),
            }
        } else {
            Seq::empty()
        })
    }
}

/// All entries of the Atom feed rooted at `parent`, in document order.
pub open spec fn spec_atom_entries(nodes: Seq<XmlNodeV>, parent: u64) -> Seq<ItemV> {
    atom_entries_in(nodes, nodes, parent)
}

/// The channel an RSS document denotes: a `channel` child of the root
/// with mandatory `title` and `link`, an optional `description` (empty
/// when absent), an optional `lastBuildDate` in RFC 2822 form (dropped
/// when unparsable), and its items.
pub open spec fn spec_parse_rss(nodes: Seq<XmlNodeV>, root_id: u64) -> Result<ChannelV, XmlError> {
    match spec_named_child(nodes, root_id, "channel"@) {
        None => Err(XmlError::NoChannelTag),
        Some(ch) => match spec_child_text(nodes, ch.id, "title"@) {
            None => Err(XmlError::NoTitle),
            Some(title) => match spec_child_text(nodes, ch.id, "link"@) {
                None => Err(XmlError::NoLink),
                Some(link) => Ok(ChannelV {
                    title,
                    link,
                    description: match spec_child_text(nodes, ch.id, "description"@) {
                        Some(d) => d,
                        None => Seq::empty(),
                    },
                    last_build_date: match spec_child_text(nodes, ch.id, "lastBuildDate"@) {
                        Some(d) => rfc2822_timestamp_of(d),
                        None => None,
                    },
                    items: spec_rss_items(nodes, ch.id),
                }),
            },
        },
    }
}

/// The channel an Atom document denotes: mandatory `title`, a mandatory
/// `link` child with `rel="self"` and an `href` (a stricter rule than the
/// Atom specification), no description, an optional `updated` date in
/// RFC 3339 form, and its entries.
pub open spec fn spec_parse_atom(nodes: Seq<XmlNodeV>, root_id: u64) -> Result<ChannelV, XmlError> {
    match spec_child_text_atom(nodes, root_id, "title"@) {
        None => Err(XmlError::NoTitle),
        Some(title) => match spec_atom_self_link(nodes, root_id) {
            None => Err(XmlError::NoLink),
            Some(lt) => match spec_attr(lt.attrs, "href"@) {
                None => Err(XmlError::NoLink),
                Some(link) => Ok(ChannelV {
                    title,
                    link,
                    description: Seq::empty(),
                    last_build_date: match spec_child_text_atom(nodes, root_id, "updated"@) {
                        Some(d) => rfc3339_timestamp_of(d),
                        None => None,
                    },
                    items: spec_atom_entries(nodes, root_id),
                }),
            },
        },
    }
}

/// The channel a parsed document denotes: the dialect is read off the
/// root element once — `rss` outside any namespace is RSS, a root in the
/// Atom namespace is Atom, anything else is unknown.
pub open spec fn spec_channel_of(d: XmlDocV) -> Result<ChannelV, XmlError> {
    match spec_root_elem(d.nodes) {
        None => Err(XmlError::UnknownFormat),
        Some(root) => if root.ns == Some(atom_ns()) {
            spec_parse_atom(d.nodes, root.id)
        } else if root.ns is None && root.name == "rss"@ {
            spec_parse_rss(d.nodes, root.id)
        } else {
            Err(XmlError::UnknownFormat)
        },
    }
}

/// The view of a parse result.
pub open spec fn res_view(r: Result<Channel, XmlError>) -> Result<ChannelV, XmlError> {
    match r {
        Ok(c) => Ok(c@),
        Err(e) => Err(e),
    }
}

/// Find the first RSS-style child of `parent` named `name`, scanning from
/// node `i` on.
fn named_child_from(doc: &XmlDoc, parent: u64, name: &str, i: usize) -> (r: Option<usize>)
    requires
        i <= doc.nodes@.len(),
    ensures
        match r {
            Some(k) => i <= k < doc@.nodes.len()
                && spec_named_child(doc@.nodes.skip(i as int), parent, name@)
                    == Some(doc@.nodes[k as int]),
            None => spec_named_child(doc@.nodes.skip(i as int), parent, name@) is None,
        },
    decreases doc.nodes@.len() - i,
{
    if i >= doc.nodes.len() {
        return None;
    }
    let e = &doc.nodes[i];
    let m = e.parent == parent && e.ns.is_none() && str_eq(e.name.as_str(), name);
    proof {
        assert(doc@.nodes[i as int] == doc.nodes@[i as int].deep_view());
        assert(doc@.nodes.skip(i as int)[0] == doc@.nodes[i as int]);
        assert(m == is_named_child(doc@.nodes[i as int], parent, name@));
    }
    if m {
        Some(i)
    } else {
        let r = named_child_from(doc, parent, name, i + 1);
        proof {
            assert(doc@.nodes.skip(i as int).drop_first() =~= doc@.nodes.skip((i + 1) as int));
        }
        r
    }
}

/// As [`named_child_from`], with the Atom namespace rule.
fn atom_child_from(doc: &XmlDoc, parent: u64, name: &str, i: usize) -> (r: Option<usize>)
    requires
        i <= doc.nodes@.len(),
    ensures
        match r {
            Some(k) => i <= k < doc@.nodes.len()
                && spec_named_child_atom(doc@.nodes.skip(i as int), parent, name@)
                    == Some(doc@.nodes[k as int]),
            None => spec_named_child_atom(doc@.nodes.skip(i as int), parent, name@) is None,
        },
    decreases doc.nodes@.len() - i,
{
    if i >= doc.nodes.len() {
        return None;
    }
    let e = &doc.nodes[i];
    let in_atom_ns = match &e.ns {
        Some(n) => str_eq(n.as_str(), "http://www.w3.org/2005/Atom"),
        None => false,
    };
    let m = e.parent == parent && in_atom_ns && str_eq(e.name.as_str(), name);
    proof {
        assert(doc@.nodes[i as int] == doc.nodes@[i as int].deep_view());
        assert(doc@.nodes.skip(i as int)[0] == doc@.nodes[i as int]);
        assert(m == is_named_child_atom(doc@.nodes[i as int], parent, name@));
    }
    if m {
        Some(i)
    } else {
        let r = atom_child_from(doc, parent, name, i + 1);
        proof {
            assert(doc@.nodes.skip(i as int).drop_first() =~= doc@.nodes.skip((i + 1) as int));
        }
        r
    }
}

/// Find the value of the attribute named `name`, scanning from entry `i`.
fn attr_from(node: &XmlNode, name: &str, i: usize) -> (r: Option<String>)
    requires
        i <= node.attrs@.len(),
    ensures
        r.deep_view() == spec_attr(node@.attrs.skip(i as int), name@),
    decreases node.attrs@.len() - i,
{
    if i >= node.attrs.len() {
        return None;
    }
    let a = &node.attrs[i];
    let m = str_eq(a.0.as_str(), name);
    proof {
        assert(node@.attrs[i as int] == node.attrs@[i as int].deep_view());
        assert(node@.attrs.skip(i as int)[0] == node@.attrs[i as int]);
    }
    if m {
        Some(a.1.clone())
    } else {
        let r = attr_from(node, name, i + 1);
        proof {
            assert(node@.attrs.skip(i as int).drop_first() =~= node@.attrs.skip((i + 1) as int));
        }
        r
    }
}

/// The value of a node's attribute with the given local name.
fn get_attr(node: &XmlNode, name: &str) -> (r: Option<String>)
    ensures
        r.deep_view() == spec_attr(node@.attrs, name@),
{
    proof {
        assert(node@.attrs.skip(0) =~= node@.attrs);
    }
    attr_from(node, name, 0)
}

/// Find the document's root element, scanning from node `i`.
fn root_elem_from(doc: &XmlDoc, i: usize) -> (r: Option<usize>)
    requires
        i <= doc.nodes@.len(),
    ensures
        match r {
            Some(k) => i <= k < doc@.nodes.len()
                && spec_root_elem(doc@.nodes.skip(i as int)) == Some(doc@.nodes[k as int]),
            None => spec_root_elem(doc@.nodes.skip(i as int)) is None,
        },
    decreases doc.nodes@.len() - i,
{
    if i >= doc.nodes.len() {
        return None;
    }
    let e = &doc.nodes[i];
    let m = e.parent == 0 && e.name.as_str().unicode_len() > 0;
    proof {
        assert(doc@.nodes[i as int] == doc.nodes@[i as int].deep_view());
        assert(doc@.nodes.skip(i as int)[0] == doc@.nodes[i as int]);
        assert(m == is_root_elem(doc@.nodes[i as int]));
    }
    if m {
        Some(i)
    } else {
        let r = root_elem_from(doc, i + 1);
        proof {
            assert(doc@.nodes.skip(i as int).drop_first() =~= doc@.nodes.skip((i + 1) as int));
        }
        r
    }
}

/// Find the Atom self link of `parent`, scanning from node `i`.
fn atom_self_link_from(doc: &XmlDoc, parent: u64, i: usize) -> (r: Option<usize>)
    requires
        i <= doc.nodes@.len(),
    ensures
        match r {
            Some(k) => i <= k < doc@.nodes.len()
                && spec_atom_self_link(doc@.nodes.skip(i as int), parent)
                    == Some(doc@.nodes[k as int]),
            None => spec_atom_self_link(doc@.nodes.skip(i as int), parent) is None,
        },
    decreases doc.nodes@.len() - i,
{
    if i >= doc.nodes.len() {
        return None;
    }
    let e = &doc.nodes[i];
    let in_atom_ns = match &e.ns {
        Some(n) => str_eq(n.as_str(), "http://www.w3.org/2005/Atom"),
        None => false,
    };
    let rel_is_self = match get_attr(e, "rel") {
        Some(v) => str_eq(v.as_str(), "self"),
        None => false,
    };
    let m = e.parent == parent && in_atom_ns && str_eq(e.name.as_str(), "link")
        && rel_is_self;
    proof {
        assert(doc@.nodes[i as int] == doc.nodes@[i as int].deep_view());
        assert(doc@.nodes.skip(i as int)[0] == doc@.nodes[i as int]);
        assert(m == is_atom_self_link(doc@.nodes[i as int], parent));
    }
    if m {
        Some(i)
    } else {
        let r = atom_self_link_from(doc, parent, i + 1);
        proof {
            assert(doc@.nodes.skip(i as int).drop_first() =~= doc@.nodes.skip((i + 1) as int));
        }
        r
    }
}

/// Find the first RSS-style child of `parent` with the given name.
fn get_named_child(doc: &XmlDoc, parent: u64, name: &str) -> (r: Option<usize>)
    ensures
        match r {
            Some(k) => k < doc@.nodes.len()
                && spec_named_child(doc@.nodes, parent, name@) == Some(doc@.nodes[k as int]),
            None => spec_named_child(doc@.nodes, parent, name@) is None,
        },
{
    proof {
        assert(doc@.nodes.skip(0) =~= doc@.nodes);
    }
    named_child_from(doc, parent, name, 0)
}

/// Find the first Atom-style child of `parent` with the given name.
fn get_named_child_atom(doc: &XmlDoc, parent: u64, name: &str) -> (r: Option<usize>)
    ensures
        match r {
            Some(k) => k < doc@.nodes.len()
                && spec_named_child_atom(doc@.nodes, parent, name@) == Some(doc@.nodes[k as int]),
            None => spec_named_child_atom(doc@.nodes, parent, name@) is None,
        },
{
    proof {
        assert(doc@.nodes.skip(0) =~= doc@.nodes);
    }
    atom_child_from(doc, parent, name, 0)
}

/// The text of the first matching RSS-style child.
fn get_text_from_child(doc: &XmlDoc, parent: u64, name: &str) -> (r: Option<String>)
    ensures
        r.deep_view() == spec_child_text(doc@.nodes, parent, name@),
{
    match get_named_child(doc, parent, name) {
        Some(i) => match &doc.nodes[i].text {
            Some(t) => Some(t.clone()),
            None => None,
        },
        None => None,
    }
}

/// The text of the first matching Atom-style child.
fn get_text_from_child_atom(doc: &XmlDoc, parent: u64, name: &str) -> (r: Option<String>)
    ensures
        r.deep_view() == spec_child_text_atom(doc@.nodes, parent, name@),
{
    match get_named_child_atom(doc, parent, name) {
        Some(i) => match &doc.nodes[i].text {
            Some(t) => Some(t.clone()),
            None => None,
        },
        None => None,
    }
}

/// Build the item an RSS `item` element denotes, if it has a title or a
/// description.
fn process_item(doc: &XmlDoc, item_id: u64) -> (r: Option<Item>)
    ensures
        r.deep_view() == spec_process_item(doc@.nodes, item_id),
{
    let text = match get_text_from_child(doc, item_id, "title") {
        Some(t) => Some(t),
        None => get_text_from_child(doc, item_id, "description"),
    };
    match text {
        None => None,
        Some(t) => {
            let link = get_text_from_child(doc, item_id, "link");
            let pub_date = match get_text_from_child(doc, item_id, "pubDate") {
                Some(d) => parse_rfc2822(d.as_str()),
                None => None,
            };
            let item = Item::new(t, link, pub_date);
            proof {
                assert(Some(item@) =~= spec_process_item(doc@.nodes, item_id));
            }
            Some(item)
        },
    }
}

/// Build the item an Atom `entry` element denotes, if it has a title.
fn process_atom_entry(doc: &XmlDoc, entry_id: u64) -> (r: Option<Item>)
    ensures
        r.deep_view() == spec_process_atom_entry(doc@.nodes, entry_id),
{
    match get_text_from_child_atom(doc, entry_id, "title") {
        None => None,
        Some(t) => {
            let link = match get_named_child_atom(doc, entry_id, "link") {
                Some(i) => get_attr(&doc.nodes[i], "href"),
                None => None,
            };
            let pub_date = match get_text_from_child_atom(doc, entry_id, "updated") {
                Some(d) => parse_rfc3339(d.as_str()),
                None => None,
            };
            let item = Item::new(t, link, pub_date);
            proof {
                assert(Some(item@) =~= spec_process_atom_entry(doc@.nodes, entry_id));
            }
            Some(item)
        },
    }
}

/// Collect the items of the RSS channel element with id `parent`.
fn collect_rss_items(doc: &XmlDoc, parent: u64) -> (r: Vec<Item>)
    ensures
        r.deep_view() == spec_rss_items(doc@.nodes, parent),
{
    let mut out: Vec<Item> = Vec::new();
    let mut i: usize = 0;
    while i < doc.nodes.len()
        invariant
            0 <= i <= doc.nodes@.len(),
            out.deep_view() == rss_items_in(doc@.nodes, doc@.nodes.take(i as int), parent),
        decreases doc.nodes@.len() - i,
    {
        let e = &doc.nodes[i];
        let ghost prev = out.deep_view();
        proof {
            assert(doc@.nodes[i as int] == doc.nodes@[i as int].deep_view());
            assert(doc@.nodes.take((i + 1) as int).drop_last() =~= doc@.nodes.take(i as int));
            assert(doc@.nodes.take((i + 1) as int).last() == doc@.nodes[i as int]);
        }
        if str_eq(e.name.as_str(), "item") && e.parent == parent {
            match process_item(doc, e.id) {
                Some(item) => {
                    out.push(item);
                    proof {
                        assert(out.deep_view() =~= prev.push(item@));
                    }
                },
                None => {},
            }
        }
        proof {
            assert(out.deep_view() =~= rss_items_in(doc@.nodes, doc@.nodes.take((i + 1) as int), parent));
        }
        i = i + 1;
    }
    proof {
        assert(doc@.nodes.take(doc@.nodes.len() as int) =~= doc@.nodes);
    }
    out
}

/// Collect the entries of the Atom feed element with id `parent`.
fn collect_atom_entries(doc: &XmlDoc, parent: u64) -> (r: Vec<Item>)
    ensures
        r.deep_view() == spec_atom_entries(doc@.nodes, parent),
{
    let mut out: Vec<Item> = Vec::new();
    let mut i: usize = 0;
    while i < doc.nodes.len()
        invariant
            0 <= i <= doc.nodes@.len(),
            out.deep_view() == atom_entries_in(doc@.nodes, doc@.nodes.take(i as int), parent),
        decreases doc.nodes@.len() - i,
    {
        let e = &doc.nodes[i];
        let ghost prev = out.deep_view();
        proof {
            assert(doc@.nodes[i as int] == doc.nodes@[i as int].deep_view());
            assert(doc@.nodes.take((i + 1) as int).drop_last() =~= doc@.nodes.take(i as int));
            assert(doc@.nodes.take((i + 1) as int).last() == doc@.nodes[i as int]);
        }
        if str_eq(e.name.as_str(), "entry") && e.parent == parent {
            match process_atom_entry(doc, e.id) {
                Some(item) => {
                    out.push(item);
                    proof {
                        assert(out.deep_view() =~= prev.push(item@));
                    }
                },
                None => {},
            }
        }
        proof {
            assert(out.deep_view() =~= atom_entries_in(doc@.nodes, doc@.nodes.take((i + 1) as int), parent));
        }
        i = i + 1;
    }
    proof {
        assert(doc@.nodes.take(doc@.nodes.len() as int) =~= doc@.nodes);
    }
    out
}

/// Parse a document whose root element is an RSS root.
fn parse_rss(doc: &XmlDoc, root_id: u64) -> (r: Result<Channel, XmlError>)
    ensures
        res_view(r) == spec_parse_rss(doc@.nodes, root_id),
{
    let ch = match get_named_child(doc, root_id, "channel") {
        Some(i) => doc.nodes[i].id,
        None => {
            return Err(XmlError::NoChannelTag);
        },
    };
    let title = match get_text_from_child(doc, ch, "title") {
        Some(t) => t,
        None => {
            return Err(XmlError::NoTitle);
        },
    };
    let link = match get_text_from_child(doc, ch, "link") {
        Some(l) => l,
        None => {
            return Err(XmlError::NoLink);
        },
    };
    let description = match get_text_from_child(doc, ch, "description") {
        Some(d) => d,
        None => String::new(),
    };
    let last_build_date = match get_text_from_child(doc, ch, "lastBuildDate") {
        Some(d) => parse_rfc2822(d.as_str()),
        None => None,
    };
    let items = collect_rss_items(doc, ch);
    let out = Channel { title, link, description, last_build_date, items };
    proof {
        assert(Ok::<ChannelV, XmlError>(out@) =~= spec_parse_rss(doc@.nodes, root_id));
    }
    Ok(out)
}

/// Parse a document whose root element is an Atom root.
fn parse_atom(doc: &XmlDoc, root_id: u64) -> (r: Result<Channel, XmlError>)
    ensures
        res_view(r) == spec_parse_atom(doc@.nodes, root_id),
{
    let title = match get_text_from_child_atom(doc, root_id, "title") {
        Some(t) => t,
        None => {
            return Err(XmlError::NoTitle);
        },
    };
    let link = match atom_self_link_from(doc, root_id, 0) {
        Some(i) => match get_attr(&doc.nodes[i], "href") {
            Some(h) => h,
            None => {
                proof {
                    assert(doc@.nodes.skip(0) =~= doc@.nodes);
                }
                return Err(XmlError::NoLink);
            },
        },
        None => {
            proof {
                assert(doc@.nodes.skip(0) =~= doc@.nodes);
            }
            return Err(XmlError::NoLink);
        },
    };
    proof {
        assert(doc@.nodes.skip(0) =~= doc@.nodes);
    }
    let last_build_date = match get_text_from_child_atom(doc, root_id, "updated") {
        Some(d) => parse_rfc3339(d.as_str()),
        None => None,
    };
    let items = collect_atom_entries(doc, root_id);
    let out = Channel {
        title,
        link,
        description: String::new(),
        last_build_date,
        items,
    };
    proof {
        assert(Ok::<ChannelV, XmlError>(out@) =~= spec_parse_atom(doc@.nodes, root_id));
    }
    Ok(out)
}

/// Turn an already-parsed document into a channel, applying the dialect
/// rules of [`spec_channel_of`].
pub fn channel_from_doc(doc: &XmlDoc) -> (r: Result<Channel, XmlError>)
    ensures
        res_view(r) == spec_channel_of(doc@),
{
    proof {
        assert(doc@.nodes.skip(0) =~= doc@.nodes);
    }
    let root = match root_elem_from(doc, 0) {
        Some(i) => &doc.nodes[i],
        None => {
            return Err(XmlError::UnknownFormat);
        },
    };
    let in_atom_ns = match &root.ns {
        Some(n) => str_eq(n.as_str(), "http://www.w3.org/2005/Atom"),
        None => false,
    };
    if in_atom_ns {
        parse_atom(doc, root.id)
    } else if root.ns.is_none() && str_eq(root.name.as_str(), "rss") {
        parse_rss(doc, root.id)
    } else {
        Err(XmlError::UnknownFormat)
    }
}

/// Turn a document string into a channel. Works for both RSS and Atom; a
/// malformed document is rejected before dialect detection is attempted.
pub fn xml_to_rss(xml_source: &str) -> (r: Result<Channel, XmlError>)
    ensures
        match xml_tree_of(xml_source@) {
            None => r == Err::<Channel, XmlError>(XmlError::ParserFailed),
            Some(d) => res_view(r) == spec_channel_of(d),
        },
{
    match parse_xml(xml_source) {
        None => Err(XmlError::ParserFailed),
        Some(doc) => channel_from_doc(&doc),
    }
}

} // verus!
