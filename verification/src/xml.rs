//! Finding things in XML documents.
//!
//! A document is the list of its nodes in document order. What stands below a node are the
//! nodes that follow it directly and are deeper.
use vstd::prelude::*;

use crate::text::text_eq;

verus! {

/// A node of a document.
pub struct XmlNode {
    /// The local name of an element; empty for any other node.
    pub name: String,
    pub namespace: Option<String>,
    /// The text of a text node or of a comment, or of an element that begins with one.
    pub text: Option<String>,
    /// The local names and the values of the attributes, whatever their namespaces.
    pub attributes: Vec<(String, String)>,
    /// The number of nodes from the root of the document to this one.
    pub depth: usize,
}

#[verifier::ext_equal]
pub struct XmlView {
    pub name: Seq<char>,
    pub namespace: Option<Seq<char>>,
    pub text: Option<Seq<char>>,
    pub attributes: Seq<(Seq<char>, Seq<char>)>,
    pub depth: usize,
}

impl View for XmlNode {
    type V = XmlView;

    open spec fn view(&self) -> XmlView {
        XmlView {
            name: self.name@,
            namespace: crate::text::opt_text(self.namespace),
            text: crate::text::opt_text(self.text),
            attributes: pair_views(self.attributes@),
            depth: self.depth,
        }
    }
}

/// What pairs of texts say.
pub open spec fn pair_views(pairs: Seq<(String, String)>) -> Seq<(Seq<char>, Seq<char>)> {
    Seq::new(pairs.len(), |i: int| (pairs[i].0@, pairs[i].1@))
}

/// What a list of nodes says.
pub open spec fn node_views(nodes: Seq<XmlNode>) -> Seq<XmlView> {
    Seq::new(nodes.len(), |i: int| nodes[i]@)
}

/// The nodes of the document that a text is, in document order; none when it is not one.
pub uninterp spec fn xml_read(text: Seq<char>) -> Option<Seq<XmlView>>;

/// `roxmltree::Document::parse`, and of each node of `Document::descendants` what its methods
/// say of it: the root of the document and all that is below, in document order.
#[verifier::external_body]
pub(crate) fn read_xml(text: &str) -> (nodes: Option<Vec<XmlNode>>)
    ensures
        match nodes {
            Some(nodes) => xml_read(text@) == Some(node_views(nodes@)),
            None => xml_read(text@) is None,
        },
{
    let doc = roxmltree::Document::parse(text).ok()?;
    Some(doc.descendants().map(|n| XmlNode {
        name: n.tag_name().name().to_string(),
        namespace: n.tag_name().namespace().map(String::from),
        text: n.text().map(String::from),
        attributes: n.attributes().map(|a| (a.name().into(), a.value().into())).collect(),
        depth: n.ancestors().count(),
    }).collect())
}

// ── Below a node ──────────────────────────────────────────────────────────

/// The first place after `from` at which a node is not deeper than `depth`, or the end.
pub open spec fn rise(nodes: Seq<XmlView>, from: int, depth: int) -> int
    decreases nodes.len() - from,
{
    if from >= nodes.len() || nodes[from].depth <= depth {
        from
    } else {
        rise(nodes, from + 1, depth)
    }
}

/// Where the nodes below a node end. They begin right after it.
pub open spec fn below_end(nodes: Seq<XmlView>, at: int) -> int {
    rise(nodes, at + 1, nodes[at].depth as int)
}

pub fn end_of_below(nodes: &Vec<XmlNode>, at: usize) -> (end: usize)
    requires
        at < nodes@.len(),
    ensures
        end == below_end(node_views(nodes@), at as int),
        at < end <= nodes@.len(),
{
    let ghost all = node_views(nodes@);
    let depth = nodes[at].depth;
    let len: usize = nodes.len();
    let mut i: usize = at + 1;
    while i < len && nodes[i].depth > depth
        invariant
            all == node_views(nodes@),
            depth == all[at as int].depth,
            at < i <= nodes@.len() == len,
            below_end(all, at as int) == rise(all, i as int, depth as int),
        decreases nodes@.len() - i,
    {
        assert(all[i as int].depth == nodes@[i as int].depth);
        i = i + 1;
    }
    assert(i < nodes@.len() ==> all[i as int].depth == nodes@[i as int].depth);
    i
}

// ── Elements by name ──────────────────────────────────────────────────────

/// The first place from `from` to before `to` of an element with a name, or `to`.
pub open spec fn first_element(nodes: Seq<XmlView>, from: int, to: int, name: Seq<char>) -> int
    decreases to - from,
{
    if from >= to || nodes[from].name == name {
        from
    } else {
        first_element(nodes, from + 1, to, name)
    }
}

pub fn find_element(nodes: &Vec<XmlNode>, from: usize, to: usize, name: &str) -> (at: usize)
    requires
        from <= to <= nodes@.len(),
    ensures
        at == first_element(node_views(nodes@), from as int, to as int, name@),
        from <= at <= to,
{
    let ghost all = node_views(nodes@);
    let mut i: usize = from;
    while i < to
        invariant
            all == node_views(nodes@),
            from <= i <= to <= nodes@.len(),
            first_element(all, from as int, to as int, name@) == first_element(
                all,
                i as int,
                to as int,
                name@,
            ),
        decreases to - i,
    {
        assert(all[i as int].name == nodes@[i as int].name@);
        if text_eq(nodes[i].name.as_str(), name) {
            return i;
        }
        i = i + 1;
    }
    i
}

/// The text of the first element with a name among a node and what is below it.
pub open spec fn text_below(nodes: Seq<XmlView>, at: int, name: Seq<char>) -> Option<Seq<char>> {
    let end = below_end(nodes, at);
    let k = first_element(nodes, at, end, name);
    if k < end {
        nodes[k].text
    } else {
        None
    }
}

pub fn find_text_below<'a>(nodes: &'a Vec<XmlNode>, at: usize, name: &str) -> (text: Option<
    &'a String,
>)
    requires
        at < nodes@.len(),
    ensures
        text_of(text) == text_below(node_views(nodes@), at as int, name@),
{
    let end = end_of_below(nodes, at);
    let k = find_element(nodes, at, end, name);
    if k < end {
        assert(node_views(nodes@)[k as int] == nodes@[k as int]@);
        nodes[k].text.as_ref()
    } else {
        None
    }
}

/// The view of an optional reference to a text.
pub open spec fn text_of(text: Option<&String>) -> Option<Seq<char>> {
    match text {
        Some(t) => Some(t@),
        None => None,
    }
}

/// The first place from `from` to before `to` of an element with a name at a depth, or `to`.
pub open spec fn first_at_depth(
    nodes: Seq<XmlView>,
    from: int,
    to: int,
    depth: int,
    name: Seq<char>,
) -> int
    decreases to - from,
{
    if from >= to || (nodes[from].depth == depth && nodes[from].name == name) {
        from
    } else {
        first_at_depth(nodes, from + 1, to, depth, name)
    }
}

/// The text of the first child of a node that is an element with a name.
pub open spec fn child_text(nodes: Seq<XmlView>, at: int, name: Seq<char>) -> Option<Seq<char>> {
    let end = below_end(nodes, at);
    let k = first_at_depth(nodes, at + 1, end, nodes[at].depth + 1, name);
    if k < end {
        nodes[k].text
    } else {
        None
    }
}

pub fn find_child_text<'a>(nodes: &'a Vec<XmlNode>, at: usize, name: &str) -> (text: Option<
    &'a String,
>)
    requires
        at < nodes@.len(),
    ensures
        text_of(text) == child_text(node_views(nodes@), at as int, name@),
{
    let ghost all = node_views(nodes@);
    let end = end_of_below(nodes, at);
    let depth = nodes[at].depth;
    let mut i: usize = at + 1;
    while i < end
        invariant
            all == node_views(nodes@),
            at < nodes@.len(),
            depth == all[at as int].depth,
            end == below_end(all, at as int),
            at < i <= end <= nodes@.len(),
            first_at_depth(all, at + 1, end as int, depth + 1, name@) == first_at_depth(
                all,
                i as int,
                end as int,
                depth + 1,
                name@,
            ),
        decreases end - i,
    {
        assert(all[i as int] == nodes@[i as int]@);
        if nodes[i].depth > depth && nodes[i].depth - 1 == depth && text_eq(
            nodes[i].name.as_str(),
            name,
        ) {
            return nodes[i].text.as_ref();
        }
        i = i + 1;
    }
    None
}

/// The value of the first attribute with a local name. As in `roxmltree::Node::attribute`, a name
/// without a namespace stands for an attribute in any namespace or in none.
pub open spec fn attribute(
    attributes: Seq<(Seq<char>, Seq<char>)>,
    name: Seq<char>,
) -> Option<Seq<char>>
    decreases attributes.len(),
{
    if attributes.len() == 0 {
        None
    } else if attributes[0].0 == name {
        Some(attributes[0].1)
    } else {
        attribute(attributes.drop_first(), name)
    }
}

pub fn find_attribute<'a>(node: &'a XmlNode, name: &str) -> (value: Option<&'a String>)
    ensures
        text_of(value) == attribute(node@.attributes, name@),
{
    let ghost all = node@.attributes;
    let mut i: usize = 0;
    assert(all.skip(0) =~= all);
    while i < node.attributes.len()
        invariant
            all == node@.attributes,
            i <= all.len(),
            attribute(all, name@) == attribute(all.skip(i as int), name@),
        decreases all.len() - i,
    {
        assert(all.skip(i as int)[0] == all[i as int]);
        assert(all.skip(i as int).drop_first() =~= all.skip(i + 1));
        if text_eq(node.attributes[i].0.as_str(), name) {
            return Some(&node.attributes[i].1);
        }
        i = i + 1;
    }
    None
}

} // verus!
