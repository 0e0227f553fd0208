//! The JSON document that describes a session.
use vstd::prelude::*;

use crate::refs::text_view;
use crate::text::{chars_of, text_of, trim, trimmed};

verus! {

/// A JSON value of the parser.
#[verifier::external_type_specification]
#[verifier::external_body]
pub struct ExValue(serde_json::Value);

/// What the parser says of text that is no JSON.
#[verifier::external_type_specification]
#[verifier::external_body]
pub struct ExError(serde_json::Error);

/// What stands at one place of a JSON document.
pub enum Node {
    /// `null`
    Null,
    /// `true` or `false`
    Bool,
    /// A number, as it is written out.
    Number(String),
    /// A string.
    Text(String),
    /// An array.
    Array,
    /// An object.
    Object,
}

/// The view of a [`Node`].
pub enum NodeView {
    /// `null`
    Null,
    /// `true` or `false`
    Bool,
    /// A number, as it is written out.
    Number(Seq<char>),
    /// A string.
    Text(Seq<char>),
    /// An array.
    Array,
    /// An object.
    Object,
}

impl View for Node {
    type V = NodeView;

    open spec fn view(&self) -> NodeView {
        match self {
            Node::Null => NodeView::Null,
            Node::Bool => NodeView::Bool,
            Node::Number(text) => NodeView::Number(text@),
            Node::Text(text) => NodeView::Text(text@),
            Node::Array => NodeView::Array,
            Node::Object => NodeView::Object,
        }
    }
}

/// The places of the document `root`: what stands where each JSON pointer leads.
pub uninterp spec fn json_nodes(root: serde_json::Value) -> Map<Seq<char>, NodeView>;

/// The places of the document that `text` spells, if it spells one.
pub uninterp spec fn json_document(text: Seq<char>) -> Option<Map<Seq<char>, NodeView>>;

/// `serde_json::from_str` into a `Value`: whether the text is JSON, and the document
/// that it spells, follow from the text.
#[verifier::external_body]
fn parse_json(text: &str) -> (r: Result<serde_json::Value, serde_json::Error>)
    ensures
        match r {
            Ok(root) => json_document(text@) == Some(json_nodes(root)),
            Err(_) => json_document(text@) is None,
        },
{
    serde_json::from_str(text)
}

/// `Value::pointer`: what stands where `pointer` leads, and `None` where it leads
/// nowhere. The empty pointer leads to the whole document. A number is given as
/// `Number` displays it.
#[verifier::external_body]
fn node_at(root: &serde_json::Value, pointer: &str) -> (r: Option<Node>)
    ensures
        match r {
            Some(node) => json_nodes(*root).contains_key(pointer@) && node@ == json_nodes(
                *root,
            )[pointer@],
            None => !json_nodes(*root).contains_key(pointer@),
        },
        pointer@.len() == 0 ==> r is Some,
{
    match root.pointer(pointer)? {
        serde_json::Value::Null => Some(Node::Null),
        serde_json::Value::Bool(_) => Some(Node::Bool),
        serde_json::Value::Number(number) => Some(Node::Number(number.to_string())),
        serde_json::Value::String(text) => Some(Node::Text(text.clone())),
        serde_json::Value::Array(_) => Some(Node::Array),
        serde_json::Value::Object(_) => Some(Node::Object),
    }
}

/// The text that a field holds: a string that is not empty, or a number as it is
/// written out.
pub open spec fn node_text(node: NodeView) -> Option<Seq<char>> {
    match node {
        NodeView::Text(text) if text.len() > 0 => Some(text),
        NodeView::Number(text) => Some(text),
        _ => None,
    }
}

/// The text of the field that `pointer` leads to.
pub open spec fn field_text(nodes: Map<Seq<char>, NodeView>, pointer: Seq<char>) -> Option<
    Seq<char>,
> {
    if nodes.contains_key(pointer) {
        node_text(nodes[pointer])
    } else {
        None
    }
}

/// The text that a numeric field is read from: a number as it is written out, or a string.
pub open spec fn node_number(node: NodeView) -> Option<Seq<char>> {
    match node {
        NodeView::Number(text) => Some(text),
        NodeView::Text(text) => Some(text),
        _ => None,
    }
}

/// The text that the numeric field at `pointer` is read from.
pub open spec fn field_number(nodes: Map<Seq<char>, NodeView>, pointer: Seq<char>) -> Option<
    Seq<char>,
> {
    if nodes.contains_key(pointer) {
        node_number(nodes[pointer])
    } else {
        None
    }
}

/// The text of a node.
pub fn text_in(node: Node) -> (r: Option<String>)
    ensures
        text_view(r) == node_text(node@),
{
    match node {
        Node::Text(text) => if text.as_str().is_empty() {
            None
        } else {
            Some(text)
        },
        Node::Number(text) => Some(text),
        _ => None,
    }
}

/// The text that a numeric node is read from.
pub fn number_in(node: Node) -> (r: Option<String>)
    ensures
        text_view(r) == node_number(node@),
{
    match node {
        Node::Number(text) => Some(text),
        Node::Text(text) => Some(text),
        _ => None,
    }
}

/// The text of a field: an empty string counts as absent, a number as its digits.
pub fn get_text(root: &serde_json::Value, pointer: &str) -> (r: Option<String>)
    ensures
        text_view(r) == field_text(json_nodes(*root), pointer@),
{
    match node_at(root, pointer) {
        Some(node) => text_in(node),
        None => None,
    }
}

/// The text that a numeric field is read from: a number or a string.
pub fn get_number_text(root: &serde_json::Value, pointer: &str) -> (r: Option<String>)
    ensures
        text_view(r) == field_number(json_nodes(*root), pointer@),
{
    match node_at(root, pointer) {
        Some(node) => number_in(node),
        None => None,
    }
}

/// Whether a document describes a session: an object does, and so does `null`, which
/// describes one of which nothing is known.
pub open spec fn describes_session(node: NodeView) -> bool {
    node is Null || node is Object
}

/// Whether a node at the top of a document describes a session.
pub fn is_session(node: &Node) -> (r: bool)
    ensures
        r == describes_session(node@),
{
    match node {
        Node::Null | Node::Object => true,
        _ => false,
    }
}

/// The places of the document that describes a session, with white space around it taken
/// away.
pub open spec fn session_document(text: Seq<char>) -> Option<Map<Seq<char>, NodeView>> {
    match json_document(trimmed(text)) {
        Some(nodes) if nodes.contains_key(Seq::empty()) && describes_session(
            nodes[Seq::empty()],
        ) => Some(nodes),
        _ => None,
    }
}

/// Reads the document that describes a session. `None` where the text is no JSON, or is
/// neither an object nor `null`.
pub fn parse_session(raw: &str) -> (r: Option<serde_json::Value>)
    ensures
        match r {
            Some(root) => session_document(raw@) == Some(json_nodes(root)),
            None => session_document(raw@) is None,
        },
{
    let chars = chars_of(raw);
    let text = text_of(trim(chars.as_slice()));
    let root = match parse_json(text.as_str()) {
        Ok(root) => root,
        Err(_) => {
            return None;
        },
    };
    proof {
        reveal_strlit("");
        assert(""@ == Seq::<char>::empty());
    }
    match node_at(&root, "") {
        Some(node) => if is_session(&node) {
            Some(root)
        } else {
            None
        },
        None => None,
    }
}

} // verus!
