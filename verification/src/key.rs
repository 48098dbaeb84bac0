//! Keys and node identities: opaque, copyable handles into a document's tables.

use crate::element::Element;
use vstd::prelude::*;

verus! {

/// An opaque handle naming one slot of a document's tables.
///
/// A key carries no payload. Two keys are equal exactly when they name the
/// same slot, and a document never hands out one slot number twice.
#[derive(Debug, PartialEq, Eq, Structural, Copy, Clone, Hash)]
pub struct DocKey(pub(crate) usize);

impl DocKey {
    /// The number of the slot that the key names.
    pub closed spec fn index(self) -> nat {
        self.0 as nat
    }

    /// The key of slot `slot`.
    pub(crate) fn from_slot(slot: usize) -> (key: DocKey)
        ensures
            key.index() == slot,
    {
        DocKey(slot)
    }

    /// The slot number, for indexing a table.
    pub(crate) fn slot(self) -> (slot: usize)
        ensures
            slot == self.index(),
    {
        self.0
    }

    /// Keys that name the same slot are the same key.
    pub proof fn lemma_index_injective(a: DocKey, b: DocKey)
        ensures
            a.index() == b.index() <==> a == b,
    {
    }
}

/// The identity of a text node.
#[derive(Debug, PartialEq, Eq, Structural, Copy, Clone)]
pub struct Text(pub(crate) DocKey);

impl Text {
    /// The key that the identity wraps.
    pub closed spec fn key(self) -> DocKey {
        self.0
    }

    /// The text identity over `key`.
    pub(crate) fn from_key(key: DocKey) -> (text: Text)
        ensures
            text.key() == key,
    {
        Text(key)
    }

    /// The key that the identity wraps.
    pub fn as_key(&self) -> (key: DocKey)
        ensures
            key == self.key(),
    {
        self.0
    }

    /// The text node as a node.
    pub fn as_node(&self) -> (node: Node)
        ensures
            node == Node::Text(*self),
    {
        Node::Text(*self)
    }

    /// Text identities over the same key are the same identity.
    pub proof fn lemma_key_injective(a: Text, b: Text)
        ensures
            a.key() == b.key() <==> a == b,
    {
    }
}

/// The identity of a CDATA section.
#[derive(Debug, PartialEq, Eq, Structural, Copy, Clone)]
pub struct CDataSection(pub(crate) DocKey);

impl CDataSection {
    /// The key that the identity wraps.
    pub closed spec fn key(self) -> DocKey {
        self.0
    }

    /// The CDATA identity over `key`.
    pub(crate) fn from_key(key: DocKey) -> (cdata: CDataSection)
        ensures
            cdata.key() == key,
    {
        CDataSection(key)
    }

    /// The key that the identity wraps.
    pub fn as_key(&self) -> (key: DocKey)
        ensures
            key == self.key(),
    {
        self.0
    }

    /// The CDATA section as a node.
    pub fn as_node(&self) -> (node: Node)
        ensures
            node == Node::CDataSection(*self),
    {
        Node::CDataSection(*self)
    }

    /// CDATA identities over the same key are the same identity.
    pub proof fn lemma_key_injective(a: CDataSection, b: CDataSection)
        ensures
            a.key() == b.key() <==> a == b,
    {
    }
}

/// The identity of a comment.
#[derive(Debug, PartialEq, Eq, Structural, Copy, Clone)]
pub struct Comment(pub(crate) DocKey);

impl Comment {
    /// The key that the identity wraps.
    pub closed spec fn key(self) -> DocKey {
        self.0
    }

    /// The comment identity over `key`.
    pub(crate) fn from_key(key: DocKey) -> (comment: Comment)
        ensures
            comment.key() == key,
    {
        Comment(key)
    }

    /// The key that the identity wraps.
    pub fn as_key(&self) -> (key: DocKey)
        ensures
            key == self.key(),
    {
        self.0
    }

    /// The comment as a node.
    pub fn as_node(&self) -> (node: Node)
        ensures
            node == Node::Comment(*self),
    {
        Node::Comment(*self)
    }

    /// Comment identities over the same key are the same identity.
    pub proof fn lemma_key_injective(a: Comment, b: Comment)
        ensures
            a.key() == b.key() <==> a == b,
    {
    }
}

/// Any child an element can hold: one of the four node identities.
///
/// Two nodes are equal when they are of the same kind and wrap the same key.
#[derive(Debug, PartialEq, Eq, Structural, Copy, Clone)]
pub enum Node {
    Element(Element),
    Text(Text),
    CDataSection(CDataSection),
    Comment(Comment),
}

impl Node {
    /// The key that the node's identity wraps.
    pub open spec fn key(self) -> DocKey {
        match self {
            Node::Element(e) => e.key(),
            Node::Text(t) => t.key(),
            Node::CDataSection(c) => c.key(),
            Node::Comment(c) => c.key(),
        }
    }

    /// The key that the identity wraps.
    pub fn as_key(&self) -> (key: DocKey)
        ensures
            key == self.key(),
    {
        match self {
            Node::Element(e) => e.as_key(),
            Node::Text(t) => t.as_key(),
            Node::CDataSection(c) => c.as_key(),
            Node::Comment(c) => c.as_key(),
        }
    }

    /// The element identity, if the node is an element.
    pub fn as_element(&self) -> (element: Option<Element>)
        ensures
            element == (match *self {
                Node::Element(e) => Some(e),
                _ => None::<Element>,
            }),
    {
        match self {
            Node::Element(e) => Some(*e),
            _ => None,
        }
    }

    /// Nodes of one kind over the same key are the same node.
    pub proof fn lemma_same_kind_same_key(a: Node, b: Node)
        requires
            a.key() == b.key(),
            a is Element <==> b is Element,
            a is Text <==> b is Text,
            a is CDataSection <==> b is CDataSection,
        ensures
            a == b,
    {
        match (a, b) {
            (Node::Element(x), Node::Element(y)) => Element::lemma_key_injective(x, y),
            (Node::Text(x), Node::Text(y)) => Text::lemma_key_injective(x, y),
            (Node::CDataSection(x), Node::CDataSection(y)) => CDataSection::lemma_key_injective(
                x,
                y,
            ),
            (Node::Comment(x), Node::Comment(y)) => Comment::lemma_key_injective(x, y),
            _ => {},
        }
    }
}

impl From<Text> for Node {
    fn from(n: Text) -> (node: Node) {
        Node::Text(n)
    }
}

impl vstd::std_specs::convert::FromSpecImpl<Text> for Node {
    open spec fn obeys_from_spec() -> bool {
        true
    }

    open spec fn from_spec(n: Text) -> Node {
        Node::Text(n)
    }
}

impl From<CDataSection> for Node {
    fn from(n: CDataSection) -> (node: Node) {
        Node::CDataSection(n)
    }
}

impl vstd::std_specs::convert::FromSpecImpl<CDataSection> for Node {
    open spec fn obeys_from_spec() -> bool {
        true
    }

    open spec fn from_spec(n: CDataSection) -> Node {
        Node::CDataSection(n)
    }
}

impl From<Comment> for Node {
    fn from(n: Comment) -> (node: Node) {
        Node::Comment(n)
    }
}

impl vstd::std_specs::convert::FromSpecImpl<Comment> for Node {
    open spec fn obeys_from_spec() -> bool {
        true
    }

    open spec fn from_spec(n: Comment) -> Node {
        Node::Comment(n)
    }
}

} // verus!
