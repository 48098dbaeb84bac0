//! What the arena stores for each node.

use crate::key::Node;
use vstd::pervasive::unreached;
use vstd::prelude::*;

verus! {

/// The payload of an element: its tag name and its children, in sibling order.
pub struct ElementValue {
    pub name: String,
    pub children: Vec<Node>,
}

/// The payload stored under one key.
pub enum ItemValue {
    Element(ElementValue),
    Text(String),
    CData(String),
    Comment(String),
}

/// An item as the contracts see it: strings as character sequences, the
/// children as a sequence of nodes.
pub enum ItemView {
    Element { name: Seq<char>, children: Seq<Node> },
    Text(Seq<char>),
    CData(Seq<char>),
    Comment(Seq<char>),
}

impl View for ElementValue {
    type V = ItemView;

    open spec fn view(&self) -> ItemView {
        ItemView::Element { name: self.name@, children: self.children@ }
    }
}

impl View for ItemValue {
    type V = ItemView;

    open spec fn view(&self) -> ItemView {
        match self {
            ItemValue::Element(e) => e@,
            ItemValue::Text(s) => ItemView::Text(s@),
            ItemValue::CData(s) => ItemView::CData(s@),
            ItemValue::Comment(s) => ItemView::Comment(s@),
        }
    }
}

impl ItemView {
    /// Whether a node of this kind is the right identity for the item.
    pub open spec fn is_kind_of(self, node: Node) -> bool {
        match self {
            ItemView::Element { .. } => node is Element,
            ItemView::Text(_) => node is Text,
            ItemView::CData(_) => node is CDataSection,
            ItemView::Comment(_) => node is Comment,
        }
    }
}

impl ItemValue {
    /// The element payload, if the item is an element.
    pub fn as_element(&self) -> (element: Option<&ElementValue>)
        ensures
            match element {
                Some(e) => *self == ItemValue::Element(*e),
                None => !(self@ is Element),
            },
    {
        match self {
            ItemValue::Element(e) => Some(e),
            _ => None,
        }
    }

    /// The element payload, for changing in place.
    pub fn as_element_mut(&mut self) -> (element: &mut ElementValue)
        requires
            old(self)@ is Element,
        ensures
            *old(self) == ItemValue::Element(*element),
            *final(self) == ItemValue::Element(*final(element)),
    {
        match self {
            ItemValue::Element(e) => e,
            _ => unreached(),
        }
    }
}

} // verus!
