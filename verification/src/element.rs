//! Elements: the nodes that carry a name, attributes and children.

use crate::attributes::{
    attr_entries, clone_table, lemma_put_keeps_distinct, lookup, names_distinct, new_table, put,
    table_get, table_insert,
};
use crate::document::Document;
use crate::key::{CDataSection, Comment, DocKey, Node, Text};
use crate::markup::{markup, write_element};
use crate::model::{
    first_element_from, last_element_before, lemma_walk_live, lemma_with_attrs, lemma_with_child,
    lemma_without_child, DocumentView,
};
use crate::select::{judged, lemma_picked_upto_prefix, picked, picked_upto, turned_down};
use crate::value::{ElementValue, ItemValue, ItemView};
use crate::walk::{lemma_walk_end, lemma_walk_step, walk_tree, Walk};
use indexmap::IndexMap;
use vstd::prelude::*;

verus! {

/// The identity of an element.
#[derive(Debug, PartialEq, Eq, Structural, Copy, Clone)]
pub struct Element(pub(crate) DocKey);

impl From<Element> for Node {
    /// The element as a node.
    fn from(n: Element) -> (node: Node) {
        Node::Element(n)
    }
}

impl vstd::std_specs::convert::FromSpecImpl<Element> for Node {
    open spec fn obeys_from_spec() -> bool {
        true
    }

    open spec fn from_spec(n: Element) -> Node {
        Node::Element(n)
    }
}

/// What a new element starts with: its tag name and its attributes.
#[derive(Debug)]
pub struct NewElement {
    pub name: String,
    pub attrs: IndexMap<String, String>,
}

impl Clone for NewElement {
    fn clone(&self) -> (copy: NewElement)
        ensures
            copy.name@ == self.name@,
            attr_entries(copy.attrs) == attr_entries(self.attrs),
    {
        NewElement { name: self.name.clone(), attrs: clone_table(&self.attrs) }
    }
}

impl Element {
    /// The key that the identity wraps.
    pub closed spec fn key(self) -> DocKey {
        self.0
    }

    /// The element identity over `key`.
    pub(crate) fn from_key(key: DocKey) -> (element: Element)
        ensures
            element.key() == key,
    {
        Element(key)
    }

    /// The key that the identity wraps.
    pub fn as_key(&self) -> (key: DocKey)
        ensures
            key == self.key(),
    {
        self.0
    }

    /// Element identities over the same key are the same identity.
    pub proof fn lemma_key_injective(a: Element, b: Element)
        ensures
            a.key() == b.key() <==> a == b,
    {
    }

    /// The element as a node.
    pub fn as_node(&self) -> (node: Node)
        ensures
            node == Node::Element(*self),
    {
        Node::from(*self)
    }

    /// Appends a new element, with the name and the attribute table given,
    /// as the last child.
    pub fn append_new_element(self, document: &mut Document, element: NewElement) -> (new: Element)
        requires
            old(document).wf(),
            old(document)@.is_element(self.key()),
        ensures
            final(document).wf(),
            new.key().index() == old(document)@.next,
            final(document)@ == old(document)@.with_child(
                self,
                Node::Element(new),
                ItemView::Element { name: element.name@, children: Seq::empty() },
            ).with_attrs(new.key(), attr_entries(element.attrs)),
            final(document)@.is_element(new.key()),
            final(document)@.parent_of(new.key()) == Some(self),
            final(document)@.children_of(self.key()) == old(document)@.children_of(
                self.key(),
            ).push(Node::Element(new)),
            !old(document)@.children_of(self.key()).contains(Node::Element(new)),
            final(document)@.attrs_of(new.key()) == attr_entries(element.attrs),
            old(document)@.names_unique() && names_distinct(attr_entries(element.attrs))
                ==> final(document)@.names_unique(),
    {
        let new_key = document.insert_item(
            ItemValue::Element(ElementValue { name: element.name, children: Vec::new() }),
        );
        document.set_attrs(new_key, element.attrs);
        document.set_parent(new_key, self);
        let new = Element(new_key);
        document.element_mut(self.0).children.push(Node::Element(new));
        proof {
            let item = ItemView::Element { name: element.name@, children: Seq::empty() };
            let grown = old(document)@.with_child(self, Node::Element(new), item);
            lemma_with_child(old(document)@, self, Node::Element(new), item);
            lemma_with_attrs(grown, new_key, attr_entries(element.attrs));
            assert(document@.items =~= grown.items);
        }
        new
    }

    /// Appends a new text node as the last child.
    pub fn append_text(self, document: &mut Document, text: &str) -> (new: Text)
        requires
            old(document).wf(),
            old(document)@.is_element(self.key()),
        ensures
            final(document).wf(),
            new.key().index() == old(document)@.next,
            final(document)@ == old(document)@.with_child(
                self,
                Node::Text(new),
                ItemView::Text(text@),
            ),
            final(document)@.parent_of(new.key()) == Some(self),
            final(document)@.children_of(self.key()) == old(document)@.children_of(
                self.key(),
            ).push(Node::Text(new)),
            !old(document)@.children_of(self.key()).contains(Node::Text(new)),
            old(document)@.names_unique() ==> final(document)@.names_unique(),
    {
        let new_key = document.insert_item(ItemValue::Text(text.to_owned()));
        document.set_parent(new_key, self);
        let new = Text::from_key(new_key);
        document.element_mut(self.0).children.push(Node::Text(new));
        proof {
            lemma_with_child(old(document)@, self, Node::Text(new), ItemView::Text(text@));
            assert(document@.items =~= old(document)@.with_child(
                self,
                Node::Text(new),
                ItemView::Text(text@),
            ).items);
        }
        new
    }

    /// Appends a new CDATA section as the last child.
    pub fn append_cdata(self, document: &mut Document, text: &str) -> (new: CDataSection)
        requires
            old(document).wf(),
            old(document)@.is_element(self.key()),
        ensures
            final(document).wf(),
            new.key().index() == old(document)@.next,
            final(document)@ == old(document)@.with_child(
                self,
                Node::CDataSection(new),
                ItemView::CData(text@),
            ),
            final(document)@.parent_of(new.key()) == Some(self),
            final(document)@.children_of(self.key()) == old(document)@.children_of(
                self.key(),
            ).push(Node::CDataSection(new)),
            !old(document)@.children_of(self.key()).contains(Node::CDataSection(new)),
            old(document)@.names_unique() ==> final(document)@.names_unique(),
    {
        let new_key = document.insert_item(ItemValue::CData(text.to_owned()));
        document.set_parent(new_key, self);
        let new = CDataSection::from_key(new_key);
        document.element_mut(self.0).children.push(Node::CDataSection(new));
        proof {
            lemma_with_child(
                old(document)@,
                self,
                Node::CDataSection(new),
                ItemView::CData(text@),
            );
            assert(document@.items =~= old(document)@.with_child(
                self,
                Node::CDataSection(new),
                ItemView::CData(text@),
            ).items);
        }
        new
    }

    /// Appends a new comment as the last child.
    pub fn append_comment(self, document: &mut Document, text: &str) -> (new: Comment)
        requires
            old(document).wf(),
            old(document)@.is_element(self.key()),
        ensures
            final(document).wf(),
            new.key().index() == old(document)@.next,
            final(document)@ == old(document)@.with_child(
                self,
                Node::Comment(new),
                ItemView::Comment(text@),
            ),
            final(document)@.parent_of(new.key()) == Some(self),
            final(document)@.children_of(self.key()) == old(document)@.children_of(
                self.key(),
            ).push(Node::Comment(new)),
            !old(document)@.children_of(self.key()).contains(Node::Comment(new)),
            old(document)@.names_unique() ==> final(document)@.names_unique(),
    {
        let new_key = document.insert_item(ItemValue::Comment(text.to_owned()));
        document.set_parent(new_key, self);
        let new = Comment::from_key(new_key);
        document.element_mut(self.0).children.push(Node::Comment(new));
        proof {
            lemma_with_child(old(document)@, self, Node::Comment(new), ItemView::Comment(text@));
            assert(document@.items =~= old(document)@.with_child(
                self,
                Node::Comment(new),
                ItemView::Comment(text@),
            ).items);
        }
        new
    }

    /// Removes `node` from the children of this element and drops it from
    /// the document. Does nothing where `node` is not among the children.
    ///
    /// What hangs below a removed element is not dropped with it: those
    /// nodes stay in the tables, out of reach from the root.
    pub fn remove_child(self, document: &mut Document, node: Node)
        requires
            old(document).wf(),
            old(document)@.is_element(self.key()),
        ensures
            final(document).wf(),
            final(document)@ == old(document)@.without_child(self, node),
            final(document)@.is_element(self.key()),
            old(document)@.children_of(self.key()).contains(node)
                ==> !final(document)@.items.contains_key(node.key()),
            !final(document)@.children_of(self.key()).contains(node),
            old(document)@.names_unique() ==> final(document)@.names_unique(),
    {
        let element = document.element_mut(self.0);
        match position(element.children.as_slice(), node) {
            Some(i) => {
                element.children.remove(i);
                proof {
                    lemma_place_of_child(old(document)@, self.key(), node, i as int);
                }
            },
            None => {
                proof {
                    assert(document@.items =~= old(document)@.items);
                    lemma_without_child(old(document)@, self, node);
                }
                return ;
            },
        }
        document.remove_item(node.as_key());
        document.remove_attrs(node.as_key());
        document.remove_parent(node.as_key());
        proof {
            lemma_without_child(old(document)@, self, node);
            assert(document@.items =~= old(document)@.without_child(self, node).items);
        }
    }

    /// The recorded parent: `None` for a root.
    pub fn parent(self, document: &Document) -> (parent: Option<Element>)
        ensures
            parent == document@.parent_of(self.key()),
    {
        document.parent_of(self.0)
    }

    /// The children of the element, in sibling order.
    pub fn children<'d>(self, document: &'d Document) -> (children: &'d [Node])
        requires
            document@.is_element(self.key()),
        ensures
            children@ == document@.children_of(self.key()),
    {
        document.element(self.0).children.as_slice()
    }

    /// The tag name of the element.
    pub fn name<'d>(&self, document: &'d Document) -> (name: &'d str)
        requires
            document@.is_element(self.key()),
        ensures
            name@ == document@.name_of(self.key()),
    {
        document.element(self.0).name.as_str()
    }

    /// The attribute table of the element. An element whose attributes were
    /// never set has a table without entries.
    pub fn attributes<'d>(&self, document: &'d Document) -> (table: &'d IndexMap<String, String>)
        requires
            document.wf(),
        ensures
            attr_entries(*table) == document@.attrs_of(self.key()),
            !document@.attrs.contains_key(self.key()) ==> attr_entries(*table).len() == 0,
    {
        document.attrs_or_empty(self.0)
    }

    /// The value of the attribute `name`, if the element has one by that name.
    pub fn attribute<'d>(&self, document: &'d Document, name: &str) -> (value: Option<&'d str>)
        requires
            document.wf(),
        ensures
            match value {
                Some(v) => lookup(document@.attrs_of(self.key()), name@) == Some(v@),
                None => lookup(document@.attrs_of(self.key()), name@) is None,
            },
            !document@.attrs.contains_key(self.key()) ==> value is None,
    {
        let attrs = self.attributes(document);
        match table_get(attrs, name) {
            Some(value) => Some(value.as_str()),
            None => None,
        }
    }

    /// Sets the attribute `name` to `value`. A name that the element has
    /// keeps its place among the attributes; a new name goes last.
    pub fn set_attribute(&self, document: &mut Document, name: &str, value: &str)
        requires
            old(document).wf(),
            old(document)@.is_element(self.key()),
        ensures
            final(document).wf(),
            final(document)@ == old(document)@.with_attrs(
                self.key(),
                put(old(document)@.attrs_of(self.key()), name@, value@),
            ),
            final(document)@.attrs_of(self.key()) == put(
                old(document)@.attrs_of(self.key()),
                name@,
                value@,
            ),
            old(document)@.names_unique() ==> final(document)@.names_unique(),
    {
        if !document.has_attrs(self.0) {
            document.set_attrs(self.0, new_table());
        }
        let attrs = document.attrs_mut(self.0);
        table_insert(attrs, name.to_owned(), value.to_owned());
        proof {
            let entries = put(old(document)@.attrs_of(self.key()), name@, value@);
            lemma_with_attrs(old(document)@, self.key(), entries);
            if old(document)@.names_unique() {
                lemma_put_keeps_distinct(old(document)@.attrs_of(self.key()), name@, value@);
            }
            assert(document@.attrs =~= old(document)@.with_attrs(self.key(), entries).attrs);
        }
    }

    /// The element and its subtree as markup text.
    pub fn display(&self, document: &Document) -> (text: String)
        requires
            document.wf(),
            document@.is_element(self.key()),
        ensures
            text@ == markup(document@, self.key()),
    {
        let mut s = String::new();
        write_element(document, self.0, &mut s);
        s
    }

    /// A walk over the descendant elements in document order: depth first,
    /// each element before its own descendants. The element itself is not
    /// among them. Each call starts a walk of its own.
    pub fn walk<'d>(&self, doc: &'d Document) -> (walk: Walk<'d>)
        requires
            doc.wf(),
            doc@.is_element(self.key()),
        ensures
            walk.wf(),
            walk.document() == doc,
            walk.remaining() == doc@.walk(*self),
    {
        walk_tree(doc, *self)
    }

    /// The first descendant element, in document order, that `selector`
    /// accepts. The selector is asked about the elements in that order, and
    /// about none after the first that it accepts.
    pub fn query_selector<F: Fn(&Document, Element) -> bool>(
        &self,
        doc: &Document,
        selector: &F,
    ) -> (found: Option<Element>)
        requires
            doc.wf(),
            doc@.is_element(self.key()),
            forall|e: Element| doc@.is_element(e.key()) ==> call_requires(*selector, (doc, e)),
        ensures
            match found {
                Some(e) => exists|i: int|
                    {
                        &&& 0 <= i < doc@.walk(*self).len()
                        &&& #[trigger] doc@.walk(*self)[i] == e
                        &&& call_ensures(*selector, (doc, e), true)
                        &&& turned_down(selector, doc, doc@.walk(*self), i)
                    },
                None => turned_down(selector, doc, doc@.walk(*self), doc@.walk(*self).len() as int),
            },
    {
        let mut walk = self.walk(doc);
        let ghost all = doc@.walk(*self);
        let ghost mut seen: int = 0;
        proof {
            lemma_walk_live(doc@, *self);
            assert(all.skip(0) =~= all);
        }
        loop
            invariant
                walk.wf(),
                walk.document() == doc,
                all == doc@.walk(*self),
                0 <= seen <= all.len(),
                walk.remaining() == all.skip(seen),
                forall|i: int| 0 <= i < all.len() ==> call_requires(*selector, (doc, all[i])),
                turned_down(selector, doc, all, seen),
            decreases all.len() - seen,
        {
            match walk.next() {
                Some(element) => {
                    proof {
                        lemma_walk_step(all, seen, element, walk.remaining());
                    }
                    if selector(doc, element) {
                        return Some(element);
                    }
                    proof {
                        seen = seen + 1;
                    }
                },
                None => {
                    proof {
                        lemma_walk_end(all, seen);
                    }
                    return None;
                },
            }
        }
    }

    /// All descendant elements that `selector` accepts, in document order.
    /// The selector is asked once about each descendant element.
    pub fn query_selector_all<F: Fn(&Document, Element) -> bool>(
        &self,
        doc: &Document,
        selector: &F,
    ) -> (found: Vec<Element>)
        requires
            doc.wf(),
            doc@.is_element(self.key()),
            forall|e: Element| doc@.is_element(e.key()) ==> call_requires(*selector, (doc, e)),
        ensures
            exists|verdicts: Seq<bool>| #[trigger]
                judged(selector, doc, doc@.walk(*self), verdicts) && found@ == picked(
                    doc@.walk(*self),
                    verdicts,
                ),
    {
        let mut walk = self.walk(doc);
        let ghost all = doc@.walk(*self);
        let ghost mut verdicts: Seq<bool> = Seq::empty();
        let mut found: Vec<Element> = Vec::new();
        proof {
            lemma_walk_live(doc@, *self);
            assert(all.skip(0) =~= all);
        }
        loop
            invariant
                walk.wf(),
                walk.document() == doc,
                all == doc@.walk(*self),
                verdicts.len() <= all.len(),
                walk.remaining() == all.skip(verdicts.len() as int),
                forall|i: int| 0 <= i < all.len() ==> call_requires(*selector, (doc, all[i])),
                forall|i: int|
                    0 <= i < verdicts.len() ==> call_ensures(
                        *selector,
                        (doc, #[trigger] all[i]),
                        verdicts[i],
                    ),
                found@ == picked_upto(all, verdicts, verdicts.len() as int),
            decreases all.len() - verdicts.len(),
        {
            let ghost seen = verdicts.len() as int;
            match walk.next() {
                Some(element) => {
                    proof {
                        lemma_walk_step(all, seen, element, walk.remaining());
                    }
                    let verdict = selector(doc, element);
                    proof {
                        lemma_picked_upto_prefix(all, verdicts, verdicts.push(verdict), seen);
                        verdicts = verdicts.push(verdict);
                    }
                    if verdict {
                        found.push(element);
                    }
                },
                None => {
                    proof {
                        lemma_walk_end(all, seen);
                        assert(judged(selector, doc, all, verdicts));
                    }
                    return found;
                },
            }
        }
    }

    /// The nearest sibling after this element that is an element: `None`
    /// where there is none, and for an element without a parent.
    pub fn next_sibling_element(&self, doc: &Document) -> (sibling: Option<Element>)
        requires
            doc.wf(),
            doc@.is_attached(*self),
        ensures
            sibling == doc@.next_sibling_element(*self),
    {
        let parent = match self.parent(doc) {
            Some(v) => v,
            None => return None,
        };

        let children = parent.children(doc);
        let place = match position(children, self.as_node()) {
            Some(i) => i,
            None => vstd::pervasive::unreached(),
        };
        proof {
            lemma_place_of_child(doc@, parent.key(), Node::Element(*self), place as int);
        }
        assert(place < children.len());
        let mut index = place + 1;

        while index < children.len()
            invariant
                place < index <= children@.len(),
                first_element_from(children@, index as int) == doc@.next_sibling_element(*self),
            decreases children@.len() - index,
        {
            if let Some(sibling) = children[index].as_element() {
                return Some(sibling);
            }
            index += 1;
        }

        None
    }

    /// The nearest sibling before this element that is an element: `None`
    /// where there is none, and for an element without a parent.
    pub fn prev_sibling_element(&self, doc: &Document) -> (sibling: Option<Element>)
        requires
            doc.wf(),
            doc@.is_attached(*self),
        ensures
            sibling == doc@.prev_sibling_element(*self),
    {
        let parent = match self.parent(doc) {
            Some(v) => v,
            None => return None,
        };

        let children = parent.children(doc);
        let place = match position(children, self.as_node()) {
            Some(i) => i,
            None => vstd::pervasive::unreached(),
        };
        proof {
            lemma_place_of_child(doc@, parent.key(), Node::Element(*self), place as int);
        }
        let mut index = place;

        if index == 0 {
            return None;
        }

        loop
            invariant
                0 < index <= place < children@.len(),
                last_element_before(children@, index as int) == doc@.prev_sibling_element(*self),
            decreases index,
        {
            index -= 1;

            if let Some(sibling) = children[index].as_element() {
                return Some(sibling);
            }

            if index == 0 {
                return None;
            }
        }
    }
}

/// The first place at which `node` stands in `nodes`.
fn position(nodes: &[Node], node: Node) -> (place: Option<usize>)
    ensures
        match place {
            Some(i) => i < nodes@.len() && nodes@[i as int] == node && forall|j: int|
                0 <= j < i ==> nodes@[j] != node,
            None => !nodes@.contains(node),
        },
{
    let mut index: usize = 0;
    while index < nodes.len()
        invariant
            index <= nodes@.len(),
            forall|j: int| 0 <= j < index ==> nodes@[j] != node,
        decreases nodes@.len() - index,
    {
        if nodes[index] == node {
            return Some(index);
        }
        index += 1;
    }
    None
}

/// Among the children of a live element a node stands at one place only.
proof fn lemma_place_of_child(doc: DocumentView, parent: DocKey, node: Node, place: int)
    requires
        doc.wf(),
        doc.is_element(parent),
        0 <= place < doc.children_of(parent).len(),
        doc.children_of(parent)[place] == node,
    ensures
        doc.children_of(parent).index_of(node) == place,
{
    assert(doc.child_ok(parent, place));
}

} // verus!
