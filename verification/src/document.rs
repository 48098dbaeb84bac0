//! The document: the item store and the two relationship tables, and the
//! invariants that tie them together.

use crate::attributes::{attr_entries, new_table, AttrEntries};
use crate::element::Element;
use crate::key::DocKey;
use crate::model::DocumentView;
use crate::table::{Arena, SideTable};
use crate::value::{ElementValue, ItemValue, ItemView};
use indexmap::IndexMap;
use vstd::pervasive::unreached;
use vstd::prelude::*;

verus! {

/// An in-memory document tree.
///
/// All nodes live in one arena. Which node is whose child is recorded in the
/// parent element's list of children, which alone fixes the order of
/// siblings, and once more, for lookup, in a table from child to parent.
/// Attribute tables are kept in a third table, by element key.
pub struct Document {
    items: Arena<ItemValue>,
    attrs: SideTable<IndexMap<String, String>>,
    parents: SideTable<Element>,
    root: Element,
    no_attrs: IndexMap<String, String>,
}

impl View for Document {
    type V = DocumentView;

    closed spec fn view(&self) -> DocumentView {
        DocumentView {
            items: Map::new(|k: DocKey| self.items@.contains_key(k), |k: DocKey| self.items@[k]@),
            attrs: Map::new(
                |k: DocKey| self.attrs@.contains_key(k),
                |k: DocKey| attr_entries(self.attrs@[k]),
            ),
            parents: self.parents@,
            next: self.items.next(),
            root: self.root,
        }
    }
}

impl Document {
    /// Whether the table that stands in for elements without attributes is
    /// without entries, as it is from `new` on.
    pub closed spec fn spare_is_empty(&self) -> bool {
        attr_entries(self.no_attrs) == Seq::<(Seq<char>, Seq<char>)>::empty()
    }

    /// Whether the document's invariants hold.
    pub open spec fn wf(&self) -> bool {
        self.spare_is_empty() && self@.wf()
    }

    /// A document that holds a root element named `root_name` and nothing else.
    pub fn new(root_name: &str) -> (document: Document)
        ensures
            document.wf(),
            document@.items == Map::<DocKey, ItemView>::empty().insert(
                document@.root.key(),
                ItemView::Element { name: root_name@, children: Seq::empty() },
            ),
            document@.attrs == Map::<DocKey, AttrEntries>::empty(),
            document@.parents == Map::<DocKey, Element>::empty(),
            document@.root.key().index() == 0,
            document@.next == 1,
            document@.names_unique(),
    {
        let mut items = Arena::new();
        let key = items.insert(
            ItemValue::Element(ElementValue { name: root_name.to_owned(), children: Vec::new() }),
        );
        let document = Document {
            items,
            attrs: SideTable::new(),
            parents: SideTable::new(),
            root: Element::from_key(key),
            no_attrs: new_table(),
        };
        proof {
            assert(document@.items =~= Map::<DocKey, ItemView>::empty().insert(
                document@.root.key(),
                ItemView::Element { name: root_name@, children: Seq::empty() },
            ));
            assert(document@.attrs =~= Map::<DocKey, AttrEntries>::empty());
        }
        document
    }

    /// The root element.
    pub fn root(&self) -> (root: Element)
        ensures
            root == self@.root,
    {
        self.root
    }

    /// Stores `item` under a fresh key.
    pub(crate) fn insert_item(&mut self, item: ItemValue) -> (key: DocKey)
        ensures
            key.index() == old(self)@.next,
            final(self)@ == (DocumentView {
                items: old(self)@.items.insert(key, item@),
                next: old(self)@.next + 1,
                ..old(self)@
            }),
            final(self).spare_is_empty() == old(self).spare_is_empty(),
    {
        let key = self.items.insert(item);
        proof {
            assert(self@.items =~= old(self)@.items.insert(key, item@));
        }
        key
    }

    /// The item under `key`, if the key is live.
    pub(crate) fn item(&self, key: DocKey) -> (item: Option<&ItemValue>)
        ensures
            match item {
                Some(i) => self@.items.contains_key(key) && i@ == self@.items[key],
                None => !self@.items.contains_key(key),
            },
    {
        self.items.get(key)
    }

    /// Whether `element` names a live element of this document.
    pub fn has_element(&self, element: Element) -> (found: bool)
        ensures
            found == self@.is_element(element.key()),
    {
        match self.items.get(element.as_key()) {
            Some(ItemValue::Element(_)) => true,
            _ => false,
        }
    }

    /// The payload of the element under `key`.
    pub(crate) fn element(&self, key: DocKey) -> (element: &ElementValue)
        requires
            self@.is_element(key),
        ensures
            element@ == self@.items[key],
    {
        match self.items.get(key) {
            Some(item) => match item.as_element() {
                Some(element) => element,
                None => unreached(),
            },
            None => unreached(),
        }
    }

    /// The payload of the element under `key`, for changing in place.
    pub(crate) fn element_mut(&mut self, key: DocKey) -> (element: &mut ElementValue)
        requires
            old(self)@.is_element(key),
        ensures
            element@ == old(self)@.items[key],
            final(self)@ == (DocumentView {
                items: old(self)@.items.insert(key, final(element)@),
                ..old(self)@
            }),
            final(self).spare_is_empty() == old(self).spare_is_empty(),
    {
        let ghost before = self.items@;
        let item = self.items.get_mut(key);
        proof {
            assert forall|after: ItemValue|
                Map::new(
                    |k: DocKey| before.insert(key, after).contains_key(k),
                    |k: DocKey| before.insert(key, after)[k]@,
                ) == #[trigger] old(self)@.items.insert(key, after@) by {
                assert(Map::new(
                    |k: DocKey| before.insert(key, after).contains_key(k),
                    |k: DocKey| before.insert(key, after)[k]@,
                ) =~= old(self)@.items.insert(key, after@));
            }
        }
        item.as_element_mut()
    }

    /// Drops the item under `key`. Its rows in the other tables and the
    /// lists of children that name it are the caller's to mend.
    pub(crate) fn remove_item(&mut self, key: DocKey)
        ensures
            final(self)@ == (DocumentView {
                items: old(self)@.items.remove(key),
                ..old(self)@
            }),
            final(self).spare_is_empty() == old(self).spare_is_empty(),
    {
        self.items.remove(key);
        proof {
            assert(self@.items =~= old(self)@.items.remove(key));
        }
    }

    /// Records `parent` as the parent of the node under `key`.
    pub(crate) fn set_parent(&mut self, key: DocKey, parent: Element)
        ensures
            final(self)@ == (DocumentView {
                parents: old(self)@.parents.insert(key, parent),
                ..old(self)@
            }),
            final(self).spare_is_empty() == old(self).spare_is_empty(),
    {
        self.parents.insert(key, parent);
    }

    /// The recorded parent of the node under `key`.
    pub(crate) fn parent_of(&self, key: DocKey) -> (parent: Option<Element>)
        ensures
            parent == self@.parent_of(key),
    {
        match self.parents.get(key) {
            Some(parent) => Some(*parent),
            None => None,
        }
    }

    /// Forgets the parent of the node under `key`.
    pub(crate) fn remove_parent(&mut self, key: DocKey)
        ensures
            final(self)@ == (DocumentView {
                parents: old(self)@.parents.remove(key),
                ..old(self)@
            }),
            final(self).spare_is_empty() == old(self).spare_is_empty(),
    {
        self.parents.remove(key);
    }

    /// Whether an attribute table is set for `key`.
    pub(crate) fn has_attrs(&self, key: DocKey) -> (found: bool)
        ensures
            found == self@.attrs.contains_key(key),
    {
        self.attrs.contains_key(key)
    }

    /// Sets `table` as the attribute table of `key`.
    pub(crate) fn set_attrs(&mut self, key: DocKey, table: IndexMap<String, String>)
        ensures
            final(self)@ == (DocumentView {
                attrs: old(self)@.attrs.insert(key, attr_entries(table)),
                ..old(self)@
            }),
            final(self).spare_is_empty() == old(self).spare_is_empty(),
    {
        self.attrs.insert(key, table);
        proof {
            assert(self@.attrs =~= old(self)@.attrs.insert(key, attr_entries(table)));
        }
    }

    /// The attribute table of `key`: the one that was set, or else the
    /// document's one table without entries.
    pub(crate) fn attrs_or_empty(&self, key: DocKey) -> (table: &IndexMap<String, String>)
        requires
            self.spare_is_empty(),
        ensures
            attr_entries(*table) == self@.attrs_of(key),
    {
        match self.attrs.get(key) {
            Some(table) => table,
            None => &self.no_attrs,
        }
    }

    /// The attribute table of `key`, for changing in place.
    pub(crate) fn attrs_mut(&mut self, key: DocKey) -> (table: &mut IndexMap<String, String>)
        requires
            old(self)@.attrs.contains_key(key),
        ensures
            attr_entries(*table) == old(self)@.attrs[key],
            final(self)@ == (DocumentView {
                attrs: old(self)@.attrs.insert(key, attr_entries(*final(table))),
                ..old(self)@
            }),
            final(self).spare_is_empty() == old(self).spare_is_empty(),
    {
        let ghost before = self.attrs@;
        proof {
            assert forall|after: IndexMap<String, String>|
                Map::new(
                    |k: DocKey| before.insert(key, after).contains_key(k),
                    |k: DocKey| attr_entries(before.insert(key, after)[k]),
                ) == #[trigger] old(self)@.attrs.insert(key, attr_entries(after)) by {
                assert(Map::new(
                    |k: DocKey| before.insert(key, after).contains_key(k),
                    |k: DocKey| attr_entries(before.insert(key, after)[k]),
                ) =~= old(self)@.attrs.insert(key, attr_entries(after)));
            }
        }
        self.attrs.get_mut(key)
    }

    /// Drops the attribute table of `key`.
    pub(crate) fn remove_attrs(&mut self, key: DocKey)
        ensures
            final(self)@ == (DocumentView {
                attrs: old(self)@.attrs.remove(key),
                ..old(self)@
            }),
            final(self).spare_is_empty() == old(self).spare_is_empty(),
    {
        self.attrs.remove(key);
        proof {
            assert(self@.attrs =~= old(self)@.attrs.remove(key));
        }
    }
}

} // verus!
