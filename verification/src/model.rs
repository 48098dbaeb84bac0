//! The document as the contracts see it: three maps over one key space, the
//! invariants between them, and what a traversal yields.

use crate::attributes::{names_distinct, AttrEntries};
use crate::element::Element;
use crate::key::{DocKey, Node};
use crate::value::ItemView;
use vstd::prelude::*;

verus! {

/// A document as the contracts see it.
#[verifier::ext_equal]
pub struct DocumentView {
    /// The live items, by key.
    pub items: Map<DocKey, ItemView>,
    /// The attribute tables that were set, by element key. A live element
    /// without a row has no attributes.
    pub attrs: Map<DocKey, AttrEntries>,
    /// The recorded parent of each node that was appended under one.
    pub parents: Map<DocKey, Element>,
    /// The slot number of the next key. All keys handed out lie below it.
    pub next: nat,
    /// The root element.
    pub root: Element,
}

impl DocumentView {
    /// Whether `key` names a live element.
    pub open spec fn is_element(self, key: DocKey) -> bool {
        self.items.contains_key(key) && self.items[key] is Element
    }

    /// The tag name of the element under `key`.
    pub open spec fn name_of(self, key: DocKey) -> Seq<char> {
        self.items[key]->name
    }

    /// The children of the element under `key`, in sibling order.
    pub open spec fn children_of(self, key: DocKey) -> Seq<Node> {
        self.items[key]->children
    }

    /// The attributes of the element under `key`: its table where one was
    /// set, and no entries otherwise.
    pub open spec fn attrs_of(self, key: DocKey) -> AttrEntries {
        if self.attrs.contains_key(key) {
            self.attrs[key]
        } else {
            Seq::empty()
        }
    }

    /// The recorded parent of the node under `key`.
    pub open spec fn parent_of(self, key: DocKey) -> Option<Element> {
        if self.parents.contains_key(key) {
            Some(self.parents[key])
        } else {
            None
        }
    }

    /// What must hold of the `i`th child of the element under `parent`: it is
    /// live, its identity is of the kind of its item, the parent table
    /// records `parent` for it, its key was handed out after the parent's,
    /// and it occurs nowhere else among its siblings.
    pub open spec fn child_ok(self, parent: DocKey, i: int) -> bool {
        let siblings = self.children_of(parent);
        let child = siblings[i];
        &&& self.items.contains_key(child.key())
        &&& self.items[child.key()].is_kind_of(child)
        &&& self.parents.contains_key(child.key())
        &&& self.parents[child.key()].key() == parent
        &&& parent.index() < child.key().index()
        &&& forall|j: int|
            0 <= j < siblings.len() && j != i ==> (#[trigger] siblings[j]).key() != child.key()
    }

    /// Whether no attribute table holds two entries under one name.
    pub open spec fn names_unique(self) -> bool {
        forall|k: DocKey| #[trigger] self.attrs.contains_key(k) ==> names_distinct(self.attrs[k])
    }

    /// The invariants of a document.
    pub open spec fn wf(self) -> bool {
        &&& self.is_element(self.root.key())
        &&& !self.parents.contains_key(self.root.key())
        &&& forall|k: DocKey| #[trigger] self.items.contains_key(k) ==> k.index() < self.next
        &&& forall|k: DocKey| #[trigger] self.attrs.contains_key(k) ==> self.is_element(k)
        &&& forall|k: DocKey| #[trigger] self.parents.contains_key(k) ==> self.items.contains_key(k)
        &&& forall|p: DocKey, i: int|
            self.is_element(p) && 0 <= i < self.children_of(p).len() ==> #[trigger] self.child_ok(
                p,
                i,
            )
    }

    /// The elements among `nodes` and below them, in document order: each
    /// element comes before its own descendants, and those come before the
    /// siblings that follow it. Nodes of other kinds are passed over.
    ///
    /// `above` is the slot number of the element whose children `nodes` are.
    /// In a well-formed document every child's key lies between its parent's
    /// and `next`, which is what lets the descent end.
    pub open spec fn walk_nodes(self, nodes: Seq<Node>, above: nat) -> Seq<Element>
        decreases self.next - above, nodes.len(),
    {
        if nodes.len() == 0 {
            Seq::empty()
        } else {
            let rest = self.walk_nodes(nodes.drop_first(), above);
            match nodes[0] {
                Node::Element(e) => {
                    if above < e.key().index() < self.next {
                        seq![e] + self.walk_nodes(self.children_of(e.key()), e.key().index()) + rest
                    } else {
                        seq![e] + rest
                    }
                },
                _ => rest,
            }
        }
    }

    /// The descendant elements of `element` in document order, `element`
    /// itself left out.
    pub open spec fn walk(self, element: Element) -> Seq<Element> {
        self.walk_nodes(self.children_of(element.key()), element.key().index())
    }

    /// The document after a new node `child`, holding `item`, was appended
    /// to the children of `parent`: the item is stored under the child's
    /// key, the parent table records `parent` for it, and it stands last
    /// among the parent's children.
    pub open spec fn with_child(self, parent: Element, child: Node, item: ItemView) -> DocumentView {
        DocumentView {
            items: self.items.insert(child.key(), item).insert(
                parent.key(),
                ItemView::Element {
                    name: self.name_of(parent.key()),
                    children: self.children_of(parent.key()).push(child),
                },
            ),
            parents: self.parents.insert(child.key(), parent),
            next: self.next + 1,
            ..self
        }
    }

    /// The document with `entries` as the attribute table of `key`.
    pub open spec fn with_attrs(self, key: DocKey, entries: AttrEntries) -> DocumentView {
        DocumentView { attrs: self.attrs.insert(key, entries), ..self }
    }

    /// The document after `child` was removed from under `parent`. Where
    /// `child` is among the parent's children, it leaves their list and its
    /// item and its rows in both tables are dropped; what hangs below it
    /// stays in the tables, out of reach from the root. Where it is not,
    /// nothing changes.
    pub open spec fn without_child(self, parent: Element, child: Node) -> DocumentView {
        let siblings = self.children_of(parent.key());
        if siblings.contains(child) {
            DocumentView {
                items: self.items.insert(
                    parent.key(),
                    ItemView::Element {
                        name: self.name_of(parent.key()),
                        children: siblings.remove(siblings.index_of(child)),
                    },
                ).remove(child.key()),
                attrs: self.attrs.remove(child.key()),
                parents: self.parents.remove(child.key()),
                ..self
            }
        } else {
            self
        }
    }

    /// Whether `element` hangs where the parent table says: it has no
    /// recorded parent, or that parent is a live element that lists it among
    /// its children.
    pub open spec fn is_attached(self, element: Element) -> bool {
        self.parents.contains_key(element.key()) ==> {
            let parent = self.parents[element.key()];
            &&& self.is_element(parent.key())
            &&& self.children_of(parent.key()).contains(Node::Element(element))
        }
    }

    /// The nearest element after `element` among the children of its
    /// recorded parent, if there is such a parent and such an element.
    pub open spec fn next_sibling_element(self, element: Element) -> Option<Element> {
        match self.parent_of(element.key()) {
            Some(parent) => {
                let siblings = self.children_of(parent.key());
                first_element_from(siblings, siblings.index_of(Node::Element(element)) + 1)
            },
            None => None,
        }
    }

    /// The nearest element before `element` among the children of its
    /// recorded parent, if there is such a parent and such an element.
    pub open spec fn prev_sibling_element(self, element: Element) -> Option<Element> {
        match self.parent_of(element.key()) {
            Some(parent) => {
                let siblings = self.children_of(parent.key());
                last_element_before(siblings, siblings.index_of(Node::Element(element)))
            },
            None => None,
        }
    }
}

/// The first element among `nodes` at place `from` or after it.
pub open spec fn first_element_from(nodes: Seq<Node>, from: int) -> Option<Element>
    decreases nodes.len() - from,
{
    if from < 0 || from >= nodes.len() {
        None
    } else {
        match nodes[from] {
            Node::Element(e) => Some(e),
            _ => first_element_from(nodes, from + 1),
        }
    }
}

/// The last element among `nodes` before place `upto`.
pub open spec fn last_element_before(nodes: Seq<Node>, upto: int) -> Option<Element>
    decreases upto,
{
    if upto <= 0 || upto > nodes.len() {
        None
    } else {
        match nodes[upto - 1] {
            Node::Element(e) => Some(e),
            _ => last_element_before(nodes, upto - 1),
        }
    }
}

/// Appending a fresh node keeps a document well formed. The node then has
/// `parent` as its recorded parent and stands exactly once among the
/// parent's children, at the end.
pub proof fn lemma_with_child(doc: DocumentView, parent: Element, child: Node, item: ItemView)
    requires
        doc.wf(),
        doc.is_element(parent.key()),
        child.key().index() == doc.next,
        item.is_kind_of(child),
        item is Element ==> item->children.len() == 0,
    ensures
        doc.with_child(parent, child, item).wf(),
        doc.with_child(parent, child, item).is_element(parent.key()),
        doc.with_child(parent, child, item).is_element(child.key()) == (child is Element),
        doc.with_child(parent, child, item).parent_of(child.key()) == Some(parent),
        doc.with_child(parent, child, item).children_of(parent.key()) == doc.children_of(
            parent.key(),
        ).push(child),
        !doc.children_of(parent.key()).contains(child),
        !doc.items.contains_key(child.key()),
        !doc.attrs.contains_key(child.key()),
        !doc.parents.contains_key(child.key()),
{
    let after = doc.with_child(parent, child, item);
    let pk = parent.key();
    let ck = child.key();
    let siblings = doc.children_of(pk);
    assert(!doc.items.contains_key(ck));
    assert(pk != ck);
    assert forall|j: int| 0 <= j < siblings.len() implies (#[trigger] siblings[j]).key() != ck by {
        assert(doc.child_ok(pk, j));
    }
    assert(!siblings.contains(child));
    assert forall|p: DocKey, i: int|
        after.is_element(p) && 0 <= i < after.children_of(p).len() implies #[trigger] after.child_ok(
        p,
        i,
    ) by {
        if p == ck {
        } else if p == pk {
            if i < siblings.len() {
                assert(doc.child_ok(pk, i));
            }
        } else {
            assert(doc.child_ok(p, i));
        }
    }
}

/// Setting the attribute table of a live element keeps a document well formed.
pub proof fn lemma_with_attrs(doc: DocumentView, key: DocKey, entries: AttrEntries)
    requires
        doc.wf(),
        doc.is_element(key),
    ensures
        doc.with_attrs(key, entries).wf(),
        doc.with_attrs(key, entries).attrs_of(key) == entries,
{
    let after = doc.with_attrs(key, entries);
    assert forall|p: DocKey, i: int|
        after.is_element(p) && 0 <= i < after.children_of(p).len() implies #[trigger] after.child_ok(
        p,
        i,
    ) by {
        assert(doc.child_ok(p, i));
    }
}

/// Removing a child keeps a document well formed. The child is then no
/// longer live, and the parent's other children keep their order.
pub proof fn lemma_without_child(doc: DocumentView, parent: Element, child: Node)
    requires
        doc.wf(),
        doc.is_element(parent.key()),
    ensures
        doc.without_child(parent, child).wf(),
        doc.without_child(parent, child).is_element(parent.key()),
        doc.children_of(parent.key()).contains(child) ==> {
            &&& !doc.without_child(parent, child).items.contains_key(child.key())
            &&& !doc.without_child(parent, child).children_of(parent.key()).contains(child)
            &&& doc.without_child(parent, child).children_of(parent.key()) == doc.children_of(
                parent.key(),
            ).remove(doc.children_of(parent.key()).index_of(child))
        },
{
    let after = doc.without_child(parent, child);
    let pk = parent.key();
    let ck = child.key();
    let siblings = doc.children_of(pk);
    if siblings.contains(child) {
        let at = siblings.index_of(child);
        let remaining = siblings.remove(at);
        assert(doc.child_ok(pk, at));
        assert(after.children_of(pk) == remaining);
        assert forall|p: DocKey, i: int|
            after.is_element(p) && 0 <= i < after.children_of(p).len() implies #[trigger] after.child_ok(
            p,
            i,
        ) by {
            if p == pk {
                let from = if i < at {
                    i
                } else {
                    i + 1
                };
                assert(remaining[i] == siblings[from]);
                assert(doc.child_ok(pk, from));
                assert forall|j: int| 0 <= j < remaining.len() && j != i implies (
                #[trigger] remaining[j]).key() != remaining[i].key() by {
                    let other = if j < at {
                        j
                    } else {
                        j + 1
                    };
                    assert(remaining[j] == siblings[other]);
                }
            } else {
                assert(doc.child_ok(p, i));
            }
        }
        assert forall|i: int| 0 <= i < remaining.len() implies remaining[i] != child by {
            let from = if i < at {
                i
            } else {
                i + 1
            };
            assert(remaining[i] == siblings[from]);
        }
    }
}

/// Parent and child agree: each child of a live element is live, has that
/// element as its recorded parent, and stands among the children once.
pub proof fn lemma_child_has_parent(doc: DocumentView, parent: Element, i: int)
    requires
        doc.wf(),
        doc.is_element(parent.key()),
        0 <= i < doc.children_of(parent.key()).len(),
    ensures
        doc.items.contains_key(doc.children_of(parent.key())[i].key()),
        doc.parent_of(doc.children_of(parent.key())[i].key()) == Some(parent),
        forall|j: int|
            0 <= j < doc.children_of(parent.key()).len() && j != i ==> doc.children_of(
                parent.key(),
            )[j] != doc.children_of(parent.key())[i],
{
    let child = doc.children_of(parent.key())[i];
    assert(doc.child_ok(parent.key(), i));
    Element::lemma_key_injective(doc.parents[child.key()], parent);
}

/// Appending a node and removing it again leaves the document as it was,
/// but for the key that was spent: the parent's children, every item and
/// both tables are as before, and the key of the node is not live.
pub proof fn lemma_append_then_remove(
    doc: DocumentView,
    parent: Element,
    child: Node,
    item: ItemView,
    entries: AttrEntries,
)
    requires
        doc.wf(),
        doc.is_element(parent.key()),
        child.key().index() == doc.next,
        item.is_kind_of(child),
        item is Element ==> item->children.len() == 0,
    ensures
        doc.with_child(parent, child, item).without_child(parent, child) == (DocumentView {
            next: doc.next + 1,
            ..doc
        }),
        doc.with_child(parent, child, item).with_attrs(child.key(), entries).without_child(
            parent,
            child,
        ) == (DocumentView { next: doc.next + 1, ..doc }),
        doc.with_child(parent, child, item).without_child(parent, child).children_of(
            parent.key(),
        ) == doc.children_of(parent.key()),
        !doc.with_child(parent, child, item).without_child(parent, child).items.contains_key(
            child.key(),
        ),
{
    lemma_with_child(doc, parent, child, item);
    let pk = parent.key();
    let ck = child.key();
    let siblings = doc.children_of(pk);
    let grown = doc.with_child(parent, child, item);
    let at = grown.children_of(pk).index_of(child);
    assert(grown.children_of(pk)[siblings.len() as int] == child);
    assert(at == siblings.len()) by {
        if at < siblings.len() {
            assert(siblings[at] == child);
        }
    }
    assert(grown.children_of(pk).remove(at) =~= siblings);
    let back = grown.without_child(parent, child);
    let expected = DocumentView { next: doc.next + 1, ..doc };
    assert(back.items =~= expected.items);
    assert(back.attrs =~= expected.attrs);
    assert(back.parents =~= expected.parents);
    let dressed = grown.with_attrs(ck, entries);
    let undressed = dressed.without_child(parent, child);
    assert(undressed.items =~= expected.items);
    assert(undressed.attrs =~= expected.attrs);
    assert(undressed.parents =~= expected.parents);
}

/// What `first_element_from` finds: the element at the first place, from
/// `from` on, that holds an element; nothing where no place from there on
/// holds one.
pub proof fn lemma_first_element_from(nodes: Seq<Node>, from: int)
    requires
        0 <= from,
    ensures
        match first_element_from(nodes, from) {
            Some(e) => exists|k: int|
                {
                    &&& from <= k < nodes.len()
                    &&& #[trigger] nodes[k] == Node::Element(e)
                    &&& forall|j: int| from <= j < k ==> !(#[trigger] nodes[j] is Element)
                },
            None => forall|j: int| from <= j < nodes.len() ==> !(#[trigger] nodes[j] is Element),
        },
    decreases nodes.len() - from,
{
    if from < nodes.len() {
        match nodes[from] {
            Node::Element(e) => {
                assert(nodes[from] == Node::Element(e));
            },
            _ => {
                lemma_first_element_from(nodes, from + 1);
                match first_element_from(nodes, from + 1) {
                    Some(e) => {
                        let k = choose|k: int|
                            {
                                &&& from + 1 <= k < nodes.len()
                                &&& #[trigger] nodes[k] == Node::Element(e)
                                &&& forall|j: int|
                                    from + 1 <= j < k ==> !(#[trigger] nodes[j] is Element)
                            };
                        assert(nodes[k] == Node::Element(e));
                        assert forall|j: int| from <= j < k implies !(#[trigger] nodes[j]
                            is Element) by {}
                    },
                    None => {
                        assert forall|j: int| from <= j < nodes.len() implies !(#[trigger] nodes[j]
                            is Element) by {}
                    },
                }
            },
        }
    }
}

/// What `last_element_before` finds: the element at the last place before
/// `upto` that holds an element; nothing where no place before it holds one.
pub proof fn lemma_last_element_before(nodes: Seq<Node>, upto: int)
    requires
        upto <= nodes.len(),
    ensures
        match last_element_before(nodes, upto) {
            Some(e) => exists|k: int|
                {
                    &&& 0 <= k < upto
                    &&& #[trigger] nodes[k] == Node::Element(e)
                    &&& forall|j: int| k < j < upto ==> !(#[trigger] nodes[j] is Element)
                },
            None => forall|j: int| 0 <= j < upto ==> !(#[trigger] nodes[j] is Element),
        },
    decreases upto,
{
    if upto > 0 {
        match nodes[upto - 1] {
            Node::Element(e) => {
                assert(nodes[upto - 1] == Node::Element(e));
            },
            _ => {
                lemma_last_element_before(nodes, upto - 1);
                match last_element_before(nodes, upto - 1) {
                    Some(e) => {
                        let k = choose|k: int|
                            {
                                &&& 0 <= k < upto - 1
                                &&& #[trigger] nodes[k] == Node::Element(e)
                                &&& forall|j: int|
                                    k < j < upto - 1 ==> !(#[trigger] nodes[j] is Element)
                            };
                        assert(nodes[k] == Node::Element(e));
                        assert forall|j: int| k < j < upto implies !(#[trigger] nodes[j]
                            is Element) by {}
                    },
                    None => {
                        assert forall|j: int| 0 <= j < upto implies !(#[trigger] nodes[j]
                            is Element) by {}
                    },
                }
            },
        }
    }
}

/// Where an element stands at `at` and no element stands between `at` and
/// `upto`, it is the last element before `upto`.
proof fn lemma_last_element_across_gap(nodes: Seq<Node>, at: int, upto: int, element: Element)
    requires
        0 <= at < upto <= nodes.len(),
        nodes[at] == Node::Element(element),
        forall|j: int| at < j < upto ==> !(#[trigger] nodes[j] is Element),
    ensures
        last_element_before(nodes, upto) == Some(element),
    decreases upto - at,
{
    if upto - 1 > at {
        assert(!(nodes[upto - 1] is Element));
        lemma_last_element_across_gap(nodes, at, upto - 1, element);
    }
}

/// Where an element stands at `at` and no element stands between `from` and
/// `at`, it is the first element from `from` on.
proof fn lemma_first_element_across_gap(nodes: Seq<Node>, from: int, at: int, element: Element)
    requires
        0 <= from <= at < nodes.len(),
        nodes[at] == Node::Element(element),
        forall|j: int| from <= j < at ==> !(#[trigger] nodes[j] is Element),
    ensures
        first_element_from(nodes, from) == Some(element),
    decreases at - from,
{
    if from < at {
        assert(!(nodes[from] is Element));
        lemma_first_element_across_gap(nodes, from + 1, at, element);
    }
}

/// Going to the next sibling element and back: where `b` is the next
/// sibling element of an attached element `a`, `b` is attached under the
/// same parent and `a` is its previous sibling element.
pub proof fn lemma_next_then_prev(doc: DocumentView, a: Element, b: Element)
    requires
        doc.wf(),
        doc.is_attached(a),
        doc.next_sibling_element(a) == Some(b),
    ensures
        doc.parent_of(b.key()) == doc.parent_of(a.key()),
        doc.is_attached(b),
        doc.prev_sibling_element(b) == Some(a),
{
    let parent = doc.parents[a.key()];
    let siblings = doc.children_of(parent.key());
    let at = siblings.index_of(Node::Element(a));
    assert(siblings[at] == Node::Element(a));
    lemma_first_element_from(siblings, at + 1);
    let k = choose|k: int|
        {
            &&& at + 1 <= k < siblings.len()
            &&& #[trigger] siblings[k] == Node::Element(b)
            &&& forall|j: int| at + 1 <= j < k ==> !(#[trigger] siblings[j] is Element)
        };
    lemma_child_has_parent(doc, parent, k);
    let found = siblings.index_of(Node::Element(b));
    assert(siblings[found] == Node::Element(b));
    assert(found == k);
    lemma_last_element_across_gap(siblings, at, k, a);
}

/// Going to the previous sibling element and forth: where `a` is the
/// previous sibling element of an attached element `b`, `a` is attached
/// under the same parent and `b` is its next sibling element.
pub proof fn lemma_prev_then_next(doc: DocumentView, a: Element, b: Element)
    requires
        doc.wf(),
        doc.is_attached(b),
        doc.prev_sibling_element(b) == Some(a),
    ensures
        doc.parent_of(a.key()) == doc.parent_of(b.key()),
        doc.is_attached(a),
        doc.next_sibling_element(a) == Some(b),
{
    let parent = doc.parents[b.key()];
    let siblings = doc.children_of(parent.key());
    let at = siblings.index_of(Node::Element(b));
    assert(siblings[at] == Node::Element(b));
    lemma_last_element_before(siblings, at);
    let k = choose|k: int|
        {
            &&& 0 <= k < at
            &&& #[trigger] siblings[k] == Node::Element(a)
            &&& forall|j: int| k < j < at ==> !(#[trigger] siblings[j] is Element)
        };
    lemma_child_has_parent(doc, parent, k);
    let found = siblings.index_of(Node::Element(a));
    assert(siblings[found] == Node::Element(a));
    assert(found == k);
    lemma_first_element_across_gap(siblings, k + 1, at, b);
}

/// A walk over the children of a live element, from any place on, yields
/// live elements only.
pub proof fn lemma_walk_nodes_live(doc: DocumentView, parent: DocKey, from: int)
    requires
        doc.wf(),
        doc.is_element(parent),
        0 <= from <= doc.children_of(parent).len(),
    ensures
        forall|i: int|
            0 <= i < doc.walk_nodes(doc.children_of(parent).skip(from), parent.index()).len()
                ==> doc.is_element(
                (#[trigger] doc.walk_nodes(
                    doc.children_of(parent).skip(from),
                    parent.index(),
                )[i]).key(),
            ),
    decreases doc.next - parent.index(), doc.children_of(parent).len() - from,
{
    let siblings = doc.children_of(parent);
    let nodes = siblings.skip(from);
    if from < siblings.len() {
        assert(doc.child_ok(parent, from));
        assert(nodes[0] == siblings[from]);
        assert(nodes.drop_first() =~= siblings.skip(from + 1));
        lemma_walk_nodes_live(doc, parent, from + 1);
        let walked = doc.walk_nodes(nodes, parent.index());
        let rest = doc.walk_nodes(siblings.skip(from + 1), parent.index());
        match siblings[from] {
            Node::Element(e) => {
                let inner = doc.walk_nodes(doc.children_of(e.key()), e.key().index());
                assert(doc.children_of(e.key()).skip(0) =~= doc.children_of(e.key()));
                lemma_walk_nodes_live(doc, e.key(), 0);
                assert(walked == seq![e] + inner + rest);
                assert forall|i: int| 0 <= i < walked.len() implies doc.is_element(
                    (#[trigger] walked[i]).key(),
                ) by {
                    if i == 0 {
                    } else if i < 1 + inner.len() {
                        assert(walked[i] == inner[i - 1]);
                    } else {
                        assert(walked[i] == rest[i - 1 - inner.len()]);
                    }
                }
            },
            _ => {
                assert(walked == rest);
            },
        }
    }
}

/// Every element that a walk yields is live.
pub proof fn lemma_walk_live(doc: DocumentView, element: Element)
    requires
        doc.wf(),
        doc.is_element(element.key()),
    ensures
        forall|i: int|
            0 <= i < doc.walk(element).len() ==> doc.is_element(
                (#[trigger] doc.walk(element)[i]).key(),
            ),
{
    assert(doc.children_of(element.key()).skip(0) =~= doc.children_of(element.key()));
    lemma_walk_nodes_live(doc, element.key(), 0);
}

} // verus!
