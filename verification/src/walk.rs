//! The traversal engine: a cursor that yields the descendant elements of an
//! element one at a time, in document order.
//!
//! The cursor keeps a stack of frames, one for each element it is inside
//! of, each with that element's children and how far among them it has
//! come. A step looks at one child, and goes one level down where the child
//! is an element.

use crate::document::Document;
use crate::element::Element;
use crate::key::Node;
use crate::model::DocumentView;
use vstd::prelude::*;

verus! {

/// One level of a traversal: the children of `parent`, and the place among
/// them that comes next.
pub struct Frame<'d> {
    parent: Element,
    children: &'d [Node],
    index: usize,
}

impl<'d> Frame<'d> {
    /// Whether the frame holds the children of a live element of `doc`.
    pub closed spec fn wf(&self, doc: DocumentView) -> bool {
        &&& doc.is_element(self.parent.key())
        &&& self.children@ == doc.children_of(self.parent.key())
        &&& self.index <= self.children@.len()
    }

    /// What the frame has yet to yield: the walk over the children from the
    /// next place on.
    pub closed spec fn pending(&self, doc: DocumentView) -> Seq<Element> {
        doc.walk_nodes(self.children@.skip(self.index as int), self.parent.key().index())
    }

    /// The children that the frame has yet to look at, and one.
    pub closed spec fn budget(&self) -> nat {
        (self.children@.len() - self.index + 1) as nat
    }
}

/// What a stack of frames has yet to yield: the innermost frame's share
/// first, then that of the frames around it.
pub open spec fn pending_of(doc: DocumentView, frames: Seq<Frame>) -> Seq<Element>
    decreases frames.len(),
{
    if frames.len() == 0 {
        Seq::empty()
    } else {
        frames.last().pending(doc) + pending_of(doc, frames.drop_last())
    }
}

/// The steps that a stack of frames can still take without yielding.
pub open spec fn budget_of(frames: Seq<Frame>) -> nat
    decreases frames.len(),
{
    if frames.len() == 0 {
        0
    } else {
        frames.last().budget() + budget_of(frames.drop_last())
    }
}

/// A traversal in progress over the descendants of one element.
pub struct Walk<'d> {
    doc: &'d Document,
    stack: Vec<Frame<'d>>,
}

impl<'d> Walk<'d> {
    /// The document that is walked.
    pub closed spec fn document(&self) -> &'d Document {
        self.doc
    }

    /// The elements that the walk has yet to yield, in order.
    pub closed spec fn remaining(&self) -> Seq<Element> {
        pending_of(self.doc@, self.stack@)
    }

    /// Whether the walk stands inside a well-formed document.
    pub closed spec fn wf(&self) -> bool {
        &&& self.doc.wf()
        &&& forall|i: int| 0 <= i < self.stack@.len() ==> (#[trigger] self.stack@[i]).wf(self.doc@)
    }

    /// The next element of the walk, or `None` when it is over.
    pub fn next(&mut self) -> (element: Option<Element>)
        requires
            old(self).wf(),
        ensures
            final(self).wf(),
            final(self).document() == old(self).document(),
            match element {
                Some(e) => old(self).remaining() == seq![e] + final(self).remaining(),
                None => {
                    &&& old(self).remaining() == Seq::<Element>::empty()
                    &&& final(self).remaining() == Seq::<Element>::empty()
                },
            },
    {
        loop
            invariant
                self.wf(),
                self.doc == old(self).doc,
                self.remaining() == old(self).remaining(),
            decreases budget_of(self.stack@),
        {
            let depth = self.stack.len();
            if depth == 0 {
                return None;
            }
            let ghost frames = self.stack@;
            let ghost outer = frames.drop_last();
            let top = depth - 1;
            let parent = self.stack[top].parent;
            let children = self.stack[top].children;
            let index = self.stack[top].index;
            proof {
                assert(frames[top as int].wf(self.doc@));
                assert(frames.last() == frames[top as int]);
            }

            if index >= children.len() {
                self.stack.pop();
                proof {
                    assert(children@.skip(index as int) =~= Seq::<Node>::empty());
                    assert(self.stack@ =~= outer);
                    assert(frames.last().pending(self.doc@) =~= Seq::<Element>::empty());
                    assert(pending_of(self.doc@, frames) =~= pending_of(self.doc@, outer));
                }
                continue ;
            }
            let child = children[index];
            self.stack[top].index = index + 1;
            proof {
                let rest = children@.skip(index as int);
                assert(rest[0] == children@[index as int]);
                assert(rest.drop_first() =~= children@.skip(index + 1));
                assert(self.doc@.child_ok(parent.key(), index as int));
                assert(self.stack@.drop_last() =~= outer);
                assert(self.stack@.last().wf(self.doc@));
            }

            if let Some(child) = child.as_element() {
                let ghost advanced = self.stack@;
                let below = child.children(self.doc);
                self.stack.push(Frame { parent: child, children: below, index: 0 });
                proof {
                    assert(below@.skip(0) =~= below@);
                    assert(self.stack@.drop_last() =~= advanced);
                    assert(advanced.drop_last() =~= outer);
                    let inner = self.doc@.walk_nodes(below@, child.key().index());
                    let after = self.doc@.walk_nodes(
                        children@.skip(index + 1),
                        parent.key().index(),
                    );
                    assert(frames.last().pending(self.doc@) == seq![child] + inner + after);
                    assert(advanced.last().pending(self.doc@) == after);
                    assert(pending_of(self.doc@, advanced) == after + pending_of(
                        self.doc@,
                        outer,
                    ));
                    assert(self.stack@.last().pending(self.doc@) == inner);
                    assert(pending_of(self.doc@, self.stack@) == inner + (after + pending_of(
                        self.doc@,
                        outer,
                    )));
                    assert(old(self).remaining() =~= seq![child] + self.remaining());
                }
                return Some(child);
            }
        }
    }

    /// Runs the walk to its end and returns what it yields.
    pub fn collect(self) -> (found: Vec<Element>)
        requires
            self.wf(),
        ensures
            found@ == self.remaining(),
    {
        let mut walk = self;
        let mut found: Vec<Element> = Vec::new();
        loop
            invariant
                walk.wf(),
                found@ + walk.remaining() == self.remaining(),
            decreases walk.remaining().len(),
        {
            let ghost before = walk.remaining();
            match walk.next() {
                Some(element) => {
                    found.push(element);
                    proof {
                        assert(found@ + walk.remaining() =~= found@.drop_last() + before);
                    }
                },
                None => {
                    proof {
                        assert(found@ =~= found@ + walk.remaining());
                    }
                    return found;
                },
            }
        }
    }
}

/// A walk over the descendants of `element`, with all of them yet to come.
pub fn walk_tree<'a>(doc: &'a Document, element: Element) -> (walk: Walk<'a>)
    requires
        doc.wf(),
        doc@.is_element(element.key()),
    ensures
        walk.wf(),
        walk.document() == doc,
        walk.remaining() == doc@.walk(element),
{
    let children = element.children(doc);
    let mut stack: Vec<Frame<'a>> = Vec::new();
    stack.push(Frame { parent: element, children, index: 0 });
    proof {
        assert(children@.skip(0) =~= children@);
        assert(stack@.drop_last() =~= Seq::<Frame>::empty());
        assert(pending_of(doc@, stack@.drop_last()) =~= Seq::<Element>::empty());
        assert(stack@.last().pending(doc@) == doc@.walk(element));
        assert(pending_of(doc@, stack@) =~= doc@.walk(element));
    }
    Walk { doc, stack }
}

/// How far a walk has come: where what is left of `all` after `seen`
/// elements starts with `head` and goes on with `rest`, `head` is the element
/// at place `seen` and `rest` is what is left after it.
pub proof fn lemma_walk_step(all: Seq<Element>, seen: int, head: Element, rest: Seq<Element>)
    requires
        0 <= seen <= all.len(),
        all.skip(seen) == seq![head] + rest,
    ensures
        seen < all.len(),
        all[seen] == head,
        rest == all.skip(seen + 1),
{
    let left = seq![head] + rest;
    assert(left.len() == 1 + rest.len());
    assert(all.skip(seen).len() == all.len() - seen);
    assert(left[0] == head);
    assert(all.skip(seen)[0] == all[seen]);
    assert forall|i: int| 0 <= i < rest.len() implies rest[i] == all.skip(seen + 1)[i] by {
        assert(rest[i] == left[i + 1]);
        assert(all.skip(seen)[i + 1] == all[seen + 1 + i]);
    }
    assert(rest =~= all.skip(seen + 1));
}

/// A walk with nothing left has come to the end.
pub proof fn lemma_walk_end(all: Seq<Element>, seen: int)
    requires
        0 <= seen <= all.len(),
        all.skip(seen) == Seq::<Element>::empty(),
    ensures
        seen == all.len(),
{
    assert(all.skip(seen).len() == all.len() - seen);
}

} // verus!
