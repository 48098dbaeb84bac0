//! Selecting elements by a predicate.
//!
//! A selector is any function from a document and one of its elements to a
//! verdict. What language it understands is its own affair: a query puts
//! elements to it in document order and goes by the answers.

use crate::document::Document;
use crate::element::Element;
use vstd::prelude::*;

verus! {

/// Whether `verdicts` are answers that `selector` may give for `elements`,
/// one for each, in order.
pub open spec fn judged<F: Fn(&Document, Element) -> bool>(
    selector: &F,
    doc: &Document,
    elements: Seq<Element>,
    verdicts: Seq<bool>,
) -> bool {
    &&& verdicts.len() == elements.len()
    &&& forall|i: int|
        0 <= i < elements.len() ==> call_ensures(*selector, (doc, #[trigger] elements[i]), verdicts[i])
}

/// Whether `selector` may turn down each of the first `upto` of `elements`.
pub open spec fn turned_down<F: Fn(&Document, Element) -> bool>(
    selector: &F,
    doc: &Document,
    elements: Seq<Element>,
    upto: int,
) -> bool {
    forall|i: int| 0 <= i < upto ==> call_ensures(*selector, (doc, #[trigger] elements[i]), false)
}

/// Those of the first `upto` of `elements` whose verdict is yes, in order.
pub open spec fn picked_upto(elements: Seq<Element>, verdicts: Seq<bool>, upto: int) -> Seq<Element>
    decreases upto,
{
    if upto <= 0 {
        Seq::empty()
    } else if verdicts[upto - 1] {
        picked_upto(elements, verdicts, upto - 1).push(elements[upto - 1])
    } else {
        picked_upto(elements, verdicts, upto - 1)
    }
}

/// Those of `elements` whose verdict is yes, in order.
pub open spec fn picked(elements: Seq<Element>, verdicts: Seq<bool>) -> Seq<Element> {
    picked_upto(elements, verdicts, elements.len() as int)
}

/// What is picked among the first `upto` elements depends on their verdicts alone.
pub proof fn lemma_picked_upto_prefix(
    elements: Seq<Element>,
    verdicts: Seq<bool>,
    others: Seq<bool>,
    upto: int,
)
    requires
        forall|i: int| 0 <= i < upto ==> verdicts[i] == others[i],
    ensures
        picked_upto(elements, verdicts, upto) == picked_upto(elements, others, upto),
    decreases upto,
{
    if upto > 0 {
        lemma_picked_upto_prefix(elements, verdicts, others, upto - 1);
    }
}

/// Where each verdict is what a fixed predicate says of the element, the
/// picked elements are the filter of the sequence by that predicate.
pub proof fn lemma_picked_is_filter(
    elements: Seq<Element>,
    verdicts: Seq<bool>,
    pred: spec_fn(Element) -> bool,
    upto: int,
)
    requires
        0 <= upto <= elements.len(),
        forall|i: int| 0 <= i < upto ==> verdicts[i] == pred(elements[i]),
    ensures
        picked_upto(elements, verdicts, upto) == elements.take(upto).filter(pred),
    decreases upto,
{
    reveal(Seq::filter);
    if upto == 0 {
        assert(elements.take(0) =~= Seq::<Element>::empty());
    } else {
        lemma_picked_is_filter(elements, verdicts, pred, upto - 1);
        assert(elements.take(upto).drop_last() =~= elements.take(upto - 1));
        assert(elements.take(upto).last() == elements[upto - 1]);
    }
}

} // verus!
