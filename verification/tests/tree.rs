use doctree::document::Document;
use doctree::element::{Element, NewElement};
use doctree::key::Node;
use indexmap::IndexMap;

fn named(name: &str) -> NewElement {
    NewElement { name: name.to_string(), attrs: IndexMap::new() }
}

/// root -> [A -> [B, C], D]
fn sample() -> (Document, Element, [Element; 4]) {
    let mut doc = Document::new("root");
    let root = doc.root();
    let a = root.append_new_element(&mut doc, named("A"));
    let b = a.append_new_element(&mut doc, named("B"));
    let c = a.append_new_element(&mut doc, named("C"));
    let d = root.append_new_element(&mut doc, named("D"));
    (doc, root, [a, b, c, d])
}

#[test]
fn new_document_holds_only_its_root() {
    let doc = Document::new("root");
    let root = doc.root();
    assert_eq!(root.name(&doc), "root");
    assert!(root.children(&doc).is_empty());
    assert_eq!(root.parent(&doc), None);
    assert!(root.attributes(&doc).is_empty());
    assert!(root.walk(&doc).collect().is_empty());
}

#[test]
fn appended_nodes_have_their_parent_and_stand_once_among_its_children() {
    let mut doc = Document::new("root");
    let root = doc.root();
    let e = root.append_new_element(&mut doc, named("e"));
    let t = root.append_text(&mut doc, "some text");
    let c = root.append_cdata(&mut doc, "raw");
    let m = root.append_comment(&mut doc, "note");
    let children = root.children(&doc).to_vec();
    assert_eq!(
        children,
        vec![Node::Element(e), Node::Text(t), Node::CDataSection(c), Node::Comment(m)]
    );
    assert_eq!(e.parent(&doc), Some(root));
    for node in [e.as_node(), t.as_node(), c.as_node(), m.as_node()] {
        assert_eq!(children.iter().filter(|x| **x == node).count(), 1);
    }
    assert_eq!(e.name(&doc), "e");
    assert!(e.children(&doc).is_empty());
}

#[test]
fn keys_are_handed_out_once() {
    let mut doc = Document::new("root");
    let root = doc.root();
    let first = root.append_text(&mut doc, "one");
    root.remove_child(&mut doc, first.as_node());
    let second = root.append_text(&mut doc, "two");
    assert_ne!(first.as_key(), second.as_key());
    assert_ne!(first, second);
    assert_eq!(root.children(&doc).to_vec(), vec![Node::Text(second)]);
}

#[test]
fn append_then_remove_restores_the_children() {
    let (mut doc, root, [a, _, _, d]) = sample();
    let before = root.children(&doc).to_vec();
    let extra = root.append_new_element(&mut doc, named("extra"));
    assert_eq!(root.children(&doc).len(), before.len() + 1);
    root.remove_child(&mut doc, extra.as_node());
    assert_eq!(root.children(&doc).to_vec(), before);
    assert_eq!(before, vec![Node::Element(a), Node::Element(d)]);
    assert_eq!(extra.parent(&doc), None);
    assert!(extra.attributes(&doc).is_empty());
}

#[test]
fn removing_from_the_middle_keeps_the_order_of_the_rest() {
    let mut doc = Document::new("root");
    let root = doc.root();
    let a = root.append_new_element(&mut doc, named("a"));
    let t = root.append_text(&mut doc, "t");
    let b = root.append_new_element(&mut doc, named("b"));
    root.remove_child(&mut doc, t.as_node());
    assert_eq!(root.children(&doc).to_vec(), vec![Node::Element(a), Node::Element(b)]);
    assert_eq!(a.next_sibling_element(&doc), Some(b));
}

#[test]
fn removing_an_absent_node_changes_nothing() {
    let (mut doc, root, [a, b, c, d]) = sample();
    // B is a child of A, not of the root.
    root.remove_child(&mut doc, b.as_node());
    assert_eq!(root.children(&doc).to_vec(), vec![Node::Element(a), Node::Element(d)]);
    assert_eq!(a.children(&doc).to_vec(), vec![Node::Element(b), Node::Element(c)]);
    assert_eq!(b.parent(&doc), Some(a));
    assert_eq!(root.walk(&doc).collect(), vec![a, b, c, d]);
}

#[test]
fn removing_an_element_leaves_what_hangs_below_it() {
    let (mut doc, root, [a, b, c, d]) = sample();
    root.remove_child(&mut doc, a.as_node());
    assert_eq!(root.children(&doc).to_vec(), vec![Node::Element(d)]);
    assert_eq!(root.walk(&doc).collect(), vec![d]);
    // B and C are still stored, and still name A as their parent.
    assert_eq!(b.name(&doc), "B");
    assert_eq!(c.name(&doc), "C");
    assert_eq!(b.parent(&doc), Some(a));
}

#[test]
fn attributes_keep_first_insertion_order_and_the_last_value() {
    let mut doc = Document::new("root");
    let root = doc.root();
    root.set_attribute(&mut doc, "a", "1");
    root.set_attribute(&mut doc, "b", "2");
    root.set_attribute(&mut doc, "a", "3");
    let attrs = root.attributes(&doc);
    let entries: Vec<(&str, &str)> = attrs.iter().map(|(k, v)| (k.as_str(), v.as_str())).collect();
    assert_eq!(entries, vec![("a", "3"), ("b", "2")]);
    assert_eq!(root.attribute(&doc, "a"), Some("3"));
    assert_eq!(root.attribute(&doc, "b"), Some("2"));
    assert_eq!(root.attribute(&doc, "c"), None);
}

#[test]
fn a_new_element_starts_with_the_attributes_given() {
    let mut doc = Document::new("root");
    let root = doc.root();
    let mut attrs = IndexMap::new();
    attrs.insert("id".to_string(), "x".to_string());
    attrs.insert("class".to_string(), "y".to_string());
    let e = root.append_new_element(&mut doc, NewElement { name: "e".to_string(), attrs });
    let entries: Vec<(&str, &str)> =
        e.attributes(&doc).iter().map(|(k, v)| (k.as_str(), v.as_str())).collect();
    assert_eq!(entries, vec![("id", "x"), ("class", "y")]);
    e.set_attribute(&mut doc, "id", "z");
    e.set_attribute(&mut doc, "lang", "en");
    let entries: Vec<(&str, &str)> =
        e.attributes(&doc).iter().map(|(k, v)| (k.as_str(), v.as_str())).collect();
    assert_eq!(entries, vec![("id", "z"), ("class", "y"), ("lang", "en")]);
    assert!(root.attributes(&doc).is_empty());
}

#[test]
fn reading_attributes_that_were_never_set_gives_nothing() {
    let mut doc = Document::new("root");
    let root = doc.root();
    let e = root.append_new_element(&mut doc, named("e"));
    assert!(root.attributes(&doc).is_empty());
    assert_eq!(root.attribute(&doc, "any"), None);
    assert_eq!(root.attribute(&doc, ""), None);
    assert!(e.attributes(&doc).is_empty());
    assert_eq!(e.attribute(&doc, "any"), None);
    // Reading twice gives the same, and a later write still starts from nothing.
    assert!(root.attributes(&doc).is_empty());
    root.set_attribute(&mut doc, "k", "v");
    assert_eq!(root.attributes(&doc).len(), 1);
    assert!(e.attributes(&doc).is_empty());
}

#[test]
fn sibling_navigation_passes_over_other_kinds() {
    let mut doc = Document::new("root");
    let root = doc.root();
    let e1 = root.append_new_element(&mut doc, named("e1"));
    let _t1 = root.append_text(&mut doc, "t1");
    let e2 = root.append_new_element(&mut doc, named("e2"));
    let _c1 = root.append_comment(&mut doc, "c1");
    let e3 = root.append_new_element(&mut doc, named("e3"));
    assert_eq!(e1.next_sibling_element(&doc), Some(e2));
    assert_eq!(e2.next_sibling_element(&doc), Some(e3));
    assert_eq!(e3.next_sibling_element(&doc), None);
    assert_eq!(e3.prev_sibling_element(&doc), Some(e2));
    assert_eq!(e2.prev_sibling_element(&doc), Some(e1));
    assert_eq!(e1.prev_sibling_element(&doc), None);
}

#[test]
fn the_root_has_no_siblings() {
    let (doc, root, _) = sample();
    assert_eq!(root.next_sibling_element(&doc), None);
    assert_eq!(root.prev_sibling_element(&doc), None);
}

#[test]
fn an_element_between_text_nodes_has_no_sibling_element() {
    let mut doc = Document::new("root");
    let root = doc.root();
    root.append_text(&mut doc, "before");
    let only = root.append_new_element(&mut doc, named("only"));
    root.append_cdata(&mut doc, "after");
    assert_eq!(only.next_sibling_element(&doc), None);
    assert_eq!(only.prev_sibling_element(&doc), None);
}

#[test]
fn walk_yields_descendants_in_document_order() {
    let (doc, root, [a, b, c, d]) = sample();
    assert_eq!(root.walk(&doc).collect(), vec![a, b, c, d]);
    assert_eq!(a.walk(&doc).collect(), vec![b, c]);
    assert!(b.walk(&doc).collect().is_empty());
    assert!(d.walk(&doc).collect().is_empty());
}

#[test]
fn walk_passes_over_text_comments_and_cdata() {
    let mut doc = Document::new("root");
    let root = doc.root();
    root.append_text(&mut doc, "t");
    let a = root.append_new_element(&mut doc, named("a"));
    a.append_comment(&mut doc, "c");
    let b = a.append_new_element(&mut doc, named("b"));
    a.append_cdata(&mut doc, "d");
    root.append_text(&mut doc, "u");
    assert_eq!(root.walk(&doc).collect(), vec![a, b]);
}

#[test]
fn query_selector_finds_by_name() {
    let (doc, root, [_, _, c, _]) = sample();
    let is_c = |doc: &Document, e: Element| e.name(doc) == "C";
    assert_eq!(root.query_selector_all(&doc, &is_c), vec![c]);
    assert_eq!(root.query_selector(&doc, &is_c), Some(c));
    let nothing = |_: &Document, _: Element| false;
    assert_eq!(root.query_selector(&doc, &nothing), None);
    assert!(root.query_selector_all(&doc, &nothing).is_empty());
}

#[test]
fn query_selector_takes_the_first_match_in_document_order() {
    let (doc, root, [a, b, c, d]) = sample();
    let all = |_: &Document, _: Element| true;
    assert_eq!(root.query_selector(&doc, &all), Some(a));
    assert_eq!(root.query_selector_all(&doc, &all), vec![a, b, c, d]);
    let leaves = |doc: &Document, e: Element| e.children(doc).is_empty();
    assert_eq!(root.query_selector(&doc, &leaves), Some(b));
    assert_eq!(root.query_selector_all(&doc, &leaves), vec![b, c, d]);
    // The element asked is not among its own descendants.
    let is_root = |doc: &Document, e: Element| e.name(doc) == "root";
    assert_eq!(root.query_selector(&doc, &is_root), None);
}

#[test]
fn nodes_convert_from_and_to_their_identities() {
    let mut doc = Document::new("root");
    let root = doc.root();
    let e = root.append_new_element(&mut doc, named("e"));
    let t = root.append_text(&mut doc, "t");
    assert_eq!(Node::from(e), Node::Element(e));
    assert_eq!(e.as_node(), Node::Element(e));
    assert_eq!(Node::from(t), Node::Text(t));
    assert_eq!(Node::Element(e).as_element(), Some(e));
    assert_eq!(Node::Text(t).as_element(), None);
    assert_eq!(Node::Element(e).as_key(), e.as_key());
    assert_ne!(Node::Element(e), Node::Text(t));
}

#[test]
fn a_cloned_new_element_carries_the_same_name_and_attributes() {
    let mut attrs = IndexMap::new();
    attrs.insert("k".to_string(), "v".to_string());
    attrs.insert("a".to_string(), "b".to_string());
    let first = NewElement { name: "n".to_string(), attrs };
    let second = first.clone();
    assert_eq!(second.name, "n");
    let entries: Vec<(&String, &String)> = second.attrs.iter().collect();
    assert_eq!(entries.len(), 2);
    assert_eq!((entries[0].0.as_str(), entries[0].1.as_str()), ("k", "v"));
    assert_eq!((entries[1].0.as_str(), entries[1].1.as_str()), ("a", "b"));
}

#[test]
fn a_walk_yields_one_element_at_a_time_and_then_stays_over() {
    let (doc, root, [a, b, c, d]) = sample();
    let mut walk = root.walk(&doc);
    assert_eq!(walk.next(), Some(a));
    assert_eq!(walk.next(), Some(b));
    assert_eq!(walk.next(), Some(c));
    assert_eq!(walk.next(), Some(d));
    assert_eq!(walk.next(), None);
    assert_eq!(walk.next(), None);
}

#[test]
fn each_walk_starts_afresh() {
    let (doc, root, [a, b, c, d]) = sample();
    let mut first = root.walk(&doc);
    assert_eq!(first.next(), Some(a));
    let second = root.walk(&doc);
    assert_eq!(second.collect(), vec![a, b, c, d]);
    assert_eq!(first.collect(), vec![b, c, d]);
}

#[test]
fn a_walk_goes_down_before_it_goes_on() {
    let mut doc = Document::new("root");
    let root = doc.root();
    let a = root.append_new_element(&mut doc, named("a"));
    let b = a.append_new_element(&mut doc, named("b"));
    let c = b.append_new_element(&mut doc, named("c"));
    let d = root.append_new_element(&mut doc, named("d"));
    // Appended to A after D was made: still before D in document order.
    let e = a.append_new_element(&mut doc, named("e"));
    assert_eq!(root.walk(&doc).collect(), vec![a, b, c, e, d]);
    assert_eq!(a.walk(&doc).collect(), vec![b, c, e]);
    assert_eq!(b.walk(&doc).collect(), vec![c]);
}

#[test]
fn a_selector_is_not_asked_beyond_the_first_match() {
    let (doc, root, [a, b, _, _]) = sample();
    let asked = std::cell::RefCell::new(Vec::new());
    let is_b = |doc: &Document, e: Element| {
        asked.borrow_mut().push(e);
        e.name(doc) == "B"
    };
    assert_eq!(root.query_selector(&doc, &is_b), Some(b));
    assert_eq!(*asked.borrow(), vec![a, b]);
}

#[test]
fn display_of_an_element_without_children_is_one_tag() {
    let doc = Document::new("root");
    assert_eq!(doc.root().display(&doc), "<root/>");
}

#[test]
fn display_nests_children_in_their_order() {
    let (doc, root, [a, b, _, d]) = sample();
    assert_eq!(root.display(&doc), "<root><A><B/><C/></A><D/></root>");
    assert_eq!(a.display(&doc), "<A><B/><C/></A>");
    assert_eq!(b.display(&doc), "<B/>");
    assert_eq!(d.display(&doc), "<D/>");
}

#[test]
fn display_writes_attributes_in_their_order() {
    let mut doc = Document::new("root");
    let root = doc.root();
    root.set_attribute(&mut doc, "b", "2");
    root.set_attribute(&mut doc, "a", "1");
    root.set_attribute(&mut doc, "b", "3");
    assert_eq!(root.display(&doc), "<root b=\"3\" a=\"1\"/>");
    let mut attrs = IndexMap::new();
    attrs.insert("id".to_string(), "x".to_string());
    let e = root.append_new_element(&mut doc, NewElement { name: "e".to_string(), attrs });
    assert_eq!(e.display(&doc), "<e id=\"x\"/>");
    assert_eq!(root.display(&doc), "<root b=\"3\" a=\"1\"><e id=\"x\"/></root>");
}

#[test]
fn display_writes_each_kind_of_node() {
    let mut doc = Document::new("p");
    let root = doc.root();
    root.append_text(&mut doc, "one ");
    root.append_cdata(&mut doc, "a < b");
    root.append_comment(&mut doc, " note ");
    let e = root.append_new_element(&mut doc, named("br"));
    root.append_text(&mut doc, " two");
    assert_eq!(root.display(&doc), "<p>one <![CDATA[a < b]]><!-- note --><br/> two</p>");
    assert_eq!(e.display(&doc), "<br/>");
}

#[test]
fn display_escapes_text_and_attribute_values() {
    let mut doc = Document::new("t");
    let root = doc.root();
    root.set_attribute(&mut doc, "q", "a \"b\" & <c>");
    root.append_text(&mut doc, "1 < 2 && 3 > 2, \"quoted\"");
    assert_eq!(
        root.display(&doc),
        "<t q=\"a &quot;b&quot; &amp; &lt;c&gt;\">1 &lt; 2 &amp;&amp; 3 &gt; 2, \"quoted\"</t>"
    );
}

#[test]
fn display_keeps_text_beyond_ascii() {
    let mut doc = Document::new("t");
    let root = doc.root();
    root.append_text(&mut doc, "gr\u{fc}\u{df}e \u{4e16}\u{754c}");
    assert_eq!(root.display(&doc), "<t>gr\u{fc}\u{df}e \u{4e16}\u{754c}</t>");
}

#[test]
fn display_leaves_out_a_removed_child() {
    let (mut doc, root, [a, _, _, _]) = sample();
    root.remove_child(&mut doc, a.as_node());
    assert_eq!(root.display(&doc), "<root><D/></root>");
}
