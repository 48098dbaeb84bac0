use doctree::document::Document;
use doctree::element::{Element, NewElement};
use doctree::table::{Arena, SideTable};
use indexmap::IndexMap;

#[test]
fn an_arena_names_each_value_by_a_key_of_its_own() {
    let mut arena: Arena<&str> = Arena::new();
    let a = arena.insert("a");
    let b = arena.insert("b");
    assert_ne!(a, b);
    assert_eq!(arena.get(a), Some(&"a"));
    assert_eq!(arena.get(b), Some(&"b"));
}

#[test]
fn an_arena_retires_the_key_of_a_removed_value() {
    let mut arena: Arena<u32> = Arena::new();
    let a = arena.insert(1);
    let b = arena.insert(2);
    assert_eq!(arena.remove(a), Some(1));
    assert_eq!(arena.get(a), None);
    assert_eq!(arena.remove(a), None);
    assert_eq!(arena.get(b), Some(&2));
    let c = arena.insert(3);
    assert_ne!(c, a);
    assert_ne!(c, b);
    assert_eq!(arena.get(a), None);
    assert_eq!(arena.get(c), Some(&3));
}

#[test]
fn an_arena_value_can_be_changed_in_place() {
    let mut arena: Arena<Vec<u8>> = Arena::new();
    let a = arena.insert(vec![1]);
    let b = arena.insert(vec![9]);
    arena.get_mut(a).push(2);
    assert_eq!(arena.get(a), Some(&vec![1, 2]));
    assert_eq!(arena.get(b), Some(&vec![9]));
}

#[test]
fn a_side_table_holds_rows_for_some_keys_only() {
    let mut arena: Arena<()> = Arena::new();
    let first = arena.insert(());
    let second = arena.insert(());
    let third = arena.insert(());
    let mut table: SideTable<&str> = SideTable::new();
    assert!(!table.contains_key(second));
    assert_eq!(table.get(second), None);
    table.insert(third, "c");
    assert!(table.contains_key(third));
    assert!(!table.contains_key(first));
    assert!(!table.contains_key(second));
    table.insert(first, "a");
    assert_eq!(table.get(first), Some(&"a"));
    assert_eq!(table.get(second), None);
    assert_eq!(table.get(third), Some(&"c"));
}

#[test]
fn a_side_table_row_is_replaced_changed_and_dropped() {
    let mut arena: Arena<()> = Arena::new();
    let a = arena.insert(());
    let b = arena.insert(());
    let mut table: SideTable<String> = SideTable::new();
    table.insert(a, "one".to_string());
    table.insert(b, "two".to_string());
    table.insert(a, "three".to_string());
    assert_eq!(table.get(a).map(|s| s.as_str()), Some("three"));
    table.get_mut(b).push_str("!");
    assert_eq!(table.get(b).map(|s| s.as_str()), Some("two!"));
    table.remove(a);
    assert!(!table.contains_key(a));
    assert_eq!(table.get(b).map(|s| s.as_str()), Some("two!"));
    // Dropping a row that is not there, within the table or beyond it, is harmless.
    table.remove(a);
    let c = arena.insert(());
    table.remove(c);
    assert!(!table.contains_key(c));
}

#[test]
fn a_document_knows_its_live_elements() {
    let mut doc = Document::new("root");
    let root = doc.root();
    assert!(doc.has_element(root));
    let e: Element =
        root.append_new_element(&mut doc, NewElement { name: "e".to_string(), attrs: IndexMap::new() });
    assert!(doc.has_element(e));
    root.remove_child(&mut doc, e.as_node());
    assert!(!doc.has_element(e));
    assert!(doc.has_element(root));
}
