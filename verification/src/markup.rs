//! Writing a subtree out as markup text.

use crate::attributes::{attr_entries, table_entry, table_len, AttrEntries};
use crate::document::Document;
use crate::key::{DocKey, Node};
use crate::model::DocumentView;
use crate::value::{ItemValue, ItemView};
use indexmap::IndexMap;
use vstd::prelude::*;
use vstd::std_specs::iter::IteratorSpec;
use vstd::string::StringExecFns;

verus! {

/// What stands for `c` in markup text: the characters that would read as
/// markup are replaced by entity references. A double quote is replaced
/// inside an attribute value only.
pub open spec fn escaped_char(c: char, in_attribute: bool) -> Seq<char> {
    if c == '&' {
        "&amp;"@
    } else if c == '<' {
        "&lt;"@
    } else if c == '>' {
        "&gt;"@
    } else if c == '"' && in_attribute {
        "&quot;"@
    } else {
        seq![c]
    }
}

/// `text` with each character replaced by what stands for it.
pub open spec fn escaped(text: Seq<char>, in_attribute: bool) -> Seq<char>
    decreases text.len(),
{
    if text.len() == 0 {
        Seq::empty()
    } else {
        escaped(text.drop_last(), in_attribute) + escaped_char(text.last(), in_attribute)
    }
}

/// `String::push`: the character is added at the end.
#[verifier::external_body]
fn push_char(out: &mut String, c: char)
    ensures
        final(out)@ == old(out)@.push(c),
{
    out.push(c)
}

/// Appends `text` to `out`, escaped.
pub fn write_escaped(out: &mut String, text: &str, in_attribute: bool)
    ensures
        final(out)@ == old(out)@ + escaped(text@, in_attribute),
{
    let ghost start = out@;
    for c in it: text.chars()
        invariant
            it.seq() == text@,
            out@ == start + escaped(text@.take(it.index() as int), in_attribute),
    {
        proof {
            let i = it.index() as int;
            assert(text@.take(i + 1).drop_last() =~= text@.take(i));
            assert(text@.take(i + 1).last() == c);
        }
        if c == '&' {
            out.append("&amp;");
        } else if c == '<' {
            out.append("&lt;");
        } else if c == '>' {
            out.append("&gt;");
        } else if c == '"' && in_attribute {
            out.append("&quot;");
        } else {
            push_char(out, c);
        }
    }
    assert(text@.take(text@.len() as int) =~= text@);
}

/// One attribute as it stands in a start tag: a space, the name, and the
/// escaped value in double quotes.
pub open spec fn attribute_markup(entry: (Seq<char>, Seq<char>)) -> Seq<char> {
    " "@ + entry.0 + "=\""@ + escaped(entry.1, true) + "\""@
}

/// The attributes of a start tag, in the order of the table.
pub open spec fn attributes_markup(entries: AttrEntries) -> Seq<char>
    decreases entries.len(),
{
    if entries.len() == 0 {
        Seq::empty()
    } else {
        attributes_markup(entries.drop_last()) + attribute_markup(entries.last())
    }
}

/// An element as markup: a start tag with the attributes, the markup of the
/// children, and an end tag. An element without children is one empty tag.
pub open spec fn element_markup(
    name: Seq<char>,
    entries: AttrEntries,
    has_children: bool,
    inner: Seq<char>,
) -> Seq<char> {
    if has_children {
        "<"@ + name + attributes_markup(entries) + ">"@ + inner + "</"@ + name + ">"@
    } else {
        "<"@ + name + attributes_markup(entries) + "/>"@
    }
}

/// The markup of `nodes`, one after the other in their order: an element
/// with its subtree nested inside it, text escaped, a CDATA section and a
/// comment between their delimiters.
///
/// `above` is the slot number of the element whose children `nodes` are.
pub open spec fn nodes_markup(doc: DocumentView, nodes: Seq<Node>, above: nat) -> Seq<char>
    decreases doc.next - above, nodes.len(),
{
    if nodes.len() == 0 {
        Seq::empty()
    } else {
        let key = nodes[0].key();
        let first = if doc.items.contains_key(key) {
            match doc.items[key] {
                ItemView::Element { name, children } => element_markup(
                    name,
                    doc.attrs_of(key),
                    children.len() > 0,
                    if above < key.index() < doc.next {
                        nodes_markup(doc, children, key.index())
                    } else {
                        Seq::empty()
                    },
                ),
                ItemView::Text(text) => escaped(text, false),
                ItemView::CData(text) => "<![CDATA["@ + text + "]]>"@,
                ItemView::Comment(text) => "<!--"@ + text + "-->"@,
            }
        } else {
            Seq::empty()
        };
        first + nodes_markup(doc, nodes.drop_first(), above)
    }
}

/// The markup of the element under `key` and of all that hangs below it.
pub open spec fn markup(doc: DocumentView, key: DocKey) -> Seq<char> {
    element_markup(
        doc.name_of(key),
        doc.attrs_of(key),
        doc.children_of(key).len() > 0,
        nodes_markup(doc, doc.children_of(key), key.index()),
    )
}

/// Appends the attributes of `table` to `out`, as they stand in a start tag.
pub fn write_attributes(out: &mut String, table: &IndexMap<String, String>)
    ensures
        final(out)@ == old(out)@ + attributes_markup(attr_entries(*table)),
{
    let ghost start = out@;
    let ghost entries = attr_entries(*table);
    let len = table_len(table);
    let mut index: usize = 0;
    assert(entries.take(0) =~= Seq::<(Seq<char>, Seq<char>)>::empty());
    while index < len
        invariant
            index <= len,
            len == entries.len(),
            entries == attr_entries(*table),
            out@ == start + attributes_markup(entries.take(index as int)),
        decreases len - index,
    {
        proof {
            assert(entries.take(index + 1).drop_last() =~= entries.take(index as int));
            assert(entries.take(index + 1).last() == entries[index as int]);
        }
        match table_entry(table, index) {
            Some((name, value)) => {
                out.append(" ");
                out.append(name.as_str());
                out.append("=\"");
                write_escaped(out, value.as_str(), true);
                out.append("\"");
            },
            None => {},
        }
        index += 1;
    }
    assert(entries.take(len as int) =~= entries);
}

/// Appends to `out` the markup of the element under `key` and of all that
/// hangs below it.
pub fn write_element(doc: &Document, key: DocKey, out: &mut String)
    requires
        doc.wf(),
        doc@.is_element(key),
    ensures
        final(out)@ == old(out)@ + markup(doc@, key),
    decreases doc@.next - key.index(),
{
    let ghost start = out@;
    let element = doc.element(key);
    out.append("<");
    out.append(element.name.as_str());
    write_attributes(out, doc.attrs_or_empty(key));
    if element.children.len() == 0 {
        out.append("/>");
        return ;
    }
    out.append(">");

    let ghost open = out@;
    let ghost above = key.index();
    let children = element.children.as_slice();
    let mut index: usize = 0;
    assert(children@.skip(0) =~= children@);
    while index < children.len()
        invariant
            doc.wf(),
            doc@.is_element(key),
            children@ == doc@.children_of(key),
            above == key.index(),
            index <= children@.len(),
            out@ + nodes_markup(doc@, children@.skip(index as int), above) == open + nodes_markup(
                doc@,
                children@,
                above,
            ),
        decreases children@.len() - index,
    {
        let ghost before = out@;
        let ghost rest = children@.skip(index as int);
        let ghost after = nodes_markup(doc@, children@.skip(index + 1), above);
        proof {
            assert(rest.drop_first() =~= children@.skip(index + 1));
            assert(rest[0] == children@[index as int]);
            assert(doc@.child_ok(key, index as int));
        }
        let child = children[index].as_key();
        match doc.item(child) {
            Some(ItemValue::Element(_)) => {
                write_element(doc, child, out);
                proof {
                    let inner = markup(doc@, child);
                    assert(nodes_markup(doc@, rest, above) == inner + after);
                    assert(out@ + after =~= before + (inner + after));
                }
            },
            Some(ItemValue::Text(text)) => {
                write_escaped(out, text.as_str(), false);
                proof {
                    assert(out@ + after =~= before + (escaped(text@, false) + after));
                }
            },
            Some(ItemValue::CData(text)) => {
                out.append("<![CDATA[");
                out.append(text.as_str());
                out.append("]]>");
                proof {
                    assert(out@ + after =~= before + ("<![CDATA["@ + text@ + "]]>"@ + after));
                }
            },
            Some(ItemValue::Comment(text)) => {
                out.append("<!--");
                out.append(text.as_str());
                out.append("-->");
                proof {
                    assert(out@ + after =~= before + ("<!--"@ + text@ + "-->"@ + after));
                }
            },
            None => {},
        }
        index += 1;
    }
    assert(children@.skip(index as int) =~= Seq::<Node>::empty());

    out.append("</");
    out.append(element.name.as_str());
    out.append(">");
    proof {
        assert(out@ =~= start + markup(doc@, key));
    }
}

} // verus!
