//! An in-memory document tree, in the manner of an XML or HTML DOM.
//!
//! All nodes of a [`document::Document`] live in one arena and are named by
//! opaque keys. Which node is whose child, and which attributes an element
//! has, is kept in tables over those keys. Elements are handled through
//! small copyable identities ([`element::Element`]) whose methods take the
//! document as an argument.
//!
//! Contracts are stated over [`model::DocumentView`], the document as three
//! maps, and its invariants are those of `DocumentView::wf`.

pub mod attributes;
pub mod document;
pub mod element;
pub mod key;
pub mod markup;
pub mod model;
pub mod select;
pub mod table;
pub mod value;
pub mod walk;
