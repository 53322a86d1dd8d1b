//! Addressing and searching within in-memory JSON document trees.
//!
//! A node in a document is named by a path string in a small JSONPath-like
//! notation rooted at `$`. This crate parses such paths into segment
//! sequences, renders segments back into canonical path strings, resolves
//! paths against document values (single documents or line-delimited
//! collections), finds pattern occurrences in rendered text with
//! character-accurate offsets, and correlates global search-match indices
//! with the occurrence to highlight inside one node's rendered value.

use vstd::prelude::*;

pub mod text;
pub mod document_store;
pub mod path_formatting;
pub mod search;
pub mod value_lookup;

verus! {

/// A document value: a closed recursive tree of scalars, arrays and objects.
///
/// Objects preserve insertion order, since display order matters to
/// consumers; numbers are carried as their decimal rendering, which this
/// crate never inspects.
#[derive(Debug, PartialEq)]
pub enum JsonValue {
    Null,
    Bool(bool),
    Num(String),
    Str(String),
    Arr(Vec<JsonValue>),
    Obj(Vec<(String, JsonValue)>),
}

} // verus!
