//! The document store: one loaded document, either a single value or a
//! line-delimited collection of values with its derived summary.

use vstd::prelude::*;

use crate::JsonValue;
use crate::path_formatting::decimal_digits;
use crate::path_formatting::push_decimal_digits;
use crate::text::chars_to_string;
use crate::value_lookup::Seg;
use crate::value_lookup::lookup_jsonl;
use crate::value_lookup::lookup_segments;
use crate::value_lookup::lookup_value_in_jsonl;
use crate::value_lookup::parse_json_path;
use crate::value_lookup::parse_path;

verus! {

/// The name of the one field a collection summary carries.
pub open spec fn lines_key() -> Seq<char> {
    seq!['l', 'i', 'n', 'e', 's']
}

/// Whether `v` is the summary value of a line-delimited document with `n`
/// lines: a one-field object reporting the line count.
pub open spec fn is_summary(v: JsonValue, n: int) -> bool {
    &&& v matches JsonValue::Obj(entries)
    &&& entries@.len() == 1
    &&& entries@[0].0@ == lines_key()
    &&& entries@[0].1 matches JsonValue::Num(s) && s@ == decimal_digits(n)
}

/// A line-delimited document: its values, one per input line, and a
/// summary computed once at construction — `new` guarantees the summary
/// reports the collection's line count, and no method of this crate
/// mutates either field afterwards.
pub struct JsonLDocument {
    pub values: Vec<JsonValue>,
    pub summary: JsonValue,
}

impl JsonLDocument {
    /// Builds the collection and computes its summary once.
    pub fn new(values: Vec<JsonValue>) -> (r: JsonLDocument)
        ensures
            r.values@ == values@,
            is_summary(r.summary, values@.len() as int),
    {
        let n = values.len();
        let mut digits: Vec<char> = Vec::new();
        push_decimal_digits(n, &mut digits);
        proof {
            assert(Seq::<char>::empty() + decimal_digits(n as int) =~= decimal_digits(
                n as int,
            ));
        }
        let num = chars_to_string(&digits);
        let key = "lines".to_owned();
        proof {
            reveal_strlit("lines");
            assert(key@ =~= lines_key());
        }
        let mut entries: Vec<(String, JsonValue)> = Vec::new();
        entries.push((key, JsonValue::Num(num)));
        let summary = JsonValue::Obj(entries);
        JsonLDocument { values, summary }
    }

    /// The collection's values, in line order.
    pub fn values(&self) -> (r: &Vec<JsonValue>)
        ensures
            r@ == self.values@,
    {
        &self.values
    }
}

/// One loaded document: a single value, or a line-delimited collection.
pub enum StoredDocument {
    Single(JsonValue),
    JsonL(JsonLDocument),
}

impl StoredDocument {
    /// The value a parsed path addresses in this store. For a
    /// line-delimited document the empty path does not fail: it addresses
    /// the summary, since the collection has no single root value.
    pub open spec fn lookup_spec(&self, segs: Seq<Seg>) -> Option<JsonValue> {
        match self {
            StoredDocument::Single(v) => lookup_segments(*v, segs),
            StoredDocument::JsonL(d) => if segs.len() == 0 {
                Some(d.summary)
            } else {
                lookup_jsonl(d.values@, segs)
            },
        }
    }

    /// Looks up `path` in this document. A path that fails the grammar
    /// finds nothing; the bare root `$` addresses a single document's whole
    /// value, or a collection's summary.
    pub fn lookup_value(&self, path: &str) -> (r: Option<&JsonValue>)
        ensures
            match parse_path(path@) {
                Some(segs) => match r {
                    Some(v) => self.lookup_spec(segs) == Some(*v),
                    None => self.lookup_spec(segs) is None,
                },
                None => r is None,
            },
    {
        match self {
            StoredDocument::Single(v) => crate::value_lookup::lookup_value(v, path),
            StoredDocument::JsonL(d) => {
                let segments = match parse_json_path(path) {
                    Some(segments) => segments,
                    None => {
                        return None;
                    },
                };
                if segments.len() == 0 {
                    return Some(&d.summary);
                }
                lookup_value_in_jsonl(&d.values, path)
            },
        }
    }
}

} // verus!
