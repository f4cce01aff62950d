//! The filter expression tree.

use vstd::prelude::*;

verus! {

/// A typed scalar usable in a [`Filter`].
#[derive(Clone, PartialEq, Debug)]
pub enum Scalar {
    /// A signed 64-bit integer.
    I64(i64),
    /// A 64-bit floating point number, as its IEEE-754 bit pattern.
    F64(u64),
    /// A UTF-8 string.
    Str(String),
    /// A boolean.
    Bool(bool),
    /// A timestamp, in epoch milliseconds.
    DateTime(i64),
}

/// The predicate language shared by every client.
#[derive(PartialEq, Debug)]
pub enum Filter {
    /// Matches when all sub-filters match.
    And(Vec<Filter>),
    /// Matches when any sub-filter matches.
    Or(Vec<Filter>),
    /// Matches when the inner filter does not match.
    Not(Box<Filter>),
    /// Matches when the field equals a value exactly.
    Eq { field: String, value: Scalar },
    /// Matches when the field's value is one of a set.
    In { field: String, values: Vec<Scalar> },
    /// Matches when the field falls within (optional) bounds.
    Range {
        field: String,
        gte: Option<Scalar>,
        lte: Option<Scalar>,
        gt: Option<Scalar>,
        lt: Option<Scalar>,
    },
    /// Matches when the field is present.
    Exists { field: String },
    /// Matches the rows of the named documents.
    DocIn { doc_keys: Vec<String> },
    /// Resolved by a text index, not by the payload store.
    TextMatch { field: String, terms: Vec<String> },
}

} // verus!
