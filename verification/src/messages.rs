//! What errors say.

use crate::codec::ProtoError;
use crate::encoding;
use crate::encoding::quote;
use crate::error::{StorageError, StorageErrorView};
use crate::hit::IndexError;
use crate::ids;
use crate::lsh::LshError;
use crate::lsn::{LsnParseError, LsnParseErrorView};
use crate::payload::{FilterError, FilterErrorView};
use crate::pq::PqError;
use crate::text;
use crate::text::decimal_string;
use vstd::prelude::*;
use vstd::string::*;

verus! {

/// What a filter error says.
pub open spec fn filter_text(e: FilterErrorView) -> Seq<char> {
    match e {
        FilterErrorView::UnknownField(f) => "unknown payload field "@ + encoding::quoted(f) + " — not declared in the collection's schema"@,
        FilterErrorView::TypeMismatch { field, expected, actual } => "field "@ + encoding::quoted(field) + " is type "@ + actual
            + ", this filter needs "@ + expected,
        FilterErrorView::TextMatchUnsupported => "TextMatch filtering requires the BM25 index, not available yet"@,
        FilterErrorView::FieldAlreadyExists(f) => "field "@ + encoding::quoted(f) + " already exists in the schema"@,
    }
}

impl FilterError {
    /// What the error says.
    pub fn to_text(&self) -> (r: String)
        ensures
            r@ == filter_text(self@),
    {
        match self {
            FilterError::UnknownField(f) => {
                let mut out = "unknown payload field ".to_owned();
                out.append(quote(f.as_str()).as_str());
                out.append(" — not declared in the collection's schema");
                out
            },
            FilterError::TypeMismatch { field, expected, actual } => {
                let mut out = "field ".to_owned();
                out.append(quote(field.as_str()).as_str());
                out.append(" is type ");
                out.append(actual);
                out.append(", this filter needs ");
                out.append(expected);
                out
            },
            FilterError::TextMatchUnsupported => "TextMatch filtering requires the BM25 index, not available yet".to_owned(),
            FilterError::FieldAlreadyExists(f) => {
                let mut out = "field ".to_owned();
                out.append(quote(f.as_str()).as_str());
                out.append(" already exists in the schema");
                out
            },
        }
    }
}

/// What a storage error says.
pub open spec fn storage_text(e: StorageErrorView) -> Seq<char> {
    match e {
        StorageErrorView::CollectionNotFound(s) => "collection "@ + encoding::quoted(s) + " not found"@,
        StorageErrorView::CollectionAlreadyExists(s) => "collection "@ + encoding::quoted(s) + " already exists"@,
        StorageErrorView::KeyNotFound(s) => "key "@ + encoding::quoted(s) + " not found"@,
        StorageErrorView::RowNotFound(id) => "row RowId("@ + text::decimal(id as nat) + ") not found"@,
        StorageErrorView::DocumentNotFound(s) => "document "@ + encoding::quoted(s) + " not found"@,
        StorageErrorView::DimensionMismatch { coll, expected, got } => "vector has dimension "@ + text::decimal(got as nat)
            + ", collection "@ + encoding::quoted(coll) + " expects "@ + text::decimal(expected as nat),
        StorageErrorView::InvalidArgument(s) => s,
        StorageErrorView::Filter(f) => filter_text(f),
        StorageErrorView::Wal(s) => "WAL error: "@ + s,
        StorageErrorView::UndoConflict { txn, conflicts } => "cannot undo txn "@ + ids::uuid_text(txn) + ": "@
            + text::decimal(conflicts.len()) + " of its rows were touched by a later transaction"@,
    }
}

/// A text between a quoted name's two neighbours.
fn around(before: &str, name: &str, after: &str) -> (r: String)
    ensures
        r@ == before@ + encoding::quoted(name@) + after@,
{
    let mut out = before.to_owned();
    out.append(quote(name).as_str());
    out.append(after);
    out
}

impl StorageError {
    /// What the error says.
    pub fn to_text(&self) -> (r: String)
        ensures
            r@ == storage_text(self@),
    {
        match self {
            StorageError::CollectionNotFound(s) => around("collection ", s.as_str(), " not found"),
            StorageError::CollectionAlreadyExists(s) => around("collection ", s.as_str(), " already exists"),
            StorageError::KeyNotFound(s) => around("key ", s.as_str(), " not found"),
            StorageError::RowNotFound(id) => {
                let mut out = "row RowId(".to_owned();
                out.append(decimal_string(id.0).as_str());
                out.append(") not found");
                out
            },
            StorageError::DocumentNotFound(s) => around("document ", s.as_str(), " not found"),
            StorageError::DimensionMismatch { coll, expected, got } => {
                let mut out = "vector has dimension ".to_owned();
                out.append(decimal_string(*got as u64).as_str());
                out.append(", collection ");
                out.append(quote(coll.as_str()).as_str());
                out.append(" expects ");
                out.append(decimal_string(*expected as u64).as_str());
                out
            },
            StorageError::InvalidArgument(s) => s.clone(),
            StorageError::Filter(f) => f.to_text(),
            StorageError::Wal(s) => {
                let mut out = "WAL error: ".to_owned();
                out.append(s.as_str());
                out
            },
            StorageError::UndoConflict { txn, conflicts } => {
                let mut out = "cannot undo txn ".to_owned();
                out.append(txn.to_text().as_str());
                out.append(": ");
                out.append(decimal_string(conflicts.len() as u64).as_str());
                out.append(" of its rows were touched by a later transaction");
                out
            },
        }
    }
}

/// What a parse error says.
pub open spec fn parse_text(e: LsnParseErrorView) -> Seq<char> {
    match e {
        LsnParseErrorView::BadFormat(s) => "invalid LSN format "@ + encoding::quoted(s) + ", expected \"segment/offset\" hex"@,
        LsnParseErrorView::BadSegment(s) => "invalid LSN segment hex "@ + encoding::quoted(s),
        LsnParseErrorView::BadOffset(s) => "invalid LSN offset hex "@ + encoding::quoted(s),
    }
}

impl LsnParseError {
    /// What the error says.
    pub fn to_text(&self) -> (r: String)
        ensures
            r@ == parse_text(self@),
    {
        match self {
            LsnParseError::BadFormat(s) => around("invalid LSN format ", s.as_str(), ", expected \"segment/offset\" hex"),
            LsnParseError::BadSegment(s) => {
                let mut out = "invalid LSN segment hex ".to_owned();
                out.append(quote(s.as_str()).as_str());
                out
            },
            LsnParseError::BadOffset(s) => {
                let mut out = "invalid LSN offset hex ".to_owned();
                out.append(quote(s.as_str()).as_str());
                out
            },
        }
    }
}

/// What a protocol error says.
pub open spec fn proto_text(e: ProtoError) -> Seq<char> {
    match e {
        ProtoError::FrameTooShort { need, have } => "frame too short: need at least "@ + text::decimal(need as nat)
            + " bytes, have "@ + text::decimal(have as nat),
        ProtoError::UnsupportedVersion(got, want) => "unsupported protocol version "@ + text::decimal(got as nat)
            + ", expected "@ + text::decimal(want as nat),
        ProtoError::InvalidFrameKind(b) => "invalid frame kind byte "@ + text::decimal(b as nat),
        ProtoError::BodyLengthMismatch { declared, have } => "declared body length "@ + text::decimal(declared as nat)
            + " exceeds buffer ("@ + text::decimal(have as nat) + " bytes available)"@,
        ProtoError::Encode(s) => "bincode encode failed: "@ + s@,
        ProtoError::Decode(s) => "bincode decode failed: "@ + s@,
    }
}

/// Two numbers, each with what comes before it.
fn two_numbers(before: &str, a: u64, between: &str, b: u64) -> (r: String)
    ensures
        r@ == before@ + text::decimal(a as nat) + between@ + text::decimal(b as nat),
{
    let mut out = before.to_owned();
    out.append(decimal_string(a).as_str());
    out.append(between);
    out.append(decimal_string(b).as_str());
    out
}

impl ProtoError {
    /// What the error says.
    pub fn to_text(&self) -> (r: String)
        ensures
            r@ == proto_text(*self),
    {
        match self {
            ProtoError::FrameTooShort { need, have } =>
                two_numbers("frame too short: need at least ", *need as u64, " bytes, have ", *have as u64),
            ProtoError::UnsupportedVersion(got, want) =>
                two_numbers("unsupported protocol version ", *got as u64, ", expected ", *want as u64),
            ProtoError::InvalidFrameKind(b) => {
                let mut out = "invalid frame kind byte ".to_owned();
                out.append(decimal_string(*b as u64).as_str());
                out
            },
            ProtoError::BodyLengthMismatch { declared, have } => {
                let mut out = two_numbers("declared body length ", *declared as u64, " exceeds buffer (", *have as u64);
                out.append(" bytes available)");
                out
            },
            ProtoError::Encode(s) => {
                let mut out = "bincode encode failed: ".to_owned();
                out.append(s.as_str());
                out
            },
            ProtoError::Decode(s) => {
                let mut out = "bincode decode failed: ".to_owned();
                out.append(s.as_str());
                out
            },
        }
    }
}

/// Numbers with commas between them, the first `n` of them.
pub open spec fn listed(s: Seq<usize>, n: nat) -> Seq<char>
    decreases n,
{
    if n == 0 {
        Seq::empty()
    } else if n == 1 {
        text::decimal(s[0] as nat)
    } else {
        listed(s, (n - 1) as nat) + ", "@ + text::decimal(s[n - 1] as nat)
    }
}

fn list(s: &Vec<usize>) -> (r: String)
    ensures
        r@ == listed(s@, s@.len()),
{
    let mut out = String::new();
    let mut i: usize = 0;
    assert(out@ =~= listed(s@, 0));
    while i < s.len()
        invariant
            i <= s@.len(),
            out@ == listed(s@, i as nat),
        decreases s@.len() - i,
    {
        let ghost was = out@;
        if i > 0 {
            out.append(", ");
        }
        out.append(decimal_string(s[i] as u64).as_str());
        if i == 0 {
            assert(out@ =~= text::decimal(s@[0] as nat));
        }
        i += 1;
        assert(listed(s@, i as nat) == out@);
    }
    out
}

/// What a quantisation error says.
pub open spec fn pq_text(e: PqError) -> Seq<char> {
    match e {
        PqError::MDoesNotDivideDim { m, dim, suggested } => "pq_m ("@ + text::decimal(m as nat) + ") must evenly divide dim ("@
            + text::decimal(dim as nat) + "); try one of: ["@ + listed(suggested@, suggested@.len()) + "]"@,
        PqError::KsubOutOfRange(n) => "ksub ("@ + text::decimal(n as nat) + ") must be in 1..=256 so a subcode fits one byte"@,
    }
}

impl PqError {
    /// What the error says.
    pub fn to_text(&self) -> (r: String)
        ensures
            r@ == pq_text(*self),
    {
        match self {
            PqError::MDoesNotDivideDim { m, dim, suggested } => {
                let mut out = two_numbers("pq_m (", *m as u64, ") must evenly divide dim (", *dim as u64);
                out.append("); try one of: [");
                out.append(list(suggested).as_str());
                out.append("]");
                out
            },
            PqError::KsubOutOfRange(n) => {
                let mut out = "ksub (".to_owned();
                out.append(decimal_string(*n as u64).as_str());
                out.append(") must be in 1..=256 so a subcode fits one byte");
                out
            },
        }
    }
}

/// What a hashing error says.
pub open spec fn lsh_text(e: LshError) -> Seq<char> {
    match e {
        LshError::NumHyperplanesOutOfRange(n) => "lsh_num_hyperplanes ("@ + text::decimal(n as nat)
            + ") must be in 1..=32 so one bucket signature fits a u32"@,
    }
}

impl LshError {
    /// What the error says.
    pub fn to_text(&self) -> (r: String)
        ensures
            r@ == lsh_text(*self),
    {
        match self {
            LshError::NumHyperplanesOutOfRange(n) => {
                let mut out = "lsh_num_hyperplanes (".to_owned();
                out.append(decimal_string(*n as u64).as_str());
                out.append(") must be in 1..=32 so one bucket signature fits a u32");
                out
            },
        }
    }
}

/// What an index error says.
pub open spec fn index_text(e: IndexError) -> Seq<char> {
    match e {
        IndexError::DimMismatch { expected, got } => "query vector has dimension "@ + text::decimal(got as nat)
            + ", index expects "@ + text::decimal(expected as nat),
        IndexError::Storage(s) => storage_text(s@),
        IndexError::Pq(p) => pq_text(p),
        IndexError::Lsh(l) => lsh_text(l),
    }
}

impl IndexError {
    /// What the error says.
    pub fn to_text(&self) -> (r: String)
        ensures
            r@ == index_text(*self),
    {
        match self {
            IndexError::DimMismatch { expected, got } =>
                two_numbers("query vector has dimension ", *got as u64, ", index expects ", *expected as u64),
            IndexError::Storage(s) => s.to_text(),
            IndexError::Pq(p) => p.to_text(),
            IndexError::Lsh(l) => l.to_text(),
        }
    }
}

} // verus!
