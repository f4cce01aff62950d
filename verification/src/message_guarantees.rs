//! What messages say, of every error that they are about.

use crate::codec::ProtoError;
use crate::columns;
use crate::columns::FieldType;
use crate::document;
use crate::encoding;
use crate::encoding::WalErrorView;
use crate::error::{StorageError, StorageErrorView};
use crate::filter::Scalar;
use crate::hit::IndexError;
use crate::ids;
use crate::log_guarantees;
use crate::lsh::LshError;
use crate::lsn::LsnParseErrorView;
use crate::messages;
use crate::model::ChunkStrategy;
use crate::payload::FilterErrorView;
use crate::pq::PqError;
use crate::request;
use crate::request::Request;
use crate::snapshot;
use crate::store;
use crate::text;
use crate::txn_index::ConflictView;
use crate::undo;
use crate::wal;
use vstd::prelude::*;

verus! {

/// What was looked for and not found, or found and not expected, is named in
/// quotes, with its kind.
pub proof fn what_is_missing_is_named(name: Seq<char>, id: u64)
    ensures
        messages::storage_text(StorageErrorView::CollectionNotFound(name)) == "collection "@ + encoding::quoted(name) + " not found"@,
        messages::storage_text(StorageErrorView::CollectionAlreadyExists(name)) == "collection "@ + encoding::quoted(name) + " already exists"@,
        messages::storage_text(StorageErrorView::KeyNotFound(name)) == "key "@ + encoding::quoted(name) + " not found"@,
        messages::storage_text(StorageErrorView::DocumentNotFound(name)) == "document "@ + encoding::quoted(name) + " not found"@,
        messages::storage_text(StorageErrorView::RowNotFound(id)) == "row RowId("@ + text::decimal(id as nat) + ") not found"@,
        messages::storage_text(StorageErrorView::InvalidArgument(name)) == name,
        messages::storage_text(StorageErrorView::Wal(name)) == "WAL error: "@ + name,
{
}

/// A vector that does not fit is described by its own dimension and the one
/// that is expected.
pub proof fn a_misfit_is_given_with_both_dimensions(coll: Seq<char>, expected: usize, got: usize)
    ensures
        messages::storage_text(StorageErrorView::DimensionMismatch { coll, expected, got }) == "vector has dimension "@ + text::decimal(got as nat) + ", collection "@
            + encoding::quoted(coll) + " expects "@ + text::decimal(expected as nat),
        messages::index_text(IndexError::DimMismatch { expected, got }) == "query vector has dimension "@ + text::decimal(got as nat) + ", index expects "@
            + text::decimal(expected as nat),
{
}

/// An undo that is refused says which transaction it is about and how many
/// stand in its way.
pub proof fn a_refused_undo_counts_what_is_in_the_way(txn: u128, by: u128, conflicts: Seq<ConflictView>)
    ensures
        messages::storage_text(StorageErrorView::UndoConflict { txn, conflicts }) == "cannot undo txn "@ + ids::uuid_text(txn) + ": "@ + text::decimal(conflicts.len())
            + " of its rows were touched by a later transaction"@,
        undo::no_such_txn(txn) == "no such transaction "@ + ids::uuid_text(txn) + " (it may have been trimmed by undo.txn_history_limit, or never existed)"@,
        undo::already_undone(txn, by) == "transaction "@ + ids::uuid_text(txn) + " was already undone by "@ + ids::uuid_text(by)
            + "; undo is idempotent-by-inspection, not double-appliable"@,
        undo::no_records_left(txn) == "transaction "@ + ids::uuid_text(txn) + " has no records left in the WAL (likely rotated out by wal.retention_days)"@,
{
}

/// A filter that is refused names the field.
pub proof fn a_refused_filter_names_the_field(field: Seq<char>, expected: Seq<char>, actual: Seq<char>, f: FilterErrorView)
    ensures
        messages::filter_text(FilterErrorView::UnknownField(field)) == "unknown payload field "@ + encoding::quoted(field) + " — not declared in the collection's schema"@,
        messages::filter_text(FilterErrorView::TypeMismatch { field, expected, actual }) == "field "@ + encoding::quoted(field) + " is type "@ + actual
            + ", this filter needs "@ + expected,
        messages::filter_text(FilterErrorView::FieldAlreadyExists(field)) == "field "@ + encoding::quoted(field) + " already exists in the schema"@,
        messages::filter_text(FilterErrorView::TextMatchUnsupported) == "TextMatch filtering requires the BM25 index, not available yet"@,
        messages::storage_text(StorageErrorView::Filter(f)) == messages::filter_text(f),
{
}

/// A position that cannot be read is quoted, with what is wrong with it.
pub proof fn an_unreadable_position_is_quoted(s: Seq<char>)
    ensures
        messages::parse_text(LsnParseErrorView::BadFormat(s)) == "invalid LSN format "@ + encoding::quoted(s) + ", expected \"segment/offset\" hex"@,
        messages::parse_text(LsnParseErrorView::BadSegment(s)) == "invalid LSN segment hex "@ + encoding::quoted(s),
        messages::parse_text(LsnParseErrorView::BadOffset(s)) == "invalid LSN offset hex "@ + encoding::quoted(s),
        encoding::wal_error_text(WalErrorView::Io(s)) == "io error: "@ + s,
        encoding::wal_error_text(WalErrorView::Corrupt(s)) == "corrupt WAL data: "@ + s,
{
}

/// A frame that is refused is described by its numbers.
pub proof fn a_refused_frame_is_described_by_its_numbers(need: usize, have: usize, got: u8, want: u8, declared: u32, s: String)
    ensures
        messages::proto_text(ProtoError::FrameTooShort { need, have }) == "frame too short: need at least "@ + text::decimal(need as nat) + " bytes, have "@ + text::decimal(
            have as nat,
        ),
        messages::proto_text(ProtoError::UnsupportedVersion(got, want)) == "unsupported protocol version "@ + text::decimal(got as nat) + ", expected "@ + text::decimal(
            want as nat,
        ),
        messages::proto_text(ProtoError::InvalidFrameKind(got)) == "invalid frame kind byte "@ + text::decimal(got as nat),
        messages::proto_text(ProtoError::BodyLengthMismatch { declared, have }) == "declared body length "@ + text::decimal(declared as nat) + " exceeds buffer ("@
            + text::decimal(have as nat) + " bytes available)"@,
        messages::proto_text(ProtoError::Encode(s)) == "bincode encode failed: "@ + s@,
        messages::proto_text(ProtoError::Decode(s)) == "bincode decode failed: "@ + s@,
{
}

/// A layout that is refused is described by its numbers, and an index passes
/// on what is below it.
pub proof fn a_refused_layout_is_described_by_its_numbers(m: usize, dim: usize, suggested: Vec<usize>, n: usize, e: StorageError, p: PqError, l: LshError)
    ensures
        messages::pq_text(PqError::MDoesNotDivideDim { m, dim, suggested }) == "pq_m ("@ + text::decimal(m as nat) + ") must evenly divide dim ("@ + text::decimal(dim as nat)
            + "); try one of: ["@ + messages::listed(suggested@, suggested@.len()) + "]"@,
        messages::pq_text(PqError::KsubOutOfRange(n)) == "ksub ("@ + text::decimal(n as nat) + ") must be in 1..=256 so a subcode fits one byte"@,
        messages::lsh_text(LshError::NumHyperplanesOutOfRange(n)) == "lsh_num_hyperplanes ("@ + text::decimal(n as nat)
            + ") must be in 1..=32 so one bucket signature fits a u32"@,
        messages::index_text(IndexError::Storage(e)) == messages::storage_text(e@),
        messages::index_text(IndexError::Pq(p)) == messages::pq_text(p),
        messages::index_text(IndexError::Lsh(l)) == messages::lsh_text(l),
{
}

/// Numbers are listed in order, with a comma between each and the next.
pub proof fn numbers_are_listed_with_commas(s: Seq<usize>, n: nat)
    requires
        0 < n < s.len(),
    ensures
        messages::listed(s, 0) == Seq::<char>::empty(),
        messages::listed(s, 1) == text::decimal(s[0] as nat),
        messages::listed(s, n + 1) == messages::listed(s, n) + ", "@ + text::decimal(s[n as int] as nat),
{
}

/// Types are known by their names.
pub proof fn types_have_names(i: i64, f: u64, s: String, b: bool)
    ensures
        columns::field_type_name(FieldType::Keyword) == "keyword"@,
        columns::field_type_name(FieldType::KeywordList) == "keyword[]"@,
        columns::field_type_name(FieldType::I64) == columns::scalar_name(Scalar::I64(i)),
        columns::field_type_name(FieldType::I64) == "i64"@,
        columns::field_type_name(FieldType::F64) == columns::scalar_name(Scalar::F64(f)),
        columns::field_type_name(FieldType::F64) == "f64"@,
        columns::field_type_name(FieldType::DateTime) == columns::scalar_name(Scalar::DateTime(i)),
        columns::field_type_name(FieldType::DateTime) == "datetime"@,
        columns::field_type_name(FieldType::Bool) == columns::scalar_name(Scalar::Bool(b)),
        columns::field_type_name(FieldType::Bool) == "bool"@,
        columns::field_type_name(FieldType::Text) == "text"@,
        columns::scalar_name(Scalar::Str(s)) == "str"@,
{
}

/// Each kind of request is recorded under a name of its own.
pub proof fn requests_have_names(r: Request)
    ensures
        r is Hello ==> request::action_of(r) == "hello"@,
        r is CreateCollection ==> request::action_of(r) == "create_collection"@,
        r is Put ==> request::action_of(r) == "put"@,
        r is PutBatch ==> request::action_of(r) == "put_batch"@,
        r is GetByKey ==> request::action_of(r) == "get_by_key"@,
        r is Delete ==> request::action_of(r) == "delete"@,
        r is PutDocument ==> request::action_of(r) == "put_document"@,
        r is Search ==> request::action_of(r) == "search"@,
        r is Reindex ==> request::action_of(r) == "reindex"@,
        r is ReplicaHello ==> request::action_of(r) == "replica_hello"@,
{
}

/// A document that is added without saying how is cut along its headings, into
/// chunks of five hundred and twelve tokens at most that share sixty-four; a
/// query without parameters gives none.
pub proof fn what_is_not_said_is_the_default()
    ensures
        store::default_chunking().strategy == (ChunkStrategy::Markdown { respect_headings: true }),
        store::default_chunking().max_tokens == 512,
        store::default_chunking().overlap_tokens == 64,
        store::default_chunking().trim,
        store::no_knobs().max_chunks_per_doc is None,
        store::no_knobs().nprobe is None,
        store::no_knobs().beam_width is None,
        store::no_knobs().rerank_k is None,
        store::no_knobs().filter_exact_threshold is None,
        store::no_knobs().filter_selectivity_high is None,
        store::no_knobs().filter_nprobe_max is None,
{
}

/// A document that is there already is named, and how to replace it.
pub proof fn a_taken_document_key_is_named(doc_key: Seq<char>)
    ensures
        document::already_exists(doc_key) == StorageErrorView::InvalidArgument("document "@ + encoding::quoted(doc_key) + " already exists; use replace_document"@),
{
}

proof fn lemma_digits(n: nat, width: nat)
    ensures
        text::digits_value(text::zero_padded(text::decimal(n), width), 10) == Some(n),
        text::zero_padded(text::decimal(n), width).len() >= width,
        text::decimal(n).len() <= width ==> text::zero_padded(text::decimal(n), width).len() == width,
{
    let s = text::decimal(n);
    text::numeral_reads_back(n, 10, false);
    if s.len() < width {
        text::zeros_do_not_count(s, (width - s.len()) as nat, 10);
    }
}

/// A segment of the log is named by its id, in ten digits at least, and a
/// checkpoint by its generation; what stands between the two ends of a name is
/// that number.
pub proof fn files_are_named_by_their_numbers(id: u32, generation: u64, name: Seq<char>, digits: Seq<char>)
    ensures
        exists|d: Seq<char>| wal::segment_name(id) == "segment-"@ + d + ".wal"@ && d.len() >= 10 && #[trigger] text::digits_value(d, 10) == Some(id as nat),
        exists|d: Seq<char>| snapshot::checkpoint_name(generation) == "snapshot-"@ + d + ".mdb"@ && d.len() >= 10 && #[trigger] text::digits_value(d, 10) == Some(
            generation as nat,
        ),
        wal::named_segment("segment-"@ + digits + ".wal"@) == text::parsed_number(digits, 10, 0xFFFF_FFFF),
        snapshot::named_generation("snapshot-"@ + digits + ".mdb"@) == text::parsed_number(digits, 10, 0xFFFF_FFFF_FFFF_FFFF),
        wal::named_segment(name) is Some ==> exists|m: Seq<char>| name == #[trigger] ("segment-"@ + m + ".wal"@),
        snapshot::named_generation(name) is Some ==> exists|m: Seq<char>| name == #[trigger] ("snapshot-"@ + m + ".mdb"@),
{
    lemma_digits(id as nat, 10);
    lemma_digits(generation as nat, 10);
    let a = text::zero_padded(text::decimal(id as nat), 10);
    let b = text::zero_padded(text::decimal(generation as nat), 10);
    assert(text::digits_value(a, 10) == Some(id as nat));
    assert(text::digits_value(b, 10) == Some(generation as nat));
    log_guarantees::a_framed_number_stands_between(name, "segment-"@, digits, ".wal"@, 0xFFFF_FFFF);
    log_guarantees::a_framed_number_stands_between(name, "snapshot-"@, digits, ".mdb"@, 0xFFFF_FFFF_FFFF_FFFF);
}

/// A chunk's key is its document's, a hash sign and its place, in decimal.
pub proof fn a_chunk_is_named_by_its_place(doc_key: Seq<char>, ord: nat)
    ensures
        document::chunk_key_of(doc_key, ord).len() == doc_key.len() + 1 + text::decimal(ord).len(),
        document::chunk_key_of(doc_key, ord).take(doc_key.len() as int) == doc_key,
        document::chunk_key_of(doc_key, ord)[doc_key.len() as int] == '#',
        document::chunk_key_of(doc_key, ord).skip((doc_key.len() + 1) as int) == text::decimal(ord),
        text::digits_value(document::chunk_key_of(doc_key, ord).skip((doc_key.len() + 1) as int), 10) == Some(ord),
{
    reveal_strlit("#");
    let k = document::chunk_key_of(doc_key, ord);
    assert(k.take(doc_key.len() as int) =~= doc_key);
    assert(k.skip((doc_key.len() + 1) as int) =~= text::decimal(ord));
    text::numeral_reads_back(ord, 10, false);
}

/// The text of an id is thirty-two hexadecimal digits, the highest first, in
/// groups of eight, four, four, four and twelve with hyphens between.
pub proof fn an_id_is_written_in_five_groups(bits: u128, i: int)
    requires
        0 <= i < 36,
    ensures
        ids::uuid_text(bits).len() == 36,
        i == 8 || i == 13 || i == 18 || i == 23 ==> ids::uuid_text(bits)[i] == '-',
        i < 8 ==> ids::uuid_text(bits)[i] == text::digit_char(((bits >> ((124 - 4 * i) as u128)) & 0xf) as int, false),
        8 < i < 13 ==> ids::uuid_text(bits)[i] == text::digit_char(((bits >> ((128 - 4 * i) as u128)) & 0xf) as int, false),
        13 < i < 18 ==> ids::uuid_text(bits)[i] == text::digit_char(((bits >> ((132 - 4 * i) as u128)) & 0xf) as int, false),
        18 < i < 23 ==> ids::uuid_text(bits)[i] == text::digit_char(((bits >> ((136 - 4 * i) as u128)) & 0xf) as int, false),
        23 < i ==> ids::uuid_text(bits)[i] == text::digit_char(((bits >> ((140 - 4 * i) as u128)) & 0xf) as int, false),
{
}

} // verus!
