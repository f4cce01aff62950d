//! What undoing the deletion or the replacement of a document brings back:
//! its entry, with the version, the metadata and the rows that it had, and the
//! rows themselves.

use crate::collection;
use crate::consistency;
use crate::doc_guarantees;
use crate::document;
use crate::document::ChunkView;
use crate::fields::FieldsView;
use crate::recovery;
use crate::reversal;
use crate::state::StateView;
use crate::wal::{RecordView, WalDocMeta, WalOp};
use vstd::prelude::*;

verus! {

/// The rows that the records from `from` up to `to` are about.
pub open spec fn numbers(back: Seq<RecordView>, from: int, to: int) -> Set<u32> {
    Set::new(|x: u32| exists|i: int| from <= i < to && (#[trigger] back[i]).row_id == Some(x as u64))
}

/// Whether the first `k` records delete rows of a document, and the others
/// insert rows of it, with its metadata.
pub open spec fn rebuilds(back: Seq<RecordView>, k: int, doc_id: u64, doc_key: Seq<char>, meta: WalDocMeta) -> bool {
    forall|i: int| 0 <= i < back.len() ==> {
        &&& (#[trigger] back[i]).row_id is Some
        &&& back[i].row_id->0 <= u32::MAX
        &&& back[i].doc_id == Some(doc_id)
        &&& i < k ==> back[i].op == WalOp::Delete
        &&& i >= k ==> back[i].op == WalOp::Insert && back[i].params == Some(meta) && back[i].doc_key == Some(doc_key)
    }
}

/// The rows that a document lists, none if it is not registered.
pub open spec fn rows_listed(s: StateView, doc_id: u64) -> Set<u32> {
    if s.docs.contains_key(doc_id) { s.docs[doc_id].rows } else { Set::empty() }
}

/// What the entry is once the first `n` records have been applied to `t`.
spec fn entry_so_far(t: StateView, back: Seq<RecordView>, k: int, doc_id: u64, doc_key: Seq<char>, meta: WalDocMeta, n: nat, w: StateView) -> bool {
    &&& n <= k ==> {
        &&& w.doc_keys == t.doc_keys
        &&& w.docs.contains_key(doc_id) == t.docs.contains_key(doc_id)
        &&& rows_listed(w, doc_id) == rows_listed(t, doc_id).difference(numbers(back, 0, n as int))
    }
    &&& n > k ==> {
        &&& w.doc_keys == t.doc_keys.insert(doc_key, doc_id)
        &&& w.docs.contains_key(doc_id)
        &&& w.docs[doc_id].rows == rows_listed(t, doc_id).difference(numbers(back, 0, k)).union(numbers(back, k, n as int))
        &&& w.docs[doc_id].chunk_count == w.docs[doc_id].rows.len() as u32
        &&& w.docs[doc_id].meta == meta
        &&& w.docs[doc_id].doc_payload == recovery::image_fields(back[n - 1].payload->0)
        &&& !t.docs.contains_key(doc_id) ==> w.docs[doc_id].doc_key == doc_key
    }
    &&& t.docs.contains_key(doc_id) ==> w.docs[doc_id].doc_key == t.docs[doc_id].doc_key && w.docs[doc_id].created_txn == t.docs[doc_id].created_txn
    &&& forall|d: u64| d != doc_id ==> #[trigger] w.docs.contains_key(d) == t.docs.contains_key(d) && w.docs[d] == t.docs[d]
}

proof fn lemma_numbers_step(back: Seq<RecordView>, from: int, to: int)
    requires
        0 <= from <= to < back.len(),
        back[to].row_id is Some,
        back[to].row_id->0 <= u32::MAX,
    ensures
        numbers(back, from, to + 1) == numbers(back, from, to).insert(back[to].row_id->0 as u32),
{
    let row = back[to].row_id->0 as u32;
    assert forall|x: u32| numbers(back, from, to + 1).contains(x) == numbers(back, from, to).insert(row).contains(x) by {
        if numbers(back, from, to + 1).contains(x) {
            let i = choose|i: int| from <= i < to + 1 && (#[trigger] back[i]).row_id == Some(x as u64);
            assert(back[i].row_id == Some(x as u64));
        }
        if numbers(back, from, to).contains(x) {
            let i = choose|i: int| from <= i < to && (#[trigger] back[i]).row_id == Some(x as u64);
            assert(back[i].row_id == Some(x as u64));
        }
        if x == row {
            assert(back[to].row_id == Some(x as u64));
        }
    }
    assert(numbers(back, from, to + 1) =~= numbers(back, from, to).insert(row));
}

proof fn lemma_entry_prefix(t: StateView, back: Seq<RecordView>, k: int, doc_id: u64, doc_key: Seq<char>, meta: WalDocMeta, n: nat)
    requires
        rebuilds(back, k, doc_id, doc_key, meta),
        0 <= k <= back.len(),
        n <= back.len(),
        recovery::applied_records(t, back, n).1 is None,
    ensures
        entry_so_far(t, back, k, doc_id, doc_key, meta, n, recovery::applied_records(t, back, n).0),
    decreases n,
{
    if n == 0 {
        assert(numbers(back, 0, 0) =~= Set::<u32>::empty());
        assert(rows_listed(t, doc_id) =~= rows_listed(t, doc_id).difference(numbers(back, 0, 0)));
    } else {
        let m = (n - 1) as nat;
        lemma_entry_prefix(t, back, k, doc_id, doc_key, meta, m);
        let w = recovery::applied_records(t, back, m).0;
        let v = recovery::applied_records(t, back, n).0;
        let r = back[m as int];
        let row = r.row_id->0 as u32;
        let listed = rows_listed(t, doc_id);
        assert(r.doc_id == Some(doc_id));
        if m < k {
            lemma_numbers_step(back, 0, m as int);
            assert(r.op == WalOp::Delete);
            assert(rows_listed(v, doc_id) =~= listed.difference(numbers(back, 0, n as int)));
        } else {
            lemma_numbers_step(back, k, m as int);
            assert(r.op == WalOp::Insert);
            if m == k {
                assert(numbers(back, k, k) =~= Set::<u32>::empty());
            }
            assert(v.docs[doc_id].rows == rows_listed(w, doc_id).insert(row));
            assert(v.docs[doc_id].rows =~= listed.difference(numbers(back, 0, k)).union(numbers(back, k, n as int)));
            assert(v.doc_keys =~= t.doc_keys.insert(doc_key, doc_id));
        }
        assert forall|d: u64| d != doc_id implies #[trigger] v.docs.contains_key(d) == t.docs.contains_key(d) && v.docs[d] == t.docs[d] by {
            assert(w.docs.contains_key(d) == t.docs.contains_key(d));
        }
    }
}

/// Whether a document is in `u` what it was in `s`: registered under its key
/// with the same version and metadata, the same rows, and as many of them.
/// Its payload is what its first row has for fields.
pub open spec fn document_is_back(s: StateView, u: StateView, doc_key: Seq<char>) -> bool {
    let d = s.doc_keys[doc_key];
    &&& u.doc_keys.contains_key(doc_key)
    &&& u.doc_keys[doc_key] == d
    &&& u.docs.contains_key(d)
    &&& u.docs[d].doc_key == doc_key
    &&& u.docs[d].meta == s.docs[d].meta
    &&& u.docs[d].rows == s.docs[d].rows
    &&& u.docs[d].chunk_count == s.docs[d].chunk_count
    &&& u.docs[d].doc_payload == s.rows[document::rows_of_document(s, d)[0] as u64].fields
    &&& first_row_has_payload(s, d) ==> u.docs[d].doc_payload == s.docs[d].doc_payload
}

/// Whether all documents but one are in `u` what they are in `t`.
pub open spec fn other_documents_stay(t: StateView, u: StateView, doc_id: u64) -> bool {
    forall|d: u64| d != doc_id ==> #[trigger] u.docs.contains_key(d) == t.docs.contains_key(d) && (t.docs.contains_key(d) ==> u.docs[d] == t.docs[d])
}

/// Whether the first of a document's rows has the document's own fields, as
/// every chunk is written with. A row that was put again since may not.
pub open spec fn first_row_has_payload(s: StateView, doc_id: u64) -> bool {
    s.rows[document::rows_of_document(s, doc_id)[0] as u64].fields == s.docs[doc_id].doc_payload
}

/// Whether no other document has taken a document's key.
pub open spec fn key_not_taken(t: StateView, doc_key: Seq<char>, doc_id: u64) -> bool {
    t.doc_keys.contains_key(doc_key) ==> t.doc_keys[doc_key] == doc_id
}

/// Putting the rows of a document back makes its entry what it was.
proof fn lemma_rebuilt(s: StateView, doc_key: Seq<char>, t: StateView, back: Seq<RecordView>, k: int)
    requires
        collection::sound(s),
        consistency::linked(s),
        s.doc_keys.contains_key(doc_key),
        s.docs[s.doc_keys[doc_key]].rows != Set::<u32>::empty(),
        0 <= k,
        ({
            let d = s.doc_keys[doc_key];
            let rows = document::rows_of_document(s, d);
            &&& back.len() == k + rows.len()
            &&& rebuilds(back, k, d, doc_key, s.docs[d].meta)
            &&& forall|i: int| k <= i < back.len() ==> (#[trigger] back[i]).row_id == Some(rows[back.len() - 1 - i] as u64) && back[i].payload is Some
                && recovery::image_fields(back[i].payload->0) == s.rows[rows[back.len() - 1 - i] as u64].fields
            &&& rows_listed(t, d).subset_of(numbers(back, 0, k))
            &&& t.docs.contains_key(d) ==> t.docs[d].doc_key == doc_key
        }),
        forall|i: int, j: int| 0 <= i < back.len() && 0 <= j < back.len() ==> (#[trigger] back[i]).txn == (#[trigger] back[j]).txn,
        recovery::applied_from(t, back, 0).1 is None,
    ensures
        document_is_back(s, recovery::applied_from(t, back, 0).0, doc_key),
        other_documents_stay(t, recovery::applied_from(t, back, 0).0, s.doc_keys[doc_key]),
        recovery::applied_from(t, back, 0).0.doc_keys == t.doc_keys.insert(doc_key, s.doc_keys[doc_key]),
        key_not_taken(t, doc_key, s.doc_keys[doc_key]) && consistency::docs_keyed(t) ==> consistency::docs_keyed(recovery::applied_from(t, back, 0).0),
        t.docs.contains_key(s.doc_keys[doc_key]) ==> recovery::applied_from(t, back, 0).0.docs[s.doc_keys[doc_key]].created_txn
            == t.docs[s.doc_keys[doc_key]].created_txn,
{
    let d = s.doc_keys[doc_key];
    let meta = s.docs[d].meta;
    let rows = document::rows_of_document(s, d);
    doc_guarantees::lemma_all_recorded(s, d);
    assert(rows.len() > 0) by {
        if rows.len() == 0 {
            assert(s.docs[d].rows =~= Set::<u32>::empty());
        }
    }
    recovery::one_transaction_is_one_unit(t, back);
    let n = back.len();
    let w = recovery::applied_records(t, back, n).0;
    let u = recovery::applied_from(t, back, 0).0;
    lemma_entry_prefix(t, back, k, d, doc_key, meta, n);
    assert(numbers(back, k, n as int) =~= s.docs[d].rows) by {
        assert forall|x: u32| numbers(back, k, n as int).contains(x) == s.docs[d].rows.contains(x) by {
            if numbers(back, k, n as int).contains(x) {
                let i = choose|i: int| k <= i < n && (#[trigger] back[i]).row_id == Some(x as u64);
                assert(rows.contains(rows[n - 1 - i]));
            }
            if s.docs[d].rows.contains(x) {
                assert(rows.contains(x));
                let j = choose|j: int| 0 <= j < rows.len() && rows[j] == x;
                assert(back[n - 1 - j].row_id == Some(x as u64));
            }
        }
    }
    assert(w.docs[d].rows =~= s.docs[d].rows);
    assert(back[n - 1].row_id == Some(rows[0] as u64));
    let touched = recovery::touched_docs(back);
    assert forall|e: u64| !#[trigger] recovery::emptied(w, touched, e) by {
        if touched.contains(e) {
            let i = choose|i: int| 0 <= i < back.len() && (#[trigger] back[i]).doc_id == Some(e);
            assert(back[i].doc_id == Some(d));
        }
    }
    assert(u.docs =~= w.docs);
    assert(u.doc_keys =~= w.doc_keys);
    assert forall|e: u64| e != d implies #[trigger] u.docs.contains_key(e) == t.docs.contains_key(e) && (t.docs.contains_key(e) ==> u.docs[e] == t.docs[e]) by {
        assert(w.docs.contains_key(e) == t.docs.contains_key(e));
    }
    assert(other_documents_stay(t, u, d));
    if key_not_taken(t, doc_key, d) && consistency::docs_keyed(t) {
        assert forall|e: u64| #[trigger] u.docs.contains_key(e) implies u.doc_keys.contains_key(u.docs[e].doc_key) && u.doc_keys[u.docs[e].doc_key] == e by {
            if e != d {
                assert(t.docs.contains_key(e));
            }
        }
    }
}

/// Undoing the deletion of a document brings it back whole: its entry has its
/// version, its metadata and its rows again, and its payload where its first
/// row still had it; its key leads to it, and its rows and their keys are as
/// they were. Other documents, rows and keys stay. `t` is the state in which the deletion is undone: the document
/// is still gone in it.
pub proof fn an_undone_deletion_brings_the_document_back(s: StateView, doc_key: Seq<char>, logged: Seq<RecordView>, t: StateView, back: Seq<RecordView>)
    requires
        collection::sound(s),
        consistency::linked(s),
        s.doc_keys.contains_key(doc_key),
        s.docs[s.doc_keys[doc_key]].rows != Set::<u32>::empty(),
        document::rows_encode(s, document::rows_of_document(s, s.doc_keys[doc_key])),
        reversal::owns_its_keys(s, s.doc_keys[doc_key]),
        reversal::log_changes(logged, document::delete_document_changes(s, doc_key)),
        !t.docs.contains_key(s.doc_keys[doc_key]),
        reversal::rows_still_keyed(t, logged),
        reversal::reverses(logged, back),
        forall|i: int, j: int| 0 <= i < back.len() && 0 <= j < back.len() ==> (#[trigger] back[i]).txn == (#[trigger] back[j]).txn,
        forall|i: int| 0 <= i < back.len() ==> recovery::clean(t.payload, #[trigger] back[i]),
    ensures
        recovery::applied_from(t, back, 0).1 is None,
        document_is_back(s, recovery::applied_from(t, back, 0).0, doc_key),
        other_documents_stay(t, recovery::applied_from(t, back, 0).0, s.doc_keys[doc_key]),
        recovery::applied_from(t, back, 0).0.doc_keys == t.doc_keys.insert(doc_key, s.doc_keys[doc_key]),
        key_not_taken(t, doc_key, s.doc_keys[doc_key]) && consistency::docs_keyed(t) ==> consistency::docs_keyed(recovery::applied_from(t, back, 0).0),
        reversal::brings_back(s, logged, t, recovery::applied_from(t, back, 0).0),
{
    let d = s.doc_keys[doc_key];
    let rows = document::rows_of_document(s, d);
    let changes = document::delete_document_changes(s, doc_key);
    let meta = s.docs[d].meta;
    doc_guarantees::lemma_all_recorded(s, d);
    reversal::document_deletions_are_reversible(s, doc_key, logged);
    assert(logged.len() > 0) by {
        if rows.len() == 0 {
            assert(s.docs[d].rows =~= Set::<u32>::empty());
        }
    }
    reversal::undoing_brings_rows_back(s, logged, t, back);
    assert forall|i: int| 0 <= i < back.len() implies (#[trigger] back[i]).op == WalOp::Insert && back[i].row_id == Some(rows[back.len() - 1 - i] as u64)
        && back[i].doc_id == Some(d) && back[i].doc_key == Some(doc_key) && back[i].params == Some(meta) && back[i].payload is Some
        && recovery::image_fields(back[i].payload->0) == s.rows[rows[back.len() - 1 - i] as u64].fields by {
        let j = back.len() - 1 - i;
        assert(logged[j].op == changes[j].op);
        assert(changes[j] == document::removal_change(s, d, doc_key, meta, rows[j]));
    }
    assert(rows_listed(t, d) =~= Set::<u32>::empty());
    lemma_rebuilt(s, doc_key, t, back, 0);
}

/// Undoing the replacement of a document brings the version before it back
/// whole: its entry has that version, its metadata and its rows again, and its
/// payload where its first row still had it; its key leads to it, its old rows
/// and their keys are as they were, and the rows of the version that is undone are no longer live. Other
/// documents, rows and keys stay. `t` is the state in which the replacement is
/// undone: the document is still that version in it.
pub proof fn an_undone_replacement_brings_the_document_back(
    c: collection::CollectionView,
    doc_key: Seq<char>,
    chunks: Seq<ChunkView>,
    fields: FieldsView,
    meta: WalDocMeta,
    logged: Seq<RecordView>,
    t: StateView,
    back: Seq<RecordView>,
)
    requires
        collection::sound(c.state),
        consistency::linked(c.state),
        c.state.doc_keys.contains_key(doc_key),
        c.state.docs[c.state.doc_keys[doc_key]].rows != Set::<u32>::empty(),
        document::rows_encode(c.state, document::rows_of_document(c.state, c.state.doc_keys[doc_key])),
        reversal::owns_its_keys(c.state, c.state.doc_keys[doc_key]),
        c.state.next_row + chunks.len() <= collection::row_capacity(),
        forall|k: Seq<char>| #[trigger] doc_guarantees::is_chunk_key(doc_key, chunks.len(), k) && c.state.keys.contains_key(k) ==>
            c.state.keys[k] <= u32::MAX && c.state.docs[c.state.doc_keys[doc_key]].rows.contains(c.state.keys[k] as u32),
        reversal::log_changes(
            logged,
            document::removal_changes(
                c.state, c.state.doc_keys[doc_key], doc_key, c.state.docs[c.state.doc_keys[doc_key]].meta,
                document::rows_of_document(c.state, c.state.doc_keys[doc_key]),
            ) + document::chunk_changes(c.state.doc_keys[doc_key], doc_key, c.state.next_row, chunks, fields, meta),
        ),
        t.docs.contains_key(c.state.doc_keys[doc_key]),
        t.docs[c.state.doc_keys[doc_key]].doc_key == doc_key,
        t.docs[c.state.doc_keys[doc_key]].rows == doc_guarantees::row_run(c.state.next_row, chunks.len()),
        reversal::rows_still_keyed(t, logged),
        reversal::reverses(logged, back),
        forall|i: int, j: int| 0 <= i < back.len() && 0 <= j < back.len() ==> (#[trigger] back[i]).txn == (#[trigger] back[j]).txn,
        forall|i: int| 0 <= i < back.len() ==> recovery::clean(t.payload, #[trigger] back[i]),
    ensures
        recovery::applied_from(t, back, 0).1 is None,
        document_is_back(c.state, recovery::applied_from(t, back, 0).0, doc_key),
        recovery::applied_from(t, back, 0).0.docs[c.state.doc_keys[doc_key]].created_txn == t.docs[c.state.doc_keys[doc_key]].created_txn,
        other_documents_stay(t, recovery::applied_from(t, back, 0).0, c.state.doc_keys[doc_key]),
        recovery::applied_from(t, back, 0).0.doc_keys == t.doc_keys.insert(doc_key, c.state.doc_keys[doc_key]),
        key_not_taken(t, doc_key, c.state.doc_keys[doc_key]) && consistency::docs_keyed(t) ==> consistency::docs_keyed(recovery::applied_from(t, back, 0).0),
        reversal::brings_back(c.state, logged, t, recovery::applied_from(t, back, 0).0),
{
    let s = c.state;
    let d = s.doc_keys[doc_key];
    let old_meta = s.docs[d].meta;
    let rows = document::rows_of_document(s, d);
    let removals = document::removal_changes(s, d, doc_key, old_meta, rows);
    let additions = document::chunk_changes(d, doc_key, s.next_row, chunks, fields, meta);
    let changes = removals + additions;
    let k = chunks.len() as int;
    let n = back.len() as int;
    doc_guarantees::lemma_all_recorded(s, d);
    reversal::document_replacements_are_reversible(c, doc_key, chunks, fields, meta, logged);
    assert(logged.len() > 0) by {
        if rows.len() == 0 {
            assert(s.docs[d].rows =~= Set::<u32>::empty());
        }
    }
    reversal::undoing_brings_rows_back(s, logged, t, back);
    assert forall|i: int| 0 <= i < n implies {
        &&& (#[trigger] back[i]).row_id is Some
        &&& back[i].row_id->0 <= u32::MAX
        &&& back[i].doc_id == Some(d)
        &&& i < k ==> back[i].op == WalOp::Delete && back[i].row_id == Some((s.next_row + (k - 1 - i)) as u64)
        &&& i >= k ==> back[i].op == WalOp::Insert && back[i].params == Some(old_meta) && back[i].doc_key == Some(doc_key)
            && back[i].row_id == Some(rows[n - 1 - i] as u64) && back[i].payload is Some
            && recovery::image_fields(back[i].payload->0) == s.rows[rows[n - 1 - i] as u64].fields
    } by {
        let j = n - 1 - i;
        assert(logged[j].op == changes[j].op);
        if i < k {
            assert(changes[j] == additions[j - rows.len()]);
        } else {
            assert(changes[j] == removals[j]);
        }
    }
    assert(rows_listed(t, d).subset_of(numbers(back, 0, k))) by {
        assert forall|x: u32| rows_listed(t, d).contains(x) implies numbers(back, 0, k).contains(x) by {
            let i = k - 1 - (x - s.next_row);
            assert(back[i].row_id == Some(x as u64));
        }
    }
    lemma_rebuilt(s, doc_key, t, back, k);
}

} // verus!
