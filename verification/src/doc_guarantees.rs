//! What writers and readers of documents can rely on.

use crate::bitmap;
use crate::collection;
use crate::collection::CollectionView;
use crate::consistency;
use crate::document;
use crate::document::{ChunkView, PutDocumentInput};
use crate::draft;
use crate::draft::{ChangeView, OriginView};
use crate::encoding;
use crate::error::StorageErrorView;
use crate::fields::FieldsView;
use crate::model::{ChunkSpec, ModelFingerprint, RequestCtx, Timestamp};
use crate::payload;
use crate::recovery;
use crate::state::{RowView, StateView};
use crate::text;
use crate::wal::{RecordView, WalDocMeta};
use vstd::prelude::*;

verus! {

proof fn lemma_no_mark(s: Seq<char>, i: int)
    requires
        text::digits_value(s, 10) is Some,
        0 <= i < s.len(),
    ensures
        s[i] != '#',
    decreases s.len(),
{
    if i < s.len() - 1 {
        lemma_no_mark(s.drop_last(), i);
        assert(s.drop_last()[i] == s[i]);
    }
}

/// No two chunks share a key: a chunk's key tells its document's key and its
/// place.
pub proof fn chunk_keys_are_distinct(a: Seq<char>, i: nat, b: Seq<char>, j: nat)
    requires
        document::chunk_key_of(a, i) == document::chunk_key_of(b, j),
    ensures
        a == b,
        i == j,
{
    reveal_strlit("#");
    let x = text::decimal(i);
    let y = text::decimal(j);
    let s = document::chunk_key_of(a, i);
    text::numeral_reads_back(i, 10, false);
    text::numeral_reads_back(j, 10, false);
    assert(s.len() == a.len() + 1 + x.len());
    assert(s.len() == b.len() + 1 + y.len());
    if a.len() < b.len() {
        assert((b + "#"@ + y)[b.len() as int] == '#');
        assert((a + "#"@ + x)[b.len() as int] == x[b.len() - a.len() - 1]);
        lemma_no_mark(x, b.len() - a.len() - 1);
    }
    if b.len() < a.len() {
        assert((a + "#"@ + x)[a.len() as int] == '#');
        assert((b + "#"@ + y)[a.len() as int] == y[a.len() - b.len() - 1]);
        lemma_no_mark(y, a.len() - b.len() - 1);
    }
    assert(a =~= s.take(a.len() as int));
    assert(b =~= s.take(b.len() as int));
    assert(x =~= s.skip((a.len() + 1) as int));
    assert(y =~= s.skip((b.len() + 1) as int));
    text::numeral_injective(i, j, 10, false);
}

/// The row that chunk `i` of a document becomes.
pub open spec fn chunk_row(doc_id: u64, doc_key: Seq<char>, chunks: Seq<ChunkView>, fields: FieldsView, i: int) -> RowView {
    RowView {
        key: document::chunk_key_of(doc_key, i as nat),
        vector: chunks[i].vector,
        fields,
        extra: None,
        text: Some(chunks[i].text),
        doc_id: Some(doc_id),
        chunk_ord: Some(i as u32),
    }
}

/// The positions of `n` rows from `first` on.
pub open spec fn row_run(first: u64, n: nat) -> Set<u32> {
    Set::new(|x: u32| first <= x < first + n)
}

/// Whether this is the key of one of the first `n` chunks of a document.
pub open spec fn is_chunk_key(doc_key: Seq<char>, n: nat, k: Seq<char>) -> bool {
    exists|i: nat| i < n && k == #[trigger] document::chunk_key_of(doc_key, i)
}

/// Whether none of a document's chunk keys leads to a row.
pub open spec fn chunk_keys_free(s: StateView, doc_key: Seq<char>, n: nat) -> bool {
    forall|k: Seq<char>| #[trigger] is_chunk_key(doc_key, n, k) ==> !s.keys.contains_key(k)
}

/// What holds after the first `n` chunks have been written, `s` being the
/// state before them, in which the document lists no rows.
spec fn chunks_so_far(s: StateView, doc_id: u64, doc_key: Seq<char>, first: u64, chunks: Seq<ChunkView>, fields: FieldsView, meta: WalDocMeta, n: nat, t: StateView) -> bool {
    &&& collection::sound(t)
    &&& consistency::linked(t)
    &&& consistency::indexed(s) ==> consistency::indexed(t)
    &&& consistency::rows_keyed(s) && chunk_keys_free(s, doc_key, chunks.len()) ==> consistency::rows_keyed(t)
    &&& n > 0 ==> t.next_row == (if s.next_row >= first + n { s.next_row as int } else { first + n })
    &&& n > 0 ==> t.next_doc == (if s.next_doc > doc_id { s.next_doc as int } else { doc_id + 1 })
    &&& t.live == s.live.union(row_run(first, n))
    &&& forall|id: u64| id < first || id >= first + n ==> #[trigger] t.rows.contains_key(id) == s.rows.contains_key(id) && t.rows[id] == s.rows[id]
    &&& forall|id: u64| first <= id < first + n ==> #[trigger] t.rows.contains_key(id) && t.rows[id] == chunk_row(doc_id, doc_key, chunks, fields, id - first)
    &&& forall|i: nat| i < n ==> t.keys.contains_key(#[trigger] document::chunk_key_of(doc_key, i)) && t.keys[document::chunk_key_of(doc_key, i)] == first + i
    &&& forall|k: Seq<char>| !#[trigger] is_chunk_key(doc_key, n, k) ==> t.keys.contains_key(k) == s.keys.contains_key(k) && t.keys[k] == s.keys[k]
    &&& forall|d: u64| d != doc_id ==> #[trigger] t.docs.contains_key(d) == s.docs.contains_key(d) && t.docs[d] == s.docs[d]
    &&& n == 0 ==> t == s
    &&& n > 0 ==> {
        &&& t.doc_keys == s.doc_keys.insert(doc_key, doc_id)
        &&& t.docs.contains_key(doc_id)
        &&& t.docs[doc_id].doc_id == doc_id
        &&& t.docs[doc_id].doc_key == doc_key
        &&& t.docs[doc_id].rows == row_run(first, n)
        &&& t.docs[doc_id].chunk_count == n
        &&& t.docs[doc_id].meta == meta
        &&& t.docs[doc_id].doc_payload == fields
        &&& s.docs.contains_key(doc_id) ==> t.docs[doc_id].created_txn == s.docs[doc_id].created_txn
    }
}

/// A run of rows has as many as it says.
pub proof fn lemma_run_len(first: u64, n: nat)
    requires
        first + n <= collection::row_capacity(),
    ensures
        row_run(first, n).finite(),
        row_run(first, n).len() == n,
        n > 0 ==> row_run(first, n) == row_run(first, (n - 1) as nat).insert((first + n - 1) as u32),
    decreases n,
{
    if n == 0 {
        assert(row_run(first, 0) =~= Set::<u32>::empty());
    } else {
        lemma_run_len(first, (n - 1) as nat);
        let x = (first + n - 1) as u32;
        assert(row_run(first, n) =~= row_run(first, (n - 1) as nat).insert(x));
        assert(!row_run(first, (n - 1) as nat).contains(x));
    }
}

/// What a document's chunks are written to: a sound state in step, with room
/// for the rows, in which the document lists no rows and keeps its key.
pub open spec fn room_for_chunks(s: StateView, doc_id: u64, doc_key: Seq<char>, first: u64, chunks: Seq<ChunkView>, fields: FieldsView) -> bool {
    &&& collection::sound(s)
    &&& consistency::linked(s)
    &&& payload::row_refusal(s.payload, fields) is None
    &&& document::chunks_encode(chunks)
    &&& chunks.len() <= u32::MAX
    &&& doc_id < u64::MAX
    &&& first + chunks.len() <= collection::row_capacity()
    &&& forall|id: u64| #[trigger] s.rows.contains_key(id) ==> id < first
    &&& s.docs.contains_key(doc_id) ==> s.docs[doc_id].rows == Set::<u32>::empty() && s.docs[doc_id].doc_key == doc_key
}

proof fn lemma_chunk_step(s: StateView, o: OriginView, stamps: Seq<Timestamp>, total: nat, at: nat, doc_id: u64, doc_key: Seq<char>, first: u64, chunks: Seq<ChunkView>, fields: FieldsView, meta: WalDocMeta, n: nat, t: StateView)
    requires
        room_for_chunks(s, doc_id, doc_key, first, chunks, fields),
        n < chunks.len(),
        chunks_so_far(s, doc_id, doc_key, first, chunks, fields, meta, n, t),
        recovery::applied_one(t, draft::drafted(o, document::chunk_change(doc_id, doc_key, first, chunks, fields, meta, n as int), stamps[at as int], at, total)).1 is None,
    ensures
        ({
            let r = draft::drafted(o, document::chunk_change(doc_id, doc_key, first, chunks, fields, meta, n as int), stamps[at as int], at, total);
            let u = recovery::applied_one(t, r).0;
            forall|v: StateView| #[trigger] consistency::same_but_position(u, v) ==> chunks_so_far(s, doc_id, doc_key, first, chunks, fields, meta, n + 1, v)
        }),
{
    let r = draft::drafted(o, document::chunk_change(doc_id, doc_key, first, chunks, fields, meta, n as int), stamps[at as int], at, total);
    let u = recovery::applied_one(t, r).0;
    let id = (first + n) as u64;
    let key = document::chunk_key_of(doc_key, n);
    let row = chunk_row(doc_id, doc_key, chunks, fields, n as int);
    assert(encoding::encodes(chunks[n as int].vector));
    assert(!t.rows.contains_key(id)) by {
        if s.rows.contains_key(id) {
            assert(id < first);
        }
    }
    assert(consistency::suits(t, r));
    consistency::one_record_keeps_in_step(t, r);
    collection::applying_one_keeps_sound(t, r);
    lemma_run_len(first, n);
    lemma_run_len(first, n + 1);
    assert(u.rows == t.rows.insert(id, row));
    assert(u.keys == t.keys.insert(key, id));
    assert(u.live == t.live.insert(id as u32));
    assert(u.live =~= s.live.union(row_run(first, n + 1)));
    assert forall|v: StateView| #[trigger] consistency::same_but_position(u, v) implies chunks_so_far(s, doc_id, doc_key, first, chunks, fields, meta, n + 1, v) by {
        consistency::position_is_beside_the_point(u, v);
        assert forall|x: u64| x < first || x >= first + (n + 1) implies #[trigger] v.rows.contains_key(x) == s.rows.contains_key(x) && v.rows[x] == s.rows[x] by {
            assert(t.rows.contains_key(x) == s.rows.contains_key(x));
        }
        assert forall|x: u64| first <= x < first + (n + 1) implies #[trigger] v.rows.contains_key(x) && v.rows[x] == chunk_row(doc_id, doc_key, chunks, fields, x - first) by {
            if x != id {
                assert(t.rows.contains_key(x));
            }
        }
        assert forall|i: nat| i < n + 1 implies v.keys.contains_key(#[trigger] document::chunk_key_of(doc_key, i)) && v.keys[document::chunk_key_of(doc_key, i)] == first + i by {
            if i < n {
                if document::chunk_key_of(doc_key, i) == key {
                    chunk_keys_are_distinct(doc_key, i, doc_key, n);
                }
            }
        }
        assert forall|k: Seq<char>| !#[trigger] is_chunk_key(doc_key, n + 1, k) implies v.keys.contains_key(k) == s.keys.contains_key(k) && v.keys[k] == s.keys[k] by {
            assert(k != document::chunk_key_of(doc_key, n));
            if is_chunk_key(doc_key, n, k) {
                let i = choose|i: nat| i < n && k == #[trigger] document::chunk_key_of(doc_key, i);
                assert(k == document::chunk_key_of(doc_key, i));
            }
        }
        let w = if n == 0 { Set::<u32>::empty() } else { row_run(first, n) };
        assert(row_run(first, 0) =~= Set::<u32>::empty());
        assert(v.docs[doc_id].rows =~= row_run(first, n + 1));
        assert(v.doc_keys =~= s.doc_keys.insert(doc_key, doc_id));
        assert forall|d: u64| d != doc_id implies #[trigger] v.docs.contains_key(d) == s.docs.contains_key(d) && v.docs[d] == s.docs[d] by {
            assert(t.docs.contains_key(d) == s.docs.contains_key(d));
        }
        if consistency::rows_keyed(s) && chunk_keys_free(s, doc_key, chunks.len()) {
            assert(!t.keys.contains_key(key)) by {
                if is_chunk_key(doc_key, n, key) {
                    let i = choose|i: nat| i < n && key == #[trigger] document::chunk_key_of(doc_key, i);
                    chunk_keys_are_distinct(doc_key, i, doc_key, n);
                }
                assert(is_chunk_key(doc_key, chunks.len(), key)) by {
                    assert(key == document::chunk_key_of(doc_key, n));
                }
            }
            assert forall|x: u32| #[trigger] v.live.contains(x) implies v.keys.contains_key(v.rows[x as u64].key) && v.keys[v.rows[x as u64].key] == x by {
                if x != id {
                    assert(t.live.contains(x));
                }
            }
        }
    }
}

/// Whether the records from `off` on write a document's chunks.
spec fn writes_chunks(records: Seq<RecordView>, off: nat, o: OriginView, stamps: Seq<Timestamp>, doc_id: u64, doc_key: Seq<char>, first: u64, chunks: Seq<ChunkView>, fields: FieldsView, meta: WalDocMeta) -> bool {
    &&& records.len() == off + chunks.len()
    &&& forall|i: int| off <= i < records.len() ==> #[trigger] records[i]
        == draft::drafted(o, document::chunk_change(doc_id, doc_key, first, chunks, fields, meta, i - off), stamps[i], i as nat, records.len())
}

proof fn lemma_chunks_prefix(base: StateView, records: Seq<RecordView>, off: nat, o: OriginView, stamps: Seq<Timestamp>, doc_id: u64, doc_key: Seq<char>, first: u64, chunks: Seq<ChunkView>, fields: FieldsView, meta: WalDocMeta, n: nat)
    requires
        writes_chunks(records, off, o, stamps, doc_id, doc_key, first, chunks, fields, meta),
        room_for_chunks(recovery::applied_records(base, records, off).0, doc_id, doc_key, first, chunks, fields),
        n <= chunks.len(),
        recovery::applied_records(base, records, off + n).1 is None,
    ensures
        chunks_so_far(recovery::applied_records(base, records, off).0, doc_id, doc_key, first, chunks, fields, meta, n, recovery::applied_records(base, records, off + n).0),
    decreases n,
{
    let s = recovery::applied_records(base, records, off).0;
    if n == 0 {
        assert(s.live =~= s.live.union(row_run(first, 0)));
        assert forall|k: Seq<char>| !#[trigger] is_chunk_key(doc_key, 0, k) implies s.keys.contains_key(k) == s.keys.contains_key(k) && s.keys[k] == s.keys[k] by {}
    } else {
        let m = (n - 1) as nat;
        let at = off + m;
        lemma_chunks_prefix(base, records, off, o, stamps, doc_id, doc_key, first, chunks, fields, meta, m);
        let t = recovery::applied_records(base, records, at).0;
        let r = draft::drafted(o, document::chunk_change(doc_id, doc_key, first, chunks, fields, meta, m as int), stamps[at as int], at, records.len());
        assert(records[at as int] == r);
        assert(recovery::applied_records(base, records, off + n) == recovery::applied_records(base, records, at + 1));
        lemma_chunk_step(s, o, stamps, records.len(), at, doc_id, doc_key, first, chunks, fields, meta, m, t);
        let u = recovery::applied_one(t, r).0;
        let v = recovery::applied_records(base, records, at + 1).0;
        assert(consistency::same_but_position(u, v));
    }
}

/// What a document is once its chunks are written: registered under its key,
/// with these rows, this many of them, and this metadata.
pub open spec fn document_is(s: StateView, doc_id: u64, doc_key: Seq<char>, first: u64, count: nat, fields: FieldsView, meta: WalDocMeta) -> bool {
    &&& s.doc_keys.contains_key(doc_key)
    &&& s.doc_keys[doc_key] == doc_id
    &&& s.docs.contains_key(doc_id)
    &&& s.docs[doc_id].doc_key == doc_key
    &&& s.docs[doc_id].rows == row_run(first, count)
    &&& s.docs[doc_id].chunk_count == count
    &&& s.docs[doc_id].meta == meta
    &&& s.docs[doc_id].doc_payload == fields
}

/// Whether each chunk reads back under its key, live.
pub open spec fn chunks_read_back(s: StateView, doc_id: u64, doc_key: Seq<char>, first: u64, chunks: Seq<ChunkView>, fields: FieldsView) -> bool {
    forall|i: nat| i < chunks.len() ==> collection::row_of_key(s, #[trigger] document::chunk_key_of(doc_key, i))
        == Some(((first + i) as u64, chunk_row(doc_id, doc_key, chunks, fields, i as int))) && s.live.contains((first + i) as u32)
}

/// The end of a document's transaction leaves a document that has rows as it
/// is.
proof fn lemma_kept_document(t: StateView, records: Seq<RecordView>, doc_id: u64)
    requires
        forall|i: int| 0 <= i < records.len() ==> (#[trigger] records[i]).doc_id == Some(doc_id),
        t.docs.contains_key(doc_id),
        t.docs[doc_id].rows != Set::<u32>::empty(),
    ensures
        ({
            let u = recovery::with_txn(recovery::without_emptied(t, recovery::touched_docs(records)), records);
            &&& u.docs == t.docs
            &&& u.doc_keys == t.doc_keys
            &&& u.keys == t.keys
            &&& u.rows == t.rows
            &&& u.live == t.live
        }),
{
    let touched = recovery::touched_docs(records);
    let u = recovery::without_emptied(t, touched);
    assert forall|d: u64| !#[trigger] recovery::emptied(t, touched, d) by {
        if touched.contains(d) {
            let i = choose|i: int| 0 <= i < records.len() && (#[trigger] records[i]).doc_id == Some(d);
            assert(records[i].doc_id == Some(doc_id));
        }
    }
    assert(u.docs =~= t.docs);
    assert(u.doc_keys =~= t.doc_keys);
}

proof fn lemma_same_txn(o: OriginView, changes: Seq<ChangeView>, stamps: Seq<Timestamp>)
    ensures
        ({
            let records = draft::drafted_all(o, changes, stamps);
            forall|i: int, j: int| 0 <= i < records.len() && 0 <= j < records.len() ==> (#[trigger] records[i]).txn == (#[trigger] records[j]).txn
        }),
{
}

/// A document that is put reads back: it is registered under its key with its
/// first version, it lists exactly its chunks, and each chunk reads back under
/// its own key. Keys that are no chunk's lead where they led, all other rows
/// and documents stay, and the ids after the new ones come next. What leads to
/// each other does so still, and the columns are right if they were.
pub proof fn a_put_document_reads_back(c: CollectionView, after: CollectionView, ctx: RequestCtx, input: PutDocumentInput)
    requires
        collection::sound(c.state),
        consistency::linked(c.state),
        document::put_document_plan(c, input) is Ok,
        document::chunks_encode(document::chunk_views(input.chunks@)),
        input.chunks@.len() <= u32::MAX,
        c.state.next_row + input.chunks@.len() <= collection::row_capacity(),
        c.state.next_doc < u64::MAX,
        document::changes_took_place(c, after, ctx, (document::put_document_plan(c, input)->Ok_0).1),
    ensures
        ({
            let chunks = document::chunk_views(input.chunks@);
            let doc_id = c.state.next_doc;
            let first = c.state.next_row;
            &&& document_is(after.state, doc_id, input.doc_key@, first, chunks.len(), input.doc_payload@, document::new_meta(input))
            &&& chunks_read_back(after.state, doc_id, input.doc_key@, first, chunks, input.doc_payload@)
            &&& after.state.live == c.state.live.union(row_run(first, chunks.len()))
            &&& forall|k: Seq<char>| !#[trigger] is_chunk_key(input.doc_key@, chunks.len(), k) ==> collection::row_of_key(after.state, k) == collection::row_of_key(c.state, k)
            &&& forall|id: u64| #[trigger] c.state.rows.contains_key(id) ==> after.state.rows.contains_key(id) && after.state.rows[id] == c.state.rows[id]
            &&& forall|d: u64| d != doc_id ==> #[trigger] after.state.docs.contains_key(d) == c.state.docs.contains_key(d) && after.state.docs[d] == c.state.docs[d]
            &&& after.state.doc_keys == c.state.doc_keys.insert(input.doc_key@, doc_id)
            &&& after.state.next_row == first + chunks.len()
            &&& after.state.next_doc == doc_id + 1
            &&& after.outbox.len() == c.outbox.len() + 1
            &&& collection::sound(after.state)
            &&& consistency::linked(after.state)
            &&& consistency::indexed(c.state) ==> consistency::indexed(after.state)
            &&& consistency::rows_keyed(c.state) && chunk_keys_free(c.state, input.doc_key@, chunks.len()) ==> consistency::rows_keyed(after.state)
            &&& consistency::docs_keyed(c.state) ==> consistency::docs_keyed(after.state)
        }),
{
    let plan = document::put_document_plan(c, input);
    let changes = (plan->Ok_0).1;
    let chunks = document::chunk_views(input.chunks@);
    let doc_id = c.state.next_doc;
    let doc_key = input.doc_key@;
    let first = c.state.next_row;
    let fields = input.doc_payload@;
    let meta = document::new_meta(input);
    let (txn, stamps) = choose|txn: u128, stamps: Seq<Timestamp>|
        stamps.len() >= changes.len() && after == #[trigger] document::written_changes(c, draft::origin(ctx, c.name, txn), changes, stamps);
    let o = draft::origin(ctx, c.name, txn);
    let records = draft::drafted_all(o, changes, stamps);
    let s = c.state;
    document::lemma_chunk_changes_fit(s, doc_id, doc_key, first, chunks, fields, meta);
    document::lemma_changes_apply(s, o, changes, stamps);
    lemma_same_txn(o, changes, stamps);
    recovery::one_transaction_is_one_unit(s, records);
    assert(recovery::applied_records(s, records, 0) == (s, None::<StorageErrorView>));
    assert(!s.docs.contains_key(doc_id));
    let t = recovery::applied_records(s, records, records.len()).0;
    lemma_chunks_prefix(s, records, 0, o, stamps, doc_id, doc_key, first, chunks, fields, meta, chunks.len());
    lemma_run_len(first, chunks.len());
    assert(row_run(first, chunks.len()).contains(first as u32));
    lemma_kept_document(t, records, doc_id);
    consistency::ending_keeps_in_step(t, records);
    collection::applying_keeps_sound(s, records, 0);
    assert forall|i: nat| i < chunks.len() implies collection::row_of_key(after.state, #[trigger] document::chunk_key_of(doc_key, i))
        == Some(((first + i) as u64, chunk_row(doc_id, doc_key, chunks, fields, i as int))) && after.state.live.contains((first + i) as u32) by {
        assert(t.rows.contains_key((first + i) as u64));
    }
    assert forall|k: Seq<char>| !#[trigger] is_chunk_key(doc_key, chunks.len(), k) implies collection::row_of_key(after.state, k) == collection::row_of_key(c.state, k) by {
        if c.state.keys.contains_key(k) {
            assert(c.state.rows.contains_key(c.state.keys[k]));
            assert(t.rows.contains_key(c.state.keys[k]) == s.rows.contains_key(c.state.keys[k]));
        }
    }
    assert forall|id: u64| #[trigger] c.state.rows.contains_key(id) implies after.state.rows.contains_key(id) && after.state.rows[id] == c.state.rows[id] by {
        assert(t.rows.contains_key(id) == s.rows.contains_key(id));
    }
    assert forall|d: u64| d != doc_id implies #[trigger] after.state.docs.contains_key(d) == c.state.docs.contains_key(d) && after.state.docs[d] == c.state.docs[d] by {
        assert(t.docs.contains_key(d) == s.docs.contains_key(d));
    }
    lemma_one_document_keyed(c.state, after.state, doc_id, doc_key);
}

/// A document that has joined the others, or stayed among them, under a key
/// that was free or its own leaves all documents keyed.
proof fn lemma_one_document_keyed(s: StateView, t: StateView, doc_id: u64, doc_key: Seq<char>)
    requires
        t.doc_keys == s.doc_keys.insert(doc_key, doc_id),
        s.doc_keys.contains_key(doc_key) ==> s.doc_keys[doc_key] == doc_id,
        t.docs.contains_key(doc_id),
        t.docs[doc_id].doc_key == doc_key,
        forall|d: u64| d != doc_id ==> #[trigger] t.docs.contains_key(d) == s.docs.contains_key(d) && t.docs[d] == s.docs[d],
    ensures
        consistency::docs_keyed(s) ==> consistency::docs_keyed(t),
{
    if consistency::docs_keyed(s) {
        assert forall|d: u64| #[trigger] t.docs.contains_key(d) implies t.doc_keys.contains_key(t.docs[d].doc_key) && t.doc_keys[t.docs[d].doc_key] == d by {
            if d != doc_id {
                assert(s.docs.contains_key(d));
            }
        }
    }
}

/// Whether one of the first `n` rows of the list has this key.
pub open spec fn key_of_listed(s: StateView, rows: Seq<u32>, n: nat, k: Seq<char>) -> bool {
    exists|i: int| 0 <= i < n && s.rows[#[trigger] rows[i] as u64].key == k
}

/// Whether a row is one of the first `n` of the list.
pub open spec fn listed(rows: Seq<u32>, n: nat) -> Set<u32> {
    Set::new(|x: u32| exists|i: int| 0 <= i < n && #[trigger] rows[i] == x)
}

/// What holds after the first `n` rows of a document have been removed.
spec fn removals_so_far(s: StateView, doc_id: u64, rows: Seq<u32>, n: nat, t: StateView) -> bool {
    &&& collection::sound(t)
    &&& consistency::linked(t)
    &&& consistency::indexed(s) ==> consistency::indexed(t)
    &&& consistency::rows_keyed(s) ==> consistency::rows_keyed(t)
    &&& t.docs[doc_id].created_txn == s.docs[doc_id].created_txn
    &&& t.rows == s.rows
    &&& t.next_row == s.next_row
    &&& t.next_doc == s.next_doc
    &&& t.doc_keys == s.doc_keys
    &&& t.live == s.live.difference(listed(rows, n))
    &&& t.docs.dom() == s.docs.dom()
    &&& forall|d: u64| d != doc_id ==> #[trigger] t.docs[d] == s.docs[d]
    &&& t.docs[doc_id].rows == s.docs[doc_id].rows.difference(listed(rows, n))
    &&& t.docs[doc_id].doc_key == s.docs[doc_id].doc_key
    &&& forall|k: Seq<char>| #[trigger] t.keys.contains_key(k) <==> s.keys.contains_key(k) && !key_of_listed(s, rows, n, k)
    &&& forall|k: Seq<char>| #[trigger] t.keys.contains_key(k) ==> t.keys[k] == s.keys[k]
}

/// Whether the first records remove these rows of a document.
spec fn removes_rows(records: Seq<RecordView>, s: StateView, o: OriginView, stamps: Seq<Timestamp>, doc_id: u64, doc_key: Seq<char>, meta: WalDocMeta, rows: Seq<u32>) -> bool {
    &&& rows.len() <= records.len()
    &&& forall|i: int| 0 <= i < rows.len() ==> #[trigger] records[i]
        == draft::drafted(o, document::removal_change(s, doc_id, doc_key, meta, rows[i]), stamps[i], i as nat, records.len())
}

proof fn lemma_removals_prefix(base: StateView, s: StateView, records: Seq<RecordView>, o: OriginView, stamps: Seq<Timestamp>, doc_id: u64, doc_key: Seq<char>, meta: WalDocMeta, rows: Seq<u32>, n: nat)
    requires
        collection::sound(base),
        consistency::linked(base),
        base.rows == s.rows,
        base.docs.contains_key(doc_id),
        doc_id < u64::MAX,
        bitmap::lists_ascending(rows, base.docs[doc_id].rows),
        removes_rows(records, s, o, stamps, doc_id, doc_key, meta, rows),
        n <= rows.len(),
        recovery::applied_records(base, records, n).1 is None,
    ensures
        removals_so_far(base, doc_id, rows, n, recovery::applied_records(base, records, n).0),
    decreases n,
{
    if n == 0 {
        assert(listed(rows, 0) =~= Set::<u32>::empty());
        assert(base.live =~= base.live.difference(listed(rows, 0)));
        assert(base.docs[doc_id].rows =~= base.docs[doc_id].rows.difference(listed(rows, 0)));
    } else {
        let m = (n - 1) as nat;
        lemma_removals_prefix(base, s, records, o, stamps, doc_id, doc_key, meta, rows, m);
        let t = recovery::applied_records(base, records, m).0;
        let r = records[m as int];
        let row = rows[m as int];
        assert(r == draft::drafted(o, document::removal_change(s, doc_id, doc_key, meta, row), stamps[m as int], m, records.len()));
        assert(rows.contains(row));
        assert(base.docs[doc_id].rows.contains(row));
        assert(base.live.contains(row));
        assert(base.rows.contains_key(row as u64));
        assert(consistency::suits(t, r));
        consistency::one_record_keeps_in_step(t, r);
        collection::applying_one_keeps_sound(t, r);
        let u = recovery::applied_one(t, r).0;
        let v = recovery::applied_records(base, records, n).0;
        consistency::position_is_beside_the_point(u, v);
        assert(listed(rows, n) =~= listed(rows, m).insert(row)) by {
            assert forall|x: u32| listed(rows, n).contains(x) <==> listed(rows, m).insert(row).contains(x) by {
                if listed(rows, n).contains(x) {
                    let i = choose|i: int| 0 <= i < n && #[trigger] rows[i] == x;
                    assert(rows[i] == x);
                }
                if listed(rows, m).contains(x) {
                    let i = choose|i: int| 0 <= i < m && #[trigger] rows[i] == x;
                    assert(rows[i] == x);
                }
                if x == row {
                    assert(rows[m as int] == x);
                }
            }
        }
        assert(v.live =~= base.live.difference(listed(rows, n)));
        assert(v.docs[doc_id].rows =~= base.docs[doc_id].rows.difference(listed(rows, n)));
        assert(v.docs.dom() =~= base.docs.dom());
        if consistency::rows_keyed(base) {
            assert(!listed(rows, m).contains(row)) by {
                if listed(rows, m).contains(row) {
                    let i = choose|i: int| 0 <= i < m && #[trigger] rows[i] == row;
                    assert(rows[i] < rows[m as int]);
                }
            }
            assert(t.live.contains(row));
            assert forall|x: u32| #[trigger] v.live.contains(x) implies v.keys.contains_key(v.rows[x as u64].key) && v.keys[v.rows[x as u64].key] == x by {
                assert(t.live.contains(x));
            }
        }
        assert forall|k: Seq<char>| #[trigger] v.keys.contains_key(k) <==> base.keys.contains_key(k) && !key_of_listed(base, rows, n, k) by {
            assert(t.keys.contains_key(k) <==> base.keys.contains_key(k) && !key_of_listed(base, rows, m, k));
            if key_of_listed(base, rows, m, k) {
                let i = choose|i: int| 0 <= i < m && base.rows[#[trigger] rows[i] as u64].key == k;
                assert(base.rows[rows[i] as u64].key == k);
            }
            if key_of_listed(base, rows, n, k) {
                let i = choose|i: int| 0 <= i < n && base.rows[#[trigger] rows[i] as u64].key == k;
                if i < m {
                    assert(base.rows[rows[i] as u64].key == k);
                }
            }
            if base.rows[row as u64].key == k {
                assert(base.rows[rows[m as int] as u64].key == k);
            }
        }
    }
}

/// Every row that a document lists has its record.
pub proof fn lemma_all_recorded(s: StateView, doc_id: u64)
    requires
        collection::sound(s),
        consistency::linked(s),
        s.docs.contains_key(doc_id),
    ensures
        document::rows_of_document(s, doc_id) == bitmap::listing(s.docs[doc_id].rows),
        bitmap::lists_ascending(document::rows_of_document(s, doc_id), s.docs[doc_id].rows),
        listed(document::rows_of_document(s, doc_id), document::rows_of_document(s, doc_id).len()) == s.docs[doc_id].rows,
{
    let l = bitmap::listing(s.docs[doc_id].rows);
    bitmap::listing_exists(s.docs[doc_id].rows);
    assert forall|i: int| 0 <= i < l.len() implies s.rows.contains_key(#[trigger] l[i] as u64) by {
        assert(l.contains(l[i]));
        assert(s.docs[doc_id].rows.contains(l[i]));
        assert(s.live.contains(l[i]));
    }
    document::lemma_recorded(s, l, l.len());
    assert(l.take(l.len() as int) =~= l);
    assert(listed(l, l.len()) =~= s.docs[doc_id].rows) by {
        assert forall|x: u32| listed(l, l.len()).contains(x) <==> s.docs[doc_id].rows.contains(x) by {
            if listed(l, l.len()).contains(x) {
                let i = choose|i: int| 0 <= i < l.len() && #[trigger] l[i] == x;
                assert(l.contains(x));
            }
            if s.docs[doc_id].rows.contains(x) {
                assert(l.contains(x));
            }
        }
    }
}

/// Whether one of these rows has this key.
pub open spec fn is_key_of(s: StateView, rows: Set<u32>, k: Seq<char>) -> bool {
    exists|row: u32| #[trigger] rows.contains(row) && s.rows[row as u64].key == k
}

/// Whether a chunk key of a document that leads to a row leads to one of the
/// document's own.
pub open spec fn only_own_chunk_keys(s: StateView, doc_id: u64, doc_key: Seq<char>, n: nat) -> bool {
    forall|k: Seq<char>| #[trigger] is_chunk_key(doc_key, n, k) && s.keys.contains_key(k) ==> is_key_of(s, s.docs[doc_id].rows, k)
}

proof fn lemma_listed_keys(s: StateView, rows: Seq<u32>, own: Set<u32>, k: Seq<char>)
    requires
        listed(rows, rows.len()) == own,
    ensures
        key_of_listed(s, rows, rows.len(), k) == is_key_of(s, own, k),
{
    if key_of_listed(s, rows, rows.len(), k) {
        let i = choose|i: int| 0 <= i < rows.len() && s.rows[#[trigger] rows[i] as u64].key == k;
        assert(own.contains(rows[i]));
    }
    if is_key_of(s, own, k) {
        let row = choose|row: u32| #[trigger] own.contains(row) && s.rows[row as u64].key == k;
        let i = choose|i: int| 0 <= i < rows.len() && #[trigger] rows[i] == row;
        assert(s.rows[rows[i] as u64].key == k);
    }
}

/// A replaced document is the new version and nothing else: it keeps its id
/// and the transaction that created it, its version is one higher, it lists
/// exactly the new chunks, each of which reads back, and none of its old rows
/// is live any more, though their records stay. The keys of the old rows lead
/// nowhere unless they are a new chunk's, all other keys, rows and documents
/// stay, and subscribers are told in one batch.
pub proof fn a_replaced_document_reads_back(c: CollectionView, after: CollectionView, ctx: RequestCtx, doc_key: Seq<char>, chunks: Seq<ChunkView>, fields: FieldsView, chunk_spec: ChunkSpec, source: Option<String>, model: ModelFingerprint)
    requires
        collection::sound(c.state),
        consistency::linked(c.state),
        document::replace_document_plan(c, doc_key, chunks, fields, chunk_spec, source, model) is Ok,
        document::chunks_encode(chunks),
        document::document_size(c.state, doc_key) + chunks.len() <= u32::MAX,
        c.state.next_row + chunks.len() <= collection::row_capacity(),
        document::changes_took_place(
            c,
            after,
            ctx,
            (document::replace_document_plan(c, doc_key, chunks, fields, chunk_spec, source, model)->Ok_0).1,
        ),
    ensures
        ({
            let doc_id = c.state.doc_keys[doc_key];
            let old_entry = c.state.docs[doc_id];
            let first = c.state.next_row;
            &&& document_is(after.state, doc_id, doc_key, first, chunks.len(), fields, document::next_meta(old_entry, chunk_spec, source, model))
            &&& chunks_read_back(after.state, doc_id, doc_key, first, chunks, fields)
            &&& after.state.live == c.state.live.difference(old_entry.rows).union(row_run(first, chunks.len()))
            &&& after.state.docs[doc_id].created_txn == old_entry.created_txn
            &&& forall|id: u64| #[trigger] c.state.rows.contains_key(id) ==> after.state.rows.contains_key(id) && after.state.rows[id] == c.state.rows[id]
            &&& forall|k: Seq<char>| !#[trigger] is_chunk_key(doc_key, chunks.len(), k) ==> collection::row_of_key(after.state, k)
                == (if is_key_of(c.state, old_entry.rows, k) { None } else { collection::row_of_key(c.state, k) })
            &&& forall|d: u64| d != doc_id ==> #[trigger] after.state.docs.contains_key(d) == c.state.docs.contains_key(d) && after.state.docs[d] == c.state.docs[d]
            &&& after.state.doc_keys == c.state.doc_keys
            &&& after.state.next_row == first + chunks.len()
            &&& after.state.next_doc == c.state.next_doc
            &&& after.outbox.len() == c.outbox.len() + 1
            &&& collection::sound(after.state)
            &&& consistency::linked(after.state)
            &&& consistency::indexed(c.state) ==> consistency::indexed(after.state)
            &&& consistency::rows_keyed(c.state) && only_own_chunk_keys(c.state, doc_id, doc_key, chunks.len()) ==> consistency::rows_keyed(after.state)
            &&& consistency::docs_keyed(c.state) ==> consistency::docs_keyed(after.state)
        }),
{
    let plan = document::replace_document_plan(c, doc_key, chunks, fields, chunk_spec, source, model);
    let changes = (plan->Ok_0).1;
    let doc_id = c.state.doc_keys[doc_key];
    let entry = c.state.docs[doc_id];
    let first = c.state.next_row;
    let meta = document::next_meta(entry, chunk_spec, source, model);
    let (txn, stamps) = choose|txn: u128, stamps: Seq<Timestamp>|
        stamps.len() >= changes.len() && after == #[trigger] document::written_changes(c, draft::origin(ctx, c.name, txn), changes, stamps);
    let o = draft::origin(ctx, c.name, txn);
    let records = draft::drafted_all(o, changes, stamps);
    let s = c.state;
    assert(c.state.docs.contains_key(doc_id));
    lemma_all_recorded(c.state, doc_id);
    let rows = document::rows_of_document(c.state, doc_id);
    let removals = document::removal_changes(c.state, doc_id, doc_key, entry.meta, rows);
    let additions = document::chunk_changes(doc_id, doc_key, first, chunks, fields, meta);
    document::lemma_chunk_changes_fit(s, doc_id, doc_key, first, chunks, fields, meta);
    assert forall|i: int| 0 <= i < changes.len() implies document::change_fits(#[trigger] changes[i]) && document::change_clean(s.payload, changes[i])
        && changes[i].doc_id == Some(doc_id) by {
        if i < removals.len() {
            assert(changes[i] == removals[i]);
        } else {
            assert(changes[i] == additions[i - removals.len()]);
        }
    }
    document::lemma_changes_apply(s, o, changes, stamps);
    lemma_same_txn(o, changes, stamps);
    recovery::one_transaction_is_one_unit(s, records);
    assert forall|i: int| 0 <= i < records.len() implies recovery::clean(s.payload, #[trigger] records[i]) by {
        assert(document::change_clean(s.payload, changes[i]));
    }
    let off = rows.len();
    assert forall|i: int| 0 <= i < rows.len() implies #[trigger] records[i]
        == draft::drafted(o, document::removal_change(c.state, doc_id, doc_key, entry.meta, rows[i]), stamps[i], i as nat, records.len()) by {
        assert(changes[i] == removals[i]);
    }
    assert forall|i: int| off <= i < records.len() implies #[trigger] records[i]
        == draft::drafted(o, document::chunk_change(doc_id, doc_key, first, chunks, fields, meta, i - off), stamps[i], i as nat, records.len()) by {
        assert(changes[i] == additions[i - removals.len()]);
    }
    recovery::lemma_clean_prefix(s, records, off);
    recovery::lemma_clean_prefix(s, records, records.len());
    lemma_removals_prefix(s, c.state, records, o, stamps, doc_id, doc_key, entry.meta, rows, off);
    let t = recovery::applied_records(s, records, off).0;
    assert(t.docs[doc_id].rows =~= Set::<u32>::empty());
    assert(payload::row_refusal(t.payload, fields) is None);
    lemma_chunks_prefix(s, records, off, o, stamps, doc_id, doc_key, first, chunks, fields, meta, chunks.len());
    let u = recovery::applied_records(s, records, records.len()).0;
    lemma_run_len(first, chunks.len());
    assert(row_run(first, chunks.len()).contains(first as u32));
    assert forall|i: int| 0 <= i < records.len() implies (#[trigger] records[i]).doc_id == Some(doc_id) by {
        assert(changes[i].doc_id == Some(doc_id));
    }
    lemma_kept_document(u, records, doc_id);
    consistency::ending_keeps_in_step(u, records);
    collection::applying_keeps_sound(s, records, 0);
    assert forall|i: nat| i < chunks.len() implies collection::row_of_key(after.state, #[trigger] document::chunk_key_of(doc_key, i))
        == Some(((first + i) as u64, chunk_row(doc_id, doc_key, chunks, fields, i as int))) && after.state.live.contains((first + i) as u32) by {
        assert(u.rows.contains_key((first + i) as u64));
    }
    assert forall|id: u64| #[trigger] c.state.rows.contains_key(id) implies after.state.rows.contains_key(id) && after.state.rows[id] == c.state.rows[id] by {
        assert(u.rows.contains_key(id) == t.rows.contains_key(id));
    }
    assert forall|k: Seq<char>| !#[trigger] is_chunk_key(doc_key, chunks.len(), k) implies collection::row_of_key(after.state, k)
        == (if is_key_of(c.state, entry.rows, k) { None } else { collection::row_of_key(c.state, k) }) by {
        lemma_listed_keys(c.state, rows, entry.rows, k);
        assert(t.keys.contains_key(k) <==> s.keys.contains_key(k) && !key_of_listed(s, rows, off, k));
        if t.keys.contains_key(k) {
            assert(t.rows.contains_key(t.keys[k]));
            assert(u.rows.contains_key(t.keys[k]) == t.rows.contains_key(t.keys[k]));
        }
        if c.state.keys.contains_key(k) {
            assert(c.state.rows.contains_key(c.state.keys[k]));
        }
    }
    assert forall|d: u64| d != doc_id implies #[trigger] after.state.docs.contains_key(d) == c.state.docs.contains_key(d) && after.state.docs[d] == c.state.docs[d] by {
        assert(u.docs.contains_key(d) == t.docs.contains_key(d));
        assert(t.docs.dom().contains(d) == s.docs.dom().contains(d));
        assert(t.docs[d] == s.docs[d]);
    }
    assert(after.state.doc_keys =~= c.state.doc_keys);
    assert(c.state.doc_keys =~= c.state.doc_keys.insert(doc_key, doc_id));
    lemma_one_document_keyed(c.state, after.state, doc_id, doc_key);
    if consistency::rows_keyed(c.state) && only_own_chunk_keys(c.state, doc_id, doc_key, chunks.len()) {
        assert(chunk_keys_free(t, doc_key, chunks.len())) by {
            assert forall|k: Seq<char>| #[trigger] is_chunk_key(doc_key, chunks.len(), k) implies !t.keys.contains_key(k) by {
                lemma_listed_keys(c.state, rows, entry.rows, k);
                    }
        }
    }
}

/// A deleted document is gone: its key leads nowhere, it is not registered,
/// none of its rows is live, and their keys lead nowhere. All other live rows,
/// keys and documents stay, and so do all records.
pub proof fn a_deleted_document_is_gone(c: CollectionView, after: CollectionView, ctx: RequestCtx, doc_key: Seq<char>)
    requires
        collection::sound(c.state),
        consistency::linked(c.state),
        c.state.doc_keys.contains_key(doc_key),
        c.state.docs[c.state.doc_keys[doc_key]].rows != Set::<u32>::empty(),
        document::document_size(c.state, doc_key) <= u32::MAX,
        document::changes_took_place(c, after, ctx, document::delete_document_changes(c.state, doc_key)),
    ensures
        ({
            let doc_id = c.state.doc_keys[doc_key];
            &&& !after.state.doc_keys.contains_key(doc_key)
            &&& after.state.docs == c.state.docs.remove(doc_id)
            &&& after.state.live == c.state.live.difference(c.state.docs[doc_id].rows)
            &&& after.state.rows == c.state.rows
            &&& forall|k: Seq<char>| #[trigger] collection::row_of_key(after.state, k)
                == (if is_key_of(c.state, c.state.docs[doc_id].rows, k) { None } else { collection::row_of_key(c.state, k) })
            &&& forall|k: Seq<char>| k != doc_key ==> #[trigger] after.state.doc_keys.contains_key(k) == c.state.doc_keys.contains_key(k)
                && (c.state.doc_keys.contains_key(k) ==> after.state.doc_keys[k] == c.state.doc_keys[k])
            &&& after.state.next_row == c.state.next_row
            &&& after.state.next_doc == c.state.next_doc
            &&& after.outbox.len() == c.outbox.len() + 1
            &&& collection::sound(after.state)
            &&& consistency::linked(after.state)
            &&& consistency::indexed(c.state) ==> consistency::indexed(after.state)
            &&& consistency::rows_keyed(c.state) ==> consistency::rows_keyed(after.state)
            &&& consistency::docs_keyed(c.state) ==> consistency::docs_keyed(after.state)
        }),
{
    let changes = document::delete_document_changes(c.state, doc_key);
    let s = c.state;
    let doc_id = s.doc_keys[doc_key];
    let entry = s.docs[doc_id];
    let (txn, stamps) = choose|txn: u128, stamps: Seq<Timestamp>|
        stamps.len() >= changes.len() && after == #[trigger] document::written_changes(c, draft::origin(ctx, c.name, txn), changes, stamps);
    let o = draft::origin(ctx, c.name, txn);
    let records = draft::drafted_all(o, changes, stamps);
    assert(s.docs.contains_key(doc_id));
    lemma_all_recorded(s, doc_id);
    let rows = document::rows_of_document(s, doc_id);
    assert(rows.len() > 0) by {
        if rows.len() == 0 {
            assert(entry.rows =~= Set::<u32>::empty());
        }
    }
    document::lemma_changes_apply(s, o, changes, stamps);
    lemma_same_txn(o, changes, stamps);
    recovery::one_transaction_is_one_unit(s, records);
    lemma_removals_prefix(s, s, records, o, stamps, doc_id, doc_key, entry.meta, rows, rows.len());
    let t = recovery::applied_records(s, records, records.len()).0;
    assert(t.docs[doc_id].rows =~= Set::<u32>::empty());
    consistency::ending_keeps_in_step(t, records);
    collection::applying_keeps_sound(s, records, 0);
    let touched = recovery::touched_docs(records);
    assert(records[0].doc_id == Some(doc_id));
    assert(touched.contains(doc_id));
    assert(recovery::emptied(t, touched, doc_id));
    assert forall|d: u64| #[trigger] recovery::emptied(t, touched, d) implies d == doc_id by {
        let i = choose|i: int| 0 <= i < records.len() && (#[trigger] records[i]).doc_id == Some(d);
        assert(records[i].doc_id == Some(doc_id));
    }
    assert(after.state.docs =~= s.docs.remove(doc_id));
    assert forall|k: Seq<char>| #[trigger] collection::row_of_key(after.state, k)
        == (if is_key_of(s, entry.rows, k) { None } else { collection::row_of_key(s, k) }) by {
        lemma_listed_keys(s, rows, entry.rows, k);
        assert(t.keys.contains_key(k) <==> s.keys.contains_key(k) && !key_of_listed(s, rows, rows.len(), k));
    }
    if consistency::docs_keyed(s) {
        consistency::transactions_keep_docs_keyed(s, records);
    }
}

} // verus!
