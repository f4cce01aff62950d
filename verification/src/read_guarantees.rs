//! What reads give back, said of the rows that a collection holds.

use crate::bitmap;
use crate::collection;
use crate::document;
use crate::fields::PayloadRow;
use crate::model::DistanceMetric;
use crate::order;
use crate::payload;
use crate::snapshot;
use crate::snapshot::SnapshotRowView;
use crate::state;
use crate::state::{DocEntry, Row, RowView, StateView};
use vstd::prelude::*;

verus! {

/// A row that is handed out carries its own id and everything that was stored
/// under it, the vector with it.
pub proof fn a_row_is_shown_as_it_is_stored(r: Row, id: u64, v: RowView)
    requires
        state::is_row(r, id, v),
    ensures
        r.id.0 == id,
        r.key@ == v.key,
        r.vector is Some,
        r.vector->0@ == v.vector,
        r.fields@ == v.fields,
        r.extra is Some <==> v.extra is Some,
        r.extra matches Some(x) ==> x@ == v.extra->0,
        r.text is Some <==> v.text is Some,
        r.text matches Some(x) ==> x@ == v.text->0,
        r.doc_id is Some <==> v.doc_id is Some,
        r.doc_id matches Some(d) ==> d.0 == v.doc_id->0,
        r.chunk_ord == v.chunk_ord,
{
}

/// A read by key finds the row that the key leads to, and nothing where it
/// leads to none.
pub proof fn a_key_finds_its_row(s: StateView, key: Seq<char>, r: Option<Row>)
    requires
        collection::sound(s),
        collection::is_row_of_key(s, key, r),
    ensures
        r is Some <==> s.keys.contains_key(key),
        r matches Some(row) ==> row.id.0 == s.keys[key] && row.vector is Some && row.vector->0@ == s.rows[s.keys[key]].vector
            && row.key@ == s.rows[s.keys[key]].key && row.fields@ == s.rows[s.keys[key]].fields,
{
}

/// A read by id gives the row where it is live, and nothing for a row that is
/// deleted or was never written. A vector or a row's fields can be had of any
/// row ever written.
pub proof fn an_id_finds_its_row(s: StateView, id: u64, row: Option<Row>, vector: Option<Vec<u32>>, fields: Option<PayloadRow>)
    requires
        collection::sound(s),
        id <= u32::MAX,
        collection::is_live_row(s, id, row),
        collection::is_vector_of(s, id, vector),
        collection::are_fields_of(s, id, fields),
    ensures
        row is Some <==> s.live.contains(id as u32),
        row matches Some(r) ==> r.id.0 == id && r.key@ == s.rows[id].key && r.vector is Some && r.vector->0@ == s.rows[id].vector
            && r.fields@ == s.rows[id].fields,
        vector is Some <==> s.rows.contains_key(id),
        vector matches Some(v) ==> v@ == s.rows[id].vector,
        fields is Some <==> s.rows.contains_key(id),
        fields matches Some(f) ==> f@ == s.rows[id].fields,
{
    if s.live.contains(id as u32) {
        assert(s.rows.contains_key(id as u32 as u64));
    }
}

/// A page of a scan holds live rows past the given id only, each once,
/// ascending, and no more than asked for. Where it holds fewer it holds all
/// that are left; otherwise a row that it leaves out lies past its last one.
pub proof fn a_scan_pages_through_the_live_rows(s: StateView, after: Option<u64>, limit: nat, page: Seq<Row>)
    requires
        collection::is_page(s, after, limit, page),
    ensures
        page.len() <= limit,
        forall|i: int| 0 <= i < page.len() ==> (#[trigger] page[i]).id.0 <= u32::MAX && s.live.contains(page[i].id.0 as u32)
            && (after matches Some(a) ==> page[i].id.0 > a) && page[i].key@ == s.rows[page[i].id.0].key && page[i].vector is Some
            && page[i].vector->0@ == s.rows[page[i].id.0].vector && page[i].fields@ == s.rows[page[i].id.0].fields,
        forall|i: int, j: int| 0 <= i < j < page.len() ==> (#[trigger] page[i]).id.0 < (#[trigger] page[j]).id.0,
        forall|row: u32| #[trigger] s.live.contains(row) && (after matches Some(a) ==> row > a) ==> (exists|i: int| 0 <= i < page.len() && (#[trigger] page[i]).id.0
            == row) || (page.len() == limit && forall|i: int| 0 <= i < page.len() ==> (#[trigger] page[i]).id.0 < row),
{
    let left = collection::live_after(s, after);
    let l = bitmap::listing(left);
    bitmap::listing_exists(left);
    assert forall|i: int| 0 <= i < page.len() implies (#[trigger] page[i]).id.0 <= u32::MAX && s.live.contains(page[i].id.0 as u32)
        && (after matches Some(a) ==> page[i].id.0 > a) by {
        assert(state::is_row(page[i], l[i] as u64, s.rows[l[i] as u64]));
        assert(l.contains(l[i]));
        assert(left.contains(l[i]));
    }
    assert forall|i: int, j: int| 0 <= i < j < page.len() implies (#[trigger] page[i]).id.0 < (#[trigger] page[j]).id.0 by {
        assert(l[i] < l[j]);
    }
    assert forall|row: u32| #[trigger] s.live.contains(row) && (after matches Some(a) ==> row > a) implies (exists|i: int| 0 <= i < page.len()
        && (#[trigger] page[i]).id.0 == row) || (page.len() == limit && forall|i: int| 0 <= i < page.len() ==> (#[trigger] page[i]).id.0 < row) by {
        assert(left.contains(row));
        assert(l.contains(row));
        let k = choose|k: int| 0 <= k < l.len() && l[k] == row;
        if k < page.len() {
            assert(page[k].id.0 == row);
        } else {
            assert forall|i: int| 0 <= i < page.len() implies (#[trigger] page[i]).id.0 < row by {
                assert(l[i] < l[k]);
            }
        }
    }
}

/// Going on from the last row of a page that is full gives the rows that a
/// larger page would have had next.
pub proof fn pages_follow_on(s: StateView, after: Option<u64>, limit: nat, more: nat, page: Seq<Row>, next: Seq<Row>, whole: Seq<Row>)
    requires
        0 < limit == page.len(),
        collection::is_page(s, after, limit, page),
        collection::is_page(s, Some(page.last().id.0), more, next),
        collection::is_page(s, after, limit + more, whole),
    ensures
        whole.len() == page.len() + next.len(),
        forall|i: int| 0 <= i < page.len() ==> (#[trigger] whole[i]).id == page[i].id,
        forall|i: int| 0 <= i < next.len() ==> (#[trigger] next[i]).id == whole[page.len() + i].id,
{
    let left = collection::live_after(s, after);
    let l = bitmap::listing(left);
    bitmap::listing_exists(left);
    let at = page.last().id.0;
    assert(state::is_row(page[limit - 1], l[limit - 1] as u64, s.rows[l[limit - 1] as u64]));
    let rest = l.skip(limit as int);
    assert(bitmap::lists_ascending(rest, collection::live_after(s, Some(at)))) by {
        assert forall|v: u32| #[trigger] collection::live_after(s, Some(at)).contains(v) <==> rest.contains(v) by {
            if collection::live_after(s, Some(at)).contains(v) {
                assert(l.contains(l[limit - 1]));
                assert(left.contains(l[limit - 1]));
                assert(left.contains(v));
                assert(l.contains(v));
                let k = choose|k: int| 0 <= k < l.len() && l[k] == v;
                assert(k >= limit) by {
                    if k < limit - 1 {
                        assert(l[k] < l[limit - 1]);
                    }
                }
                assert(rest[k - limit] == v);
            }
            if rest.contains(v) {
                let k = choose|k: int| 0 <= k < rest.len() && rest[k] == v;
                assert(l[limit + k] == v);
                assert(l.contains(v));
                assert(left.contains(v));
                assert(l[limit - 1] < l[limit + k]);
            }
        }
    }
    bitmap::listing_is(rest, collection::live_after(s, Some(at)));
    assert forall|i: int| 0 <= i < page.len() implies (#[trigger] whole[i]).id == page[i].id by {
        assert(state::is_row(whole[i], l[i] as u64, s.rows[l[i] as u64]));
        assert(state::is_row(page[i], l[i] as u64, s.rows[l[i] as u64]));
    }
    assert forall|i: int| 0 <= i < next.len() implies (#[trigger] next[i]).id == whole[page.len() + i].id by {
        assert(state::is_row(next[i], rest[i] as u64, s.rows[rest[i] as u64]));
        assert(state::is_row(whole[limit + i], l[limit + i] as u64, s.rows[l[limit + i] as u64]));
    }
}

/// A document is found by its key, with all that is kept of it.
pub proof fn a_document_is_shown_as_it_is_kept(s: StateView, key: Seq<char>, r: Option<DocEntry>)
    requires
        document::is_entry_of(s, key, r),
        document::has_entry(s, key),
    ensures
        r is Some <==> s.doc_keys.contains_key(key),
        r matches Some(e) ==> {
            let d = s.docs[s.doc_keys[key]];
            &&& e.doc_id.0 == d.doc_id
            &&& e.doc_key@ == d.doc_key
            &&& e.version == d.meta.version
            &&& e.source == d.meta.source
            &&& e.chunk_spec == d.meta.chunk_spec
            &&& e.chunker_version == d.meta.chunker_version
            &&& e.embedding_model == d.meta.embedding_model
            &&& e.chunk_count == d.chunk_count
            &&& e.created_txn.0 == d.created_txn
            &&& e.updated_txn.0 == d.updated_txn
            &&& e.doc_payload@ == d.doc_payload
            &&& bitmap::rows_of(e.rows) == d.rows
        },
{
}

proof fn lemma_recorded_is(s: StateView, rows: Seq<u32>, n: nat)
    requires
        n <= rows.len(),
    ensures
        document::recorded(s, rows, n) == rows.take(n as int).filter(|row: u32| s.rows.contains_key(row as u64)),
    decreases n,
{
    reveal(Seq::filter);
    if n > 0 {
        lemma_recorded_is(s, rows, (n - 1) as nat);
        assert(rows.take(n as int).drop_last() =~= rows.take(n - 1));
    } else {
        assert(rows.take(0) =~= Seq::<u32>::empty());
        assert(document::recorded(s, rows, n) =~= rows.take(0).filter(|row: u32| s.rows.contains_key(row as u64)));
    }
}

/// The rows of a document, as its operations walk them: those it lists that
/// were written, ascending.
pub proof fn a_documents_rows_are_those_it_lists(s: StateView, doc_id: u64)
    ensures
        forall|row: u32| #[trigger] document::rows_of_document(s, doc_id).contains(row) <==> s.docs[doc_id].rows.contains(row) && s.rows.contains_key(row as u64),
        forall|i: int, j: int| 0 <= i < j < document::rows_of_document(s, doc_id).len() ==> document::rows_of_document(s, doc_id)[i]
            < document::rows_of_document(s, doc_id)[j],
{
    let l = bitmap::listing(s.docs[doc_id].rows);
    let keep = |row: u32| s.rows.contains_key(row as u64);
    bitmap::listing_exists(s.docs[doc_id].rows);
    lemma_recorded_is(s, l, l.len());
    assert(l.take(l.len() as int) =~= l);
    let out = document::rows_of_document(s, doc_id);
    assert(out == l.filter(keep));
    assert forall|row: u32| #[trigger] out.contains(row) <==> s.docs[doc_id].rows.contains(row) && s.rows.contains_key(row as u64) by {
        l.filter_lemma(keep);
        lemma_filtered_from(l, keep);
        if out.contains(row) {
            let i = choose|i: int| 0 <= i < out.len() && out[i] == row;
            assert(keep(out[i]));
            assert(l.contains(out[i]));
        }
        if s.docs[doc_id].rows.contains(row) && s.rows.contains_key(row as u64) {
            assert(l.contains(row));
            let i = choose|i: int| 0 <= i < l.len() && l[i] == row;
            assert(keep(l[i]));
            assert(l.filter(keep).contains(l[i]));
        }
    }
    lemma_filter_ascends(l, keep);
}

proof fn lemma_filtered_from(l: Seq<u32>, keep: spec_fn(u32) -> bool)
    ensures
        forall|i: int| 0 <= i < l.filter(keep).len() ==> l.contains(#[trigger] l.filter(keep)[i]),
    decreases l.len(),
{
    reveal(Seq::filter);
    if l.len() > 0 {
        let m = l.drop_last();
        lemma_filtered_from(m, keep);
        assert forall|i: int| 0 <= i < l.filter(keep).len() implies l.contains(#[trigger] l.filter(keep)[i]) by {
            if i < m.filter(keep).len() {
                assert(m.contains(m.filter(keep)[i]));
                let k = choose|k: int| 0 <= k < m.len() && m[k] == m.filter(keep)[i];
                assert(l[k] == l.filter(keep)[i]);
            } else {
                assert(l[l.len() - 1] == l.filter(keep)[i]);
            }
        }
    }
}

proof fn lemma_filter_ascends(l: Seq<u32>, keep: spec_fn(u32) -> bool)
    requires
        forall|i: int, j: int| 0 <= i < j < l.len() ==> l[i] < l[j],
    ensures
        forall|i: int, j: int| 0 <= i < j < l.filter(keep).len() ==> l.filter(keep)[i] < l.filter(keep)[j],
    decreases l.len(),
{
    reveal(Seq::filter);
    if l.len() > 0 {
        let m = l.drop_last();
        lemma_filter_ascends(m, keep);
        lemma_filtered_from(m, keep);
        if keep(l.last()) {
            assert forall|i: int| 0 <= i < m.filter(keep).len() implies m.filter(keep)[i] < l.last() by {
                assert(m.contains(m.filter(keep)[i]));
                let k = choose|k: int| 0 <= k < m.len() && m[k] == m.filter(keep)[i];
                assert(l[k] < l[l.len() - 1]);
            }
        }
    }
}

/// Where a chunk goes: by its place; without one it comes last.
pub open spec fn place(r: Row) -> u32 {
    match r.chunk_ord {
        Some(o) => o,
        None => 0xFFFF_FFFF,
    }
}

/// A document's chunks are the rows that it lists, each once and as it is
/// stored, in the order of their places and, where two have the same, of their
/// ids.
pub proof fn a_documents_chunks_come_in_order(s: StateView, doc_id: u64, out: Seq<Row>)
    requires
        document::chunks_in_order(s, document::rows_of_document(s, doc_id), out),
    ensures
        forall|k: int| 0 <= k < out.len() ==> (#[trigger] out[k]).id.0 <= u32::MAX && s.docs[doc_id].rows.contains(out[k].id.0 as u32)
            && s.rows.contains_key(out[k].id.0) && state::is_row(out[k], out[k].id.0, s.rows[out[k].id.0]),
        forall|row: u32| #[trigger] s.docs[doc_id].rows.contains(row) && s.rows.contains_key(row as u64) ==> exists|k: int| 0 <= k < out.len()
            && (#[trigger] out[k]).id.0 == row,
        forall|i: int, j: int| 0 <= i < j < out.len() ==> place(#[trigger] out[i]) < place(#[trigger] out[j]) || (place(out[i]) == place(out[j]) && out[i].id.0
            < out[j].id.0),
{
    let rows = document::rows_of_document(s, doc_id);
    a_documents_rows_are_those_it_lists(s, doc_id);
    let keys = document::place_keys(s, rows);
    let p = choose|p: Seq<usize>| #[trigger] order::stable_order_of(keys, p) && out.len() == p.len()
        && forall|k: int| 0 <= k < out.len() ==> state::is_row(#[trigger] out[k], rows[p[k] as int] as u64, s.rows[rows[p[k] as int] as u64]);
    assert forall|k: int| 0 <= k < out.len() implies (#[trigger] out[k]).id.0 <= u32::MAX && s.docs[doc_id].rows.contains(out[k].id.0 as u32)
        && s.rows.contains_key(out[k].id.0) && state::is_row(out[k], out[k].id.0, s.rows[out[k].id.0]) by {
        assert(p[k] < rows.len());
        assert(rows.contains(rows[p[k] as int]));
    }
    assert forall|row: u32| #[trigger] s.docs[doc_id].rows.contains(row) && s.rows.contains_key(row as u64) implies exists|k: int| 0 <= k < out.len()
        && (#[trigger] out[k]).id.0 == row by {
        assert(rows.contains(row));
        let i = choose|i: int| 0 <= i < rows.len() && rows[i] == row;
        order_fits(p, rows.len(), keys);
        assert(p.contains(i as usize));
        let k = choose|k: int| 0 <= k < p.len() && p[k] == i as usize;
        assert(out[k].id.0 == row);
    }
    assert forall|i: int, j: int| 0 <= i < j < out.len() implies place(#[trigger] out[i]) < place(#[trigger] out[j]) || (place(out[i]) == place(out[j])
        && out[i].id.0 < out[j].id.0) by {
        assert(order::comes_first(keys, p[i], p[j]));
        assert(state::is_row(out[i], rows[p[i] as int] as u64, s.rows[rows[p[i] as int] as u64]));
        assert(state::is_row(out[j], rows[p[j] as int] as u64, s.rows[rows[p[j] as int] as u64]));
        if p[i] < p[j] {
            assert(rows[p[i] as int] < rows[p[j] as int]);
        }
    }
}

proof fn order_fits(p: Seq<usize>, n: nat, keys: Seq<i128>)
    requires
        order::stable_order_of(keys, p),
        n == keys.len(),
    ensures
        n <= usize::MAX + 1,
{
    if n > usize::MAX + 1 {
        assert(p.len() == n);
        let q = p.map_values(|x: usize| x as int);
        assert(q.no_duplicates()) by {
            assert forall|i: int, j: int| 0 <= i < q.len() && 0 <= j < q.len() && i != j implies q[i] != q[j] by {
                if i < j {
                    assert(order::comes_first(keys, p[i], p[j]));
                } else {
                    assert(order::comes_first(keys, p[j], p[i]));
                }
            }
        }
        q.unique_seq_to_set();
        let all = vstd::set_lib::set_int_range(0, usize::MAX + 1);
        vstd::set_lib::lemma_int_range(0, usize::MAX + 1);
        assert(q.to_set().subset_of(all)) by {
            assert forall|x: int| q.to_set().contains(x) implies all.contains(x) by {
                let i = choose|i: int| 0 <= i < q.len() && q[i] == x;
                assert(q[i] == p[i] as int);
            }
        }
        vstd::set_lib::lemma_len_subset(q.to_set(), all);
    }
}

/// How many rows a collection says it has is how many are live.
pub proof fn the_active_rows_are_counted(s: StateView, n: u64)
    requires
        bitmap::is_count(n, s.live),
    ensures
        n == s.live.len(),
        n == 0 <==> forall|row: u32| !#[trigger] s.live.contains(row),
{
    if n == 0 {
        assert forall|row: u32| !#[trigger] s.live.contains(row) by {
            if s.live.contains(row) {
                assert(s.live.remove(row).len() + 1 == s.live.len());
            }
        }
    } else if forall|row: u32| !#[trigger] s.live.contains(row) {
        assert(s.live =~= Set::<u32>::empty());
    }
}

/// A new collection is empty: no rows, no documents, no transactions, and its
/// ids start at nought.
pub proof fn a_new_collection_is_empty(name: Seq<char>, dim: usize, metric: DistanceMetric, schema: payload::SchemaView, strict: bool)
    ensures
        ({
            let c = collection::fresh_collection(name, dim, metric, schema, strict);
            let s = c.state;
            &&& c.name == name
            &&& c.dim == dim
            &&& c.metric == metric
            &&& c.wal is None
            &&& c.outbox.len() == 0
            &&& s.applied == 0 && s.next_row == 0 && s.next_doc == 0
            &&& forall|id: u64| !#[trigger] s.rows.contains_key(id)
            &&& forall|row: u32| !#[trigger] s.live.contains(row)
            &&& forall|k: Seq<char>| !#[trigger] s.keys.contains_key(k)
            &&& forall|d: u64| !#[trigger] s.docs.contains_key(d)
            &&& forall|k: Seq<char>| !#[trigger] s.doc_keys.contains_key(k)
            &&& s.txns.order.len() == 0
            &&& forall|t: u128| !#[trigger] s.txns.entries.contains_key(t)
            &&& s.payload.schema == schema
            &&& s.payload.strict == strict
        }),
{
}

/// A snapshot can be restored under a schema exactly when its row ids fit and
/// the fields of every row that is live in it are accepted.
pub proof fn a_snapshot_fits_where_its_live_rows_do(store: payload::StoreView, rows: Seq<SnapshotRowView>)
    ensures
        snapshot::rows_fit(store, rows) <==> forall|i: int| 0 <= i < rows.len() ==> (#[trigger] rows[i]).row_id <= 0xFFFF_FFFF && (rows[i].live ==> payload::row_refusal(
            store,
            rows[i].row.fields,
        ) is None),
{
    if forall|i: int| 0 <= i < rows.len() ==> (#[trigger] rows[i]).row_id <= 0xFFFF_FFFF && (rows[i].live ==> payload::row_refusal(store, rows[i].row.fields) is None) {
        assert forall|i: int| 0 <= i < rows.len() implies snapshot::row_fits(store, #[trigger] rows[i]) by {}
    }
    if snapshot::rows_fit(store, rows) {
        assert forall|i: int| 0 <= i < rows.len() implies (#[trigger] rows[i]).row_id <= 0xFFFF_FFFF && (rows[i].live ==> payload::row_refusal(
            store,
            rows[i].row.fields,
        ) is None) by {
            assert(snapshot::row_fits(store, rows[i]));
        }
    }
}

/// A collection is opened from its snapshot where there is one, and empty
/// otherwise; whether it is strict from then on concerns the schema alone.
pub proof fn a_collection_opens_from_its_snapshot(schema: payload::SchemaView, strict: bool, snap: Option<snapshot::SnapshotView>, s: StateView)
    ensures
        snap is None ==> snapshot::opened_state(schema, strict, snap) == state::fresh_state(schema, strict),
        snap matches Some(v) ==> snapshot::opened_state(schema, strict, snap) == snapshot::restored(state::fresh_state(schema, strict), v),
        ({
            let t = snapshot::with_strictness(s, strict);
            &&& t.payload.strict == strict
            &&& t.payload.schema == s.payload.schema
            &&& t.payload.columns == s.payload.columns
            &&& t.rows == s.rows && t.live == s.live && t.keys == s.keys && t.docs == s.docs && t.doc_keys == s.doc_keys
            &&& t.next_row == s.next_row && t.next_doc == s.next_doc && t.applied == s.applied && t.txns == s.txns
        }),
{
}

} // verus!
