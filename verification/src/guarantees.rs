//! What writers and readers of a collection can rely on: what is written
//! reads back, what is deleted is gone, and nothing else changes.

use crate::bitmap;
use crate::collection;
use crate::collection::{CollectionView, PutView};
use crate::consistency;
use crate::doc_guarantees;
use crate::encoding;
use crate::error::StorageErrorView;
use crate::model::{RequestCtx, Timestamp};
use crate::recovery;
use crate::state::{RowView, StateView};
use crate::wal::RecordView;
use crate::wal;
use vstd::prelude::*;

verus! {

/// Whether no later item, before item `n`, has the same key as item `i`.
pub open spec fn last_of_key(items: Seq<PutView>, i: int, n: int) -> bool {
    forall|j: int| i < j < n ==> (#[trigger] items[j]).key != items[i].key
}

/// Whether none of the first `n` items has this key.
pub open spec fn not_among(items: Seq<PutView>, n: int, key: Seq<char>) -> bool {
    forall|j: int| 0 <= j < n ==> (#[trigger] items[j]).key != key
}

/// A batch that can be written to a collection.
pub open spec fn can_put(c: CollectionView, items: Seq<PutView>) -> bool {
    &&& collection::sound(c.state)
    &&& consistency::linked(c.state)
    &&& collection::put_refusal(c, items) is None
    &&& collection::all_encode(items)
    &&& c.state.next_row + collection::fresh_before(c.state, items, items.len()) <= collection::row_capacity()
}

/// What holds after the first `n` items have been written.
spec fn put_so_far(s: StateView, items: Seq<PutView>, n: nat, t: StateView) -> bool {
    &&& collection::sound(t)
    &&& consistency::linked(t)
    &&& consistency::indexed(s) ==> consistency::indexed(t)
    &&& consistency::rows_keyed(s) ==> consistency::rows_keyed(t)
    &&& t.next_row == s.next_row + collection::fresh_before(s, items, n)
    &&& t.doc_keys == s.doc_keys
    &&& t.live == s.live.union(doc_guarantees::row_run(s.next_row, collection::fresh_before(s, items, n)))
    &&& forall|id: u64| #[trigger] t.rows.contains_key(id) ==> id < s.next_row + collection::fresh_before(s, items, n)
    &&& forall|id: u64| #[trigger] s.rows.contains_key(id) ==> t.rows.contains_key(id) && t.rows[id].key == s.rows[id].key && t.rows[id].doc_id == s.rows[id].doc_id
    &&& forall|k: Seq<char>| #[trigger] not_among(items, n as int, k) ==> collection::row_of_key(t, k) == collection::row_of_key(s, k)
    &&& forall|j: int| 0 <= j < n && #[trigger] last_of_key(items, j, n as int) ==> collection::row_of_key(t, items[j].key) == Some((collection::put_row_id(s, items, j), collection::put_row(s, items, j)))
    &&& forall|j: int| 0 <= j < n ==> t.rows.contains_key(#[trigger] collection::put_row_id(s, items, j)) && t.rows[collection::put_row_id(s, items, j)].key == items[j].key
        && t.rows[collection::put_row_id(s, items, j)].doc_id == collection::put_row(s, items, j).doc_id
    &&& forall|x: u32| #[trigger] t.live.contains(x) <==> s.live.contains(x) || exists|j: int| 0 <= j < n && #[trigger] collection::put_row_id(s, items, j) == x
    &&& forall|id: u64| #[trigger] s.rows.contains_key(id) && (forall|j: int| 0 <= j < n ==> #[trigger] collection::put_row_id(s, items, j) != id) ==> t.rows[id] == s.rows[id]
}

proof fn lemma_item_clean(c: CollectionView, ctx: RequestCtx, txn: u128, stamps: Seq<Timestamp>, items: Seq<PutView>, i: int)
    requires
        can_put(c, items),
        0 <= i < items.len(),
    ensures
        recovery::clean(c.state.payload, collection::put_records(c, ctx, txn, stamps, items)[i]),
        recovery::ids_fit(collection::put_records(c, ctx, txn, stamps, items)[i]),
{
    collection::lemma_put_records_clean(c, ctx, txn, stamps, items);
    collection::lemma_put_ids_fit(c, ctx, txn, stamps, items);
    let records = collection::put_records(c, ctx, txn, stamps, items);
    assert(recovery::clean(c.state.payload, records[i]));
    assert(recovery::ids_fit(records[i]));
}

proof fn lemma_put_prefix(c: CollectionView, ctx: RequestCtx, txn: u128, stamps: Seq<Timestamp>, items: Seq<PutView>, n: nat)
    requires
        can_put(c, items),
        n <= items.len(),
    ensures
        recovery::applied_records(c.state, collection::put_records(c, ctx, txn, stamps, items), n).1 is None,
        put_so_far(c.state, items, n, recovery::applied_records(c.state, collection::put_records(c, ctx, txn, stamps, items), n).0),
    decreases n,
{
    let s = c.state;
    let records = collection::put_records(c, ctx, txn, stamps, items);
    if n == 0 {
        assert forall|x: u32| #[trigger] s.live.contains(x) <==> s.live.contains(x) || exists|j: int| 0 <= j < 0 && #[trigger] collection::put_row_id(s, items, j) == x by {
        }
        assert(s.live =~= s.live.union(doc_guarantees::row_run(s.next_row, 0)));
    } else {
        let m = (n - 1) as nat;
        lemma_put_prefix(c, ctx, txn, stamps, items, m);
        let t = recovery::applied_records(s, records, m).0;
        let r = records[m as int];
        let id = collection::put_row_id(s, items, m as int);
        let key = items[m as int].key;
        lemma_item_clean(c, ctx, txn, stamps, items, m as int);
        assert forall|i: int| 0 <= i < records.len() implies recovery::clean(s.payload, #[trigger] records[i]) by {
            lemma_item_clean(c, ctx, txn, stamps, items, i);
        }
        recovery::lemma_clean_prefix(s, records, n);
        collection::lemma_fresh_at_most(s, items, m, items.len());
        collection::lemma_fresh_at_most(s, items, n, items.len());
        collection::lemma_earlier(items, key, m);
        collection::lemma_put_row_id(s, items, m as int);
        let before = collection::earlier(items, key, m);
        if before is Some {
            let j = before->0;
            assert(t.rows.contains_key(collection::put_row_id(s, items, j)));
            assert(last_of_key(items, j, m as int));
            assert(collection::row_of_key(t, items[j].key) == Some((id, collection::put_row(s, items, j))));
        } else {
            assert(not_among(items, m as int, key));
            assert(collection::row_of_key(t, key) == collection::row_of_key(s, key));
            if s.keys.contains_key(key) {
                assert(s.rows.contains_key(id));
                assert(t.rows.contains_key(id));
                assert(t.rows[id].key == key);
            } else {
                assert(id == t.next_row);
                assert(!t.rows.contains_key(id));
                if t.keys.contains_key(key) {
                    assert(t.rows.contains_key(t.keys[key]));
                }
            }
        }
        assert(t.keys.contains_key(key) ==> t.keys[key] == id);
        assert(consistency::suits(t, r));
        let u = recovery::applied_one(t, r).0;
        assert(encoding::encodes(items[m as int].vector));
        assert(u.rows == t.rows.insert(id, collection::put_row(s, items, m as int)));
        assert(u.keys == t.keys.insert(key, id));
        assert(u.live == t.live.insert(id as u32));
        let v = recovery::applied_records(s, records, n).0;
        consistency::one_record_keeps_in_step(t, r);
        collection::applying_one_keeps_sound(t, r);
        consistency::position_is_beside_the_point(u, v);
        assert forall|k: Seq<char>| #[trigger] not_among(items, n as int, k) implies collection::row_of_key(v, k) == collection::row_of_key(s, k) by {
            assert(items[m as int].key != k);
            assert(not_among(items, m as int, k)) by {
                assert forall|j: int| 0 <= j < m implies (#[trigger] items[j]).key != k by {}
            }
            lemma_other_key(t, v, key, id, collection::put_row(s, items, m as int), k);
        }
        assert forall|j: int| 0 <= j < n && #[trigger] last_of_key(items, j, n as int) implies
            collection::row_of_key(v, items[j].key) == Some((collection::put_row_id(s, items, j), collection::put_row(s, items, j))) by {
            if j < m {
                assert(items[m as int].key != items[j].key);
                assert(last_of_key(items, j, m as int)) by {
                    assert forall|l: int| j < l < m implies (#[trigger] items[l]).key != items[j].key by {}
                }
                lemma_other_key(t, v, key, id, collection::put_row(s, items, m as int), items[j].key);
            }
        }
        assert forall|j: int| 0 <= j < n implies v.rows.contains_key(#[trigger] collection::put_row_id(s, items, j))
            && v.rows[collection::put_row_id(s, items, j)].key == items[j].key
            && v.rows[collection::put_row_id(s, items, j)].doc_id == collection::put_row(s, items, j).doc_id by {
            if j < m {
                assert(t.rows.contains_key(collection::put_row_id(s, items, j)));
            }
            if j < m && collection::put_row_id(s, items, j) == id {
                assert(t.rows[id].key == items[j].key);
                assert(items[j].key == key);
            }
        }
        let run = doc_guarantees::row_run(s.next_row, collection::fresh_before(s, items, n));
        assert(v.live =~= s.live.union(run)) by {
            assert forall|x: u32| v.live.contains(x) == s.live.union(run).contains(x) by {
                if s.keys.contains_key(key) {
                    assert(s.live.contains(s.keys[key] as u32));
                }
            }
        }
        if consistency::rows_keyed(s) {
            assert forall|x: u32| #[trigger] v.live.contains(x) implies v.keys.contains_key(v.rows[x as u64].key) && v.keys[v.rows[x as u64].key] == x by {
                if x != id {
                    assert(t.live.contains(x));
                }
            }
        }
        assert forall|x: u64| #[trigger] s.rows.contains_key(x) && (forall|j: int| 0 <= j < n ==> #[trigger] collection::put_row_id(s, items, j) != x) implies v.rows[x] == s.rows[x] by {
            assert(collection::put_row_id(s, items, m as int) != x);
        }
        assert forall|x: u32| #[trigger] v.live.contains(x) <==> s.live.contains(x) || exists|j: int| 0 <= j < n && #[trigger] collection::put_row_id(s, items, j) == x by {
            if t.live.contains(x) && !s.live.contains(x) {
                let j = choose|j: int| 0 <= j < m && #[trigger] collection::put_row_id(s, items, j) == x;
                assert(collection::put_row_id(s, items, j) == x);
            }
            if exists|j: int| 0 <= j < n && #[trigger] collection::put_row_id(s, items, j) == x {
                let j = choose|j: int| 0 <= j < n && #[trigger] collection::put_row_id(s, items, j) == x;
                if j < m {
                    assert(collection::put_row_id(s, items, j) == x);
                    assert(t.live.contains(x));
                }
            }
            if x == id as u32 {
                assert(collection::put_row_id(s, items, m as int) == x);
            }
        }
    }
}

/// Writing a row under one key leaves the row of another key alone.
proof fn lemma_other_key(t: StateView, v: StateView, key: Seq<char>, id: u64, row: RowView, k: Seq<char>)
    requires
        consistency::linked(t),
        t.rows.contains_key(id) ==> t.rows[id].key == key,
        v.keys == t.keys.insert(key, id),
        v.rows == t.rows.insert(id, row),
        k != key,
    ensures
        collection::row_of_key(v, k) == collection::row_of_key(t, k),
{
    if t.keys.contains_key(k) {
        assert(t.rows[t.keys[k]].key == k);
        assert(t.keys[k] != id);
    }
}

proof fn lemma_put_whole(c: CollectionView, ctx: RequestCtx, txn: u128, stamps: Seq<Timestamp>, items: Seq<PutView>)
    requires
        can_put(c, items),
        items.len() > 0,
    ensures
        ({
            let records = collection::put_records(c, ctx, txn, stamps, items);
            let t = recovery::applied_records(c.state, records, items.len()).0;
            let u = recovery::applied_from(c.state, records, 0).0;
            &&& put_so_far(c.state, items, items.len(), t)
            &&& u == recovery::with_txn(recovery::without_emptied(t, recovery::touched_docs(records)), records)
            &&& consistency::linked(u)
            &&& consistency::indexed(c.state) ==> consistency::indexed(u)
            &&& consistency::rows_keyed(c.state) ==> consistency::rows_keyed(u)
            &&& collection::sound(u)
        }),
{
    let records = collection::put_records(c, ctx, txn, stamps, items);
    lemma_put_prefix(c, ctx, txn, stamps, items, items.len());
    recovery::one_transaction_is_one_unit(c.state, records);
    let t = recovery::applied_records(c.state, records, items.len()).0;
    consistency::ending_keeps_in_step(t, records);
    collection::lemma_put_ids_fit(c, ctx, txn, stamps, items);
    collection::applying_keeps_sound(c.state, records, 0);
}

/// What is put reads back: after a batch, the key of each item has the row
/// that the last item with this key gives, under the id that the call
/// returned for it, and the row is live.
pub proof fn a_put_reads_back(c: CollectionView, after: CollectionView, ctx: RequestCtx, items: Seq<PutView>, i: int)
    requires
        can_put(c, items),
        collection::put_took_place(c, after, ctx, items),
        0 <= i < items.len(),
        last_of_key(items, i, items.len() as int),
    ensures
        collection::row_of_key(after.state, items[i].key) == Some((collection::put_row_id(c.state, items, i), collection::put_row(c.state, items, i))),
        after.state.live.contains(collection::put_row_id(c.state, items, i) as u32),
{
    let (txn, stamps) = choose|txn: u128, stamps: Seq<Timestamp>|
        stamps.len() >= items.len() && #[trigger] collection::put_records(c, ctx, txn, stamps, items).len() == items.len()
            && after == collection::written(c, txn, collection::put_records(c, ctx, txn, stamps, items));
    lemma_put_whole(c, ctx, txn, stamps, items);
    let id = collection::put_row_id(c.state, items, i);
    collection::lemma_put_ids_fit(c, ctx, txn, stamps, items);
    let records = collection::put_records(c, ctx, txn, stamps, items);
    assert(recovery::ids_fit(records[i]));
    assert(id == id as u32);
}

/// A put leaves every other key alone: it has the row that it had, or none.
pub proof fn a_put_leaves_other_keys_alone(c: CollectionView, after: CollectionView, ctx: RequestCtx, items: Seq<PutView>, key: Seq<char>)
    requires
        can_put(c, items),
        collection::put_took_place(c, after, ctx, items),
        items.len() > 0,
        not_among(items, items.len() as int, key),
    ensures
        collection::row_of_key(after.state, key) == collection::row_of_key(c.state, key),
{
    let (txn, stamps) = choose|txn: u128, stamps: Seq<Timestamp>|
        stamps.len() >= items.len() && #[trigger] collection::put_records(c, ctx, txn, stamps, items).len() == items.len()
            && after == collection::written(c, txn, collection::put_records(c, ctx, txn, stamps, items));
    lemma_put_whole(c, ctx, txn, stamps, items);
}

/// A put keeps the state sound, what leads to each other does so still, and
/// the columns are right if they were. The rows of the new keys join the live
/// ones, as many as there are new keys, and nothing leaves.
pub proof fn a_put_keeps_in_step(c: CollectionView, after: CollectionView, ctx: RequestCtx, items: Seq<PutView>)
    requires
        can_put(c, items),
        collection::put_took_place(c, after, ctx, items),
        items.len() > 0,
    ensures
        collection::sound(after.state),
        consistency::linked(after.state),
        consistency::indexed(c.state) ==> consistency::indexed(after.state),
        consistency::rows_keyed(c.state) ==> consistency::rows_keyed(after.state),
        consistency::docs_keyed(c.state) ==> consistency::docs_keyed(after.state),
        after.state.live == c.state.live.union(doc_guarantees::row_run(c.state.next_row, collection::fresh_before(c.state, items, items.len()))),
        after.state.live.len() == c.state.live.len() + collection::fresh_before(c.state, items, items.len()),
        after.state.next_row == c.state.next_row + collection::fresh_before(c.state, items, items.len()),
{
    let (txn, stamps) = choose|txn: u128, stamps: Seq<Timestamp>|
        stamps.len() >= items.len() && #[trigger] collection::put_records(c, ctx, txn, stamps, items).len() == items.len()
            && after == collection::written(c, txn, collection::put_records(c, ctx, txn, stamps, items));
    lemma_put_whole(c, ctx, txn, stamps, items);
    if consistency::docs_keyed(c.state) {
        let records = collection::put_records(c, ctx, txn, stamps, items);
        recovery::one_transaction_is_one_unit(c.state, records);
        collection::lemma_put_records_clean(c, ctx, txn, stamps, items);
        recovery::clean_transaction_applies(c.state, records);
        consistency::transactions_keep_docs_keyed(c.state, records);
    }
    let fresh = collection::fresh_before(c.state, items, items.len());
    let run = doc_guarantees::row_run(c.state.next_row, fresh);
    doc_guarantees::lemma_run_len(c.state.next_row, fresh);
    bitmap::lemma_listing_len(c.state.live);
    assert(c.state.live.disjoint(run)) by {
        assert forall|x: u32| c.state.live.contains(x) implies !run.contains(x) by {
            assert(c.state.rows.contains_key(x as u64));
        }
    }
    vstd::set_lib::lemma_set_disjoint_lens(c.state.live, run);
}

proof fn lemma_put_events(c: CollectionView, ctx: RequestCtx, txn: u128, stamps: Seq<Timestamp>, items: Seq<PutView>, n: nat)
    requires
        collection::all_encode(items),
        n <= items.len(),
    ensures
        recovery::events_of(collection::put_records(c, ctx, txn, stamps, items), n).len() == n,
    decreases n,
{
    if n > 0 {
        lemma_put_events(c, ctx, txn, stamps, items, (n - 1) as nat);
        let r = collection::put_records(c, ctx, txn, stamps, items)[n - 1];
        assert(encoding::encodes(items[n - 1].vector));
        assert(wal::image_vector(r.payload->0) == Ok::<Option<Seq<u32>>, encoding::WalErrorView>(Some(items[n - 1].vector)));
        assert(recovery::event_of(r) is Some);
    }
}

/// Subscribers are told of a put once: one more batch waits for them, with a
/// change for each item, after those that waited before.
pub proof fn a_put_is_announced_once(c: CollectionView, after: CollectionView, ctx: RequestCtx, items: Seq<PutView>)
    requires
        collection::all_encode(items),
        collection::put_took_place(c, after, ctx, items),
    ensures
        after.outbox.len() == c.outbox.len() + 1,
        after.outbox.drop_last() == c.outbox,
        after.outbox.last().coll == c.name,
        after.outbox.last().events.len() == items.len(),
{
    let (txn, stamps) = choose|txn: u128, stamps: Seq<Timestamp>|
        stamps.len() >= items.len() && #[trigger] collection::put_records(c, ctx, txn, stamps, items).len() == items.len()
            && after == collection::written(c, txn, collection::put_records(c, ctx, txn, stamps, items));
    lemma_put_events(c, ctx, txn, stamps, items, items.len());
    assert(after.outbox.drop_last() =~= c.outbox);
}

/// After a batch every item's row has the item's key, and rows that no item
/// went to are as they were.
pub proof fn a_put_writes_just_its_rows(c: CollectionView, ctx: RequestCtx, txn: u128, stamps: Seq<Timestamp>, items: Seq<PutView>)
    requires
        can_put(c, items),
        items.len() > 0,
    ensures
        ({
            let s = c.state;
            let u = recovery::applied_from(s, collection::put_records(c, ctx, txn, stamps, items), 0).0;
            &&& forall|j: int| 0 <= j < items.len() ==> u.rows.contains_key(#[trigger] collection::put_row_id(s, items, j)) && u.rows[collection::put_row_id(s, items, j)].key == items[j].key
            &&& forall|x: u32| #[trigger] u.live.contains(x) <==> s.live.contains(x) || exists|j: int| 0 <= j < items.len() && #[trigger] collection::put_row_id(s, items, j) == x
            &&& forall|id: u64| #[trigger] s.rows.contains_key(id) && (forall|j: int| 0 <= j < items.len() ==> #[trigger] collection::put_row_id(s, items, j) != id) ==> u.rows[id] == s.rows[id]
            &&& forall|k: Seq<char>| #[trigger] not_among(items, items.len() as int, k) ==> collection::row_of_key(u, k) == collection::row_of_key(s, k)
            &&& collection::sound(u)
            &&& consistency::linked(u)
            &&& consistency::indexed(s) ==> consistency::indexed(u)
        }),
{
    lemma_put_whole(c, ctx, txn, stamps, items);
}

/// A row keeps its id when it is written again under its key, and a key
/// without a row gets an id that no row has ever had. Within a batch a key
/// has one id, two keys have two, and new ids are consecutive.
pub proof fn row_ids_stay_with_their_keys(c: CollectionView, items: Seq<PutView>, i: int)
    requires
        can_put(c, items),
        0 <= i < items.len(),
    ensures
        match collection::row_of_key(c.state, items[i].key) {
            Some((id, row)) => collection::put_row_id(c.state, items, i) == id,
            None => collection::put_row_id(c.state, items, i) >= c.state.next_row && !c.state.rows.contains_key(collection::put_row_id(c.state, items, i)),
        },
        collection::is_fresh(c.state, items, i) ==> collection::put_row_id(c.state, items, i) == c.state.next_row + collection::fresh_before(c.state, items, i as nat),
        forall|j: int| 0 <= j < items.len() ==> (#[trigger] collection::put_row_id(c.state, items, j) == collection::put_row_id(c.state, items, i)
            <==> items[j].key == items[i].key),
{
    assert forall|j: int| 0 <= j < items.len() implies (#[trigger] collection::put_row_id(c.state, items, j) == collection::put_row_id(c.state, items, i)
        <==> items[j].key == items[i].key) by {
        if i <= j {
            collection::lemma_put_rows_apart(c.state, items, i, j);
        } else {
            collection::lemma_put_rows_apart(c.state, items, j, i);
        }
    }
    collection::lemma_fresh_at_most(c.state, items, (i + 1) as nat, items.len());
    collection::lemma_put_row_id(c.state, items, i);
    if c.state.keys.contains_key(items[i].key) {
        assert(c.state.rows.contains_key(c.state.keys[items[i].key]));
    }
}

/// A batch of items with distinct keys does all that a put promises, in one:
/// each key has the row that its item gives, live, under the id that the key
/// had or else a new one; new ids are consecutive in item order and above all
/// that were given out; other keys are as they were; as many rows join the
/// live ones as there are new keys; and subscribers are told once, of every
/// item.
pub proof fn a_batch_does_all_that_a_put_promises(c: CollectionView, after: CollectionView, ctx: RequestCtx, items: Seq<PutView>)
    requires
        can_put(c, items),
        collection::put_took_place(c, after, ctx, items),
        items.len() > 0,
        forall|i: int, j: int| 0 <= i < j < items.len() ==> (#[trigger] items[i]).key != (#[trigger] items[j]).key,
    ensures
        ({
            let s = c.state;
            let ids = collection::put_row_ids(s, items);
            &&& ids.len() == items.len()
            &&& forall|i: int| 0 <= i < items.len() ==> {
                &&& collection::row_of_key(after.state, (#[trigger] items[i]).key) == Some((ids[i], collection::put_row(s, items, i)))
                &&& after.state.live.contains(ids[i] as u32)
                &&& match collection::row_of_key(s, items[i].key) {
                    Some((id, _)) => ids[i] == id,
                    None => ids[i] == s.next_row + collection::fresh_before(s, items, i as nat) && !s.rows.contains_key(ids[i]),
                }
            }
            &&& forall|k: Seq<char>| #[trigger] not_among(items, items.len() as int, k) ==> collection::row_of_key(after.state, k) == collection::row_of_key(s, k)
            &&& after.state.live.len() == s.live.len() + collection::fresh_before(s, items, items.len())
            &&& after.outbox.len() == c.outbox.len() + 1
            &&& after.outbox.last().events.len() == items.len()
        }),
{
    let s = c.state;
    let ids = collection::put_row_ids(s, items);
    a_put_keeps_in_step(c, after, ctx, items);
    a_put_is_announced_once(c, after, ctx, items);
    assert forall|i: int| 0 <= i < items.len() implies {
        &&& collection::row_of_key(after.state, (#[trigger] items[i]).key) == Some((ids[i], collection::put_row(s, items, i)))
        &&& after.state.live.contains(ids[i] as u32)
        &&& match collection::row_of_key(s, items[i].key) {
            Some((id, _)) => ids[i] == id,
            None => ids[i] == s.next_row + collection::fresh_before(s, items, i as nat) && !s.rows.contains_key(ids[i]),
        }
    } by {
        a_put_reads_back(c, after, ctx, items, i);
        row_ids_stay_with_their_keys(c, items, i);
        collection::lemma_earlier(items, items[i].key, i as nat);
        if s.keys.contains_key(items[i].key) {
            assert(s.rows.contains_key(s.keys[items[i].key]));
        }
    }
    assert forall|k: Seq<char>| #[trigger] not_among(items, items.len() as int, k) implies collection::row_of_key(after.state, k) == collection::row_of_key(s, k) by {
        a_put_leaves_other_keys_alone(c, after, ctx, items, k);
    }
}

/// The id of a row that is gone is not given to another: as long as it is not
/// live again, no put goes to it.
pub proof fn a_dead_row_id_is_not_reused(c: CollectionView, items: Seq<PutView>, i: int, id: u64)
    requires
        can_put(c, items),
        0 <= i < items.len(),
        id < c.state.next_row,
        !c.state.live.contains(id as u32),
    ensures
        collection::put_row_id(c.state, items, i) != id,
{
    row_ids_stay_with_their_keys(c, items, i);
    if c.state.keys.contains_key(items[i].key) {
        assert(c.state.rows.contains_key(c.state.keys[items[i].key]));
    }
}

proof fn lemma_next_row_grows(s: StateView, group: Seq<RecordView>, n: nat)
    ensures
        recovery::applied_records(s, group, n).0.next_row >= s.next_row,
        recovery::applied_records(s, group, n).0.next_doc >= s.next_doc,
    decreases n,
{
    if n > 0 {
        lemma_next_row_grows(s, group, (n - 1) as nat);
    }
}

/// Row ids and document ids are never given out twice: whatever is applied,
/// the next ones only grow.
pub proof fn ids_are_never_given_out_twice(s: StateView, records: Seq<RecordView>, from: nat)
    ensures
        recovery::applied_from(s, records, from).0.next_row >= s.next_row,
        recovery::applied_from(s, records, from).0.next_doc >= s.next_doc,
    decreases records.len() - from,
{
    if from < records.len() {
        recovery::lemma_run_end(records, from + 1);
        let to = recovery::run_end(records, from + 1);
        let group = records.subrange(from as int, to as int);
        lemma_next_row_grows(s, group, group.len());
        let (t, e) = recovery::applied_group(s, group);
        if e is None {
            ids_are_never_given_out_twice(t, records, to);
        }
    }
}

/// After a delete the key has no row, the row is not live, every other key
/// has the row that it had, and the state is sound. Records stay, that of the
/// deleted row too, and the id is not given out again. A document that had the
/// row no longer lists it, and is gone if it was its only one; all other
/// documents stay.
pub proof fn a_delete_removes_just_the_row(c: CollectionView, after: CollectionView, ctx: RequestCtx, key: Seq<char>, other: Seq<char>)
    requires
        collection::sound(c.state),
        consistency::linked(c.state),
        c.state.keys.contains_key(key),
        collection::delete_took_place(c, after, ctx, key),
        other != key,
    ensures
        collection::row_of_key(after.state, key) is None,
        after.state.live == c.state.live.remove(c.state.keys[key] as u32),
        after.state.live.len() == c.state.live.len() - 1,
        after.state.rows == c.state.rows,
        after.state.next_row == c.state.next_row,
        c.state.keys[key] < after.state.next_row,
        collection::row_of_key(after.state, other) == collection::row_of_key(c.state, other),
        forall|d: u64| c.state.rows[c.state.keys[key]].doc_id != Some(d) ==> #[trigger] after.state.docs.contains_key(d) == c.state.docs.contains_key(d)
            && (c.state.docs.contains_key(d) ==> after.state.docs[d] == c.state.docs[d]),
        c.state.rows[c.state.keys[key]].doc_id matches Some(d) ==> c.state.docs.contains_key(d) ==> {
            let left = c.state.docs[d].rows.remove(c.state.keys[key] as u32);
            if left == Set::<u32>::empty() {
                !after.state.docs.contains_key(d) && !after.state.doc_keys.contains_key(c.state.docs[d].doc_key)
            } else {
                after.state.docs.contains_key(d) && after.state.docs[d] == recovery::doc_with_rows(c.state.docs[d], left)
            }
        },
        collection::sound(after.state),
        consistency::linked(after.state),
        consistency::indexed(c.state) ==> consistency::indexed(after.state),
        consistency::rows_keyed(c.state) ==> consistency::rows_keyed(after.state),
        consistency::docs_keyed(c.state) ==> consistency::docs_keyed(after.state),
{
    let s = c.state;
    let (txn, ts) = choose|txn: u128, ts: Timestamp| after == collection::written(c, txn, #[trigger] collection::delete_records(c, ctx, txn, ts, key));
    let records = collection::delete_records(c, ctx, txn, ts, key);
    let r = records[0];
    let id = s.keys[key];
    assert(s.rows.contains_key(id));
    assert(recovery::ids_fit(r)) by {
        assert(id < s.next_row);
    }
    recovery::one_transaction_is_one_unit(s, records);
    assert(recovery::applied_records(s, records, 0) == (s, None::<StorageErrorView>));
    let t = recovery::applied_one(s, r).0;
    let u = recovery::applied_records(s, records, 1).0;
    assert(consistency::suits(s, r));
    consistency::one_record_keeps_in_step(s, r);
    collection::applying_one_keeps_sound(s, r);
    consistency::position_is_beside_the_point(t, u);
    consistency::ending_keeps_in_step(u, records);
    assert(recovery::applied_records(s, records, records.len()) == recovery::applied_records(s, records, 1));
    assert(recovery::all_ids_fit(records));
    collection::applying_keeps_sound(s, records, 0);
    assert(s.rows[id].key == key);
    bitmap::lemma_listing_len(s.live);
    let touched = recovery::touched_docs(records);
    assert forall|d: u64| #[trigger] touched.contains(d) <==> s.rows[id].doc_id == Some(d) by {
        if touched.contains(d) {
            let i = choose|i: int| 0 <= i < records.len() && (#[trigger] records[i]).doc_id == Some(d);
        }
        if s.rows[id].doc_id == Some(d) {
            assert(records[0].doc_id == Some(d));
        }
    }
    assert forall|d: u64| s.rows[id].doc_id != Some(d) implies #[trigger] after.state.docs.contains_key(d) == s.docs.contains_key(d)
        && (s.docs.contains_key(d) ==> after.state.docs[d] == s.docs[d]) by {
        assert(!touched.contains(d));
        assert(!recovery::emptied(u, touched, d));
    }
    if s.rows[id].doc_id is Some && s.docs.contains_key(s.rows[id].doc_id->0) {
        let d = s.rows[id].doc_id->0;
        assert(touched.contains(d));
        let left = s.docs[d].rows.remove(id as u32);
        assert(u.docs[d] == recovery::doc_with_rows(s.docs[d], left));
        assert(recovery::emptied(u, touched, d) <==> left == Set::<u32>::empty());
    }
    if consistency::docs_keyed(s) {
        consistency::transactions_keep_docs_keyed(s, records);
    }
    if consistency::rows_keyed(s) {
        assert forall|x: u32| #[trigger] after.state.live.contains(x) implies after.state.keys.contains_key(after.state.rows[x as u64].key)
            && after.state.keys[after.state.rows[x as u64].key] == x by {
            assert(s.live.contains(x));
        }
    }
}

} // verus!
