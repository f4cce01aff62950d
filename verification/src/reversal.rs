//! What undoing a transaction brings back.

use crate::collection;
use crate::collection::{CollectionView, PutView};
use crate::consistency;
use crate::doc_guarantees;
use crate::document;
use crate::document::{ChunkView, PutDocumentInput};
use crate::draft::ChangeView;
use crate::encoding;
use crate::fields::FieldsView;
use crate::guarantees;
use crate::model::{RequestCtx, Timestamp};
use crate::order;
use crate::recovery;
use crate::state::StateView;
use crate::undo;
use crate::wal;
use crate::wal::{RecordView, WalDocMeta, WalOp};
use vstd::prelude::*;

verus! {

/// Whether a record changes a row, and names it with its key.
pub open spec fn names_row(r: RecordView) -> bool {
    &&& r.op == WalOp::Insert || r.op == WalOp::Update || r.op == WalOp::Delete
    &&& r.row_id is Some
    &&& r.key is Some
}

/// Whether one of the first `m` records is about row `id`.
pub open spec fn touches_row(group: Seq<RecordView>, m: int, id: u64) -> bool {
    exists|j: int| 0 <= j < m && (#[trigger] group[j]).row_id == Some(id)
}

/// Whether one of the first `m` records is about key `key`.
pub open spec fn touches_key(group: Seq<RecordView>, m: int, key: Seq<char>) -> bool {
    exists|j: int| 0 <= j < m && (#[trigger] group[j]).key == Some(key)
}

/// Whether a record keeps the row that was there before it: none for an
/// insert, otherwise the live row `row`.
pub open spec fn keeps_row(s: StateView, r: RecordView) -> bool {
    let id = r.row_id->0;
    if r.op == WalOp::Insert {
        !s.live.contains(id as u32)
    } else {
        &&& s.live.contains(id as u32)
        &&& r.undo is Some
        &&& wal::image_vector(r.undo->0) == Ok::<Option<Seq<u32>>, encoding::WalErrorView>(Some(s.rows[id].vector))
        &&& recovery::image_fields(r.undo->0) == s.rows[id].fields
        &&& r.undo->0.extra == s.rows[id].extra
        &&& r.undo->0.text == s.rows[id].text
        &&& r.key == Some(s.rows[id].key)
        &&& r.doc_id == s.rows[id].doc_id
        &&& r.chunk_ord == s.rows[id].chunk_ord
    }
}

/// Whether a record's key led where the record says before it: nowhere for an
/// insert, otherwise to its row.
pub open spec fn keeps_key(s: StateView, r: RecordView) -> bool {
    if r.op == WalOp::Insert {
        !s.keys.contains_key(r.key->0)
    } else {
        s.keys.contains_key(r.key->0) && s.keys[r.key->0] == r.row_id->0
    }
}

/// Whether a transaction's records keep all that is needed to reverse it: the
/// first record about a row keeps what the row was, the first about a key
/// where it led, and no row changes its key.
pub open spec fn reversible(s: StateView, group: Seq<RecordView>) -> bool {
    &&& forall|m: int| 0 <= m < group.len() ==> names_row(#[trigger] group[m]) && recovery::ids_fit(group[m])
    &&& forall|m: int| 0 <= m < group.len() && !touches_row(group, m, (#[trigger] group[m]).row_id->0) ==> keeps_row(s, group[m])
    &&& forall|m: int| 0 <= m < group.len() && !touches_key(group, m, (#[trigger] group[m]).key->0) ==> keeps_key(s, group[m])
    &&& forall|i: int, j: int| 0 <= i < j < group.len() && (#[trigger] group[i]).row_id == (#[trigger] group[j]).row_id ==> group[i].key == group[j].key
}

/// Whether the rows that a transaction changed still have their keys.
pub open spec fn rows_still_keyed(t: StateView, group: Seq<RecordView>) -> bool {
    forall|i: int| 0 <= i < group.len() ==> t.rows.contains_key((#[trigger] group[i]).row_id->0) && Some(t.rows[group[i].row_id->0].key) == group[i].key
}

/// Whether the records reverse `group` from its last record to its first.
pub open spec fn reverses(group: Seq<RecordView>, back: Seq<RecordView>) -> bool {
    &&& back.len() == group.len()
    &&& forall|i: int| 0 <= i < back.len() ==> {
        let r = group[group.len() - 1 - i];
        &&& (#[trigger] back[i]).op == undo::inverse_op(r.op)
        &&& back[i].row_id == r.row_id
        &&& back[i].key == r.key
        &&& back[i].doc_id == r.doc_id
        &&& back[i].doc_key == r.doc_key
        &&& back[i].chunk_ord == r.chunk_ord
        &&& back[i].params == r.params
        &&& back[i].payload == undo::inverse_payload(r)
        &&& back[i].undo == undo::inverse_undo(r)
    }
}

/// Whether row `id` is in `t` what it is in `s`: not live in either, or live
/// in both with the same contents.
pub open spec fn same_row(s: StateView, t: StateView, id: u64) -> bool {
    &&& t.live.contains(id as u32) == s.live.contains(id as u32)
    &&& s.live.contains(id as u32) ==> t.rows[id] == s.rows[id]
}

/// Whether a key leads in `t` where it leads in `s`.
pub open spec fn same_key(s: StateView, t: StateView, key: Seq<char>) -> bool {
    &&& t.keys.contains_key(key) == s.keys.contains_key(key)
    &&& s.keys.contains_key(key) ==> t.keys[key] == s.keys[key]
}

/// What holds once the records from `m` on have been reversed: what they were
/// the first to change is as it was in `s`, and what no record changed is as
/// it was in `t`.
spec fn reversed_so_far(s: StateView, group: Seq<RecordView>, m: int, t: StateView, w: StateView) -> bool {
    &&& rows_still_keyed(w, group)
    &&& forall|id: u64| id <= u32::MAX && touches_row(group, group.len() as int, id) && !#[trigger] touches_row(group, m, id) ==> same_row(s, w, id)
    &&& forall|id: u64| id <= u32::MAX && !touches_row(group, group.len() as int, id) ==> #[trigger] same_row(t, w, id)
    &&& forall|k: Seq<char>| touches_key(group, group.len() as int, k) && !#[trigger] touches_key(group, m, k) ==> same_key(s, w, k)
    &&& forall|k: Seq<char>| !touches_key(group, group.len() as int, k) ==> #[trigger] same_key(t, w, k)
}

proof fn lemma_touch_step(group: Seq<RecordView>, m: int)
    requires
        0 <= m < group.len(),
        names_row(group[m]),
    ensures
        forall|id: u64| #[trigger] touches_row(group, m + 1, id) <==> touches_row(group, m, id) || group[m].row_id == Some(id),
        forall|k: Seq<char>| #[trigger] touches_key(group, m + 1, k) <==> touches_key(group, m, k) || group[m].key == Some(k),
{
    assert forall|id: u64| #[trigger] touches_row(group, m + 1, id) <==> touches_row(group, m, id) || group[m].row_id == Some(id) by {
        if touches_row(group, m + 1, id) {
            let j = choose|j: int| 0 <= j < m + 1 && (#[trigger] group[j]).row_id == Some(id);
            assert(group[j].row_id == Some(id));
        }
        if touches_row(group, m, id) {
            let j = choose|j: int| 0 <= j < m && (#[trigger] group[j]).row_id == Some(id);
            assert(group[j].row_id == Some(id));
        }
    }
    assert forall|k: Seq<char>| #[trigger] touches_key(group, m + 1, k) <==> touches_key(group, m, k) || group[m].key == Some(k) by {
        if touches_key(group, m + 1, k) {
            let j = choose|j: int| 0 <= j < m + 1 && (#[trigger] group[j]).key == Some(k);
            assert(group[j].key == Some(k));
        }
        if touches_key(group, m, k) {
            let j = choose|j: int| 0 <= j < m && (#[trigger] group[j]).key == Some(k);
            assert(group[j].key == Some(k));
        }
    }
}

/// What reversing one record does to rows and keys.
proof fn lemma_reverse_one(w: StateView, r: RecordView, b: RecordView)
    requires
        names_row(r),
        recovery::ids_fit(r),
        b.op == undo::inverse_op(r.op),
        b.row_id == r.row_id,
        b.key == r.key,
        b.doc_id == r.doc_id,
        b.payload == undo::inverse_payload(r),
        w.rows.contains_key(r.row_id->0),
        Some(w.rows[r.row_id->0].key) == r.key,
        recovery::applied_one(w, b).1 is None,
    ensures
        ({
            let v = recovery::applied_one(w, b).0;
            let id = r.row_id->0;
            let key = r.key->0;
            &&& forall|x: u64| x != id && x <= u32::MAX ==> #[trigger] same_row(w, v, x)
            &&& forall|x: u64| #[trigger] w.rows.contains_key(x) ==> v.rows.contains_key(x) && v.rows[x].key == w.rows[x].key
            &&& forall|k: Seq<char>| k != key ==> #[trigger] same_key(w, v, k)
            &&& r.op == WalOp::Insert ==> !v.live.contains(id as u32) && !v.keys.contains_key(key)
            &&& r.op != WalOp::Insert ==> v.live.contains(id as u32) && v.keys.contains_key(key) && v.keys[key] == id
                && v.rows[id].key == key && r.undo is Some
                && wal::image_vector(r.undo->0) == Ok::<Option<Seq<u32>>, encoding::WalErrorView>(Some(v.rows[id].vector))
                && v.rows[id].fields == recovery::image_fields(r.undo->0)
                && v.rows[id].extra == r.undo->0.extra
                && v.rows[id].text == r.undo->0.text
                && v.rows[id].doc_id == r.doc_id
                && v.rows[id].chunk_ord == b.chunk_ord
        }),
{
    let v = recovery::applied_one(w, b).0;
    let id = r.row_id->0;
    if r.op == WalOp::Insert {
        assert(b.op == WalOp::Delete);
        assert forall|x: u64| x != id && x <= u32::MAX implies #[trigger] same_row(w, v, x) by {
            assert(x as u32 != id as u32);
        }
    } else {
        assert forall|x: u64| x != id && x <= u32::MAX implies #[trigger] same_row(w, v, x) by {
            assert(x as u32 != id as u32);
        }
    }
}

proof fn lemma_reverse_prefix(s: StateView, group: Seq<RecordView>, t: StateView, back: Seq<RecordView>, i: nat)
    requires
        reversible(s, group),
        rows_still_keyed(t, group),
        reverses(group, back),
        i <= group.len(),
        recovery::applied_records(t, back, i).1 is None,
    ensures
        reversed_so_far(s, group, group.len() - i, t, recovery::applied_records(t, back, i).0),
    decreases i,
{
    if i == 0 {
        assert forall|id: u64| id <= u32::MAX && !touches_row(group, group.len() as int, id) implies #[trigger] same_row(t, t, id) by {}
    } else {
        let h = (i - 1) as nat;
        lemma_reverse_prefix(s, group, t, back, h);
        let w = recovery::applied_records(t, back, h).0;
        let m = group.len() - i;
        let r = group[m];
        let b = back[h as int];
        assert(group[group.len() - 1 - h] == r);
        assert(names_row(r));
        assert(w.rows.contains_key(r.row_id->0));
        lemma_reverse_one(w, r, b);
        lemma_touch_step(group, m);
        let u = recovery::applied_one(w, b).0;
        let v = recovery::applied_records(t, back, i).0;
        let id = r.row_id->0;
        let key = r.key->0;
        assert(v.rows == u.rows && v.keys == u.keys && v.live == u.live);
        assert forall|j: int| 0 <= j < group.len() implies v.rows.contains_key((#[trigger] group[j]).row_id->0) && Some(v.rows[group[j].row_id->0].key) == group[j].key by {
            assert(w.rows.contains_key(group[j].row_id->0));
        }
        assert forall|x: u64| x <= u32::MAX && touches_row(group, group.len() as int, x) && !#[trigger] touches_row(group, m, x) implies same_row(s, v, x) by {
            if x == id {
                assert(!touches_row(group, m, group[m].row_id->0));
                assert(keeps_row(s, r));
                if r.op != WalOp::Insert {
                    assert(v.rows[id] == s.rows[id]);
                }
            } else {
                assert(!touches_row(group, m + 1, x));
                assert(same_row(s, w, x));
                assert(same_row(w, u, x));
            }
        }
        assert forall|x: u64| x <= u32::MAX && !touches_row(group, group.len() as int, x) implies #[trigger] same_row(t, v, x) by {
            if x == id {
                assert(group[m].row_id == Some(x));
            }
            assert(same_row(t, w, x));
            assert(same_row(w, u, x));
        }
        assert forall|k: Seq<char>| touches_key(group, group.len() as int, k) && !#[trigger] touches_key(group, m, k) implies same_key(s, v, k) by {
            if k == key {
                assert(!touches_key(group, m, group[m].key->0));
                assert(keeps_key(s, r));
            } else {
                assert(!touches_key(group, m + 1, k));
                assert(same_key(s, w, k));
                assert(same_key(w, u, k));
            }
        }
        assert forall|k: Seq<char>| !touches_key(group, group.len() as int, k) implies #[trigger] same_key(t, v, k) by {
            if k == key {
                assert(group[m].key == Some(k));
            }
            assert(same_key(t, w, k));
            assert(same_key(w, u, k));
        }
    }
}

/// Whether `u` has the rows and keys that the transaction changed as they are
/// in `s`, and all others as they are in `t`.
pub open spec fn brings_back(s: StateView, group: Seq<RecordView>, t: StateView, u: StateView) -> bool {
    &&& forall|id: u64| id <= u32::MAX && #[trigger] touches_row(group, group.len() as int, id) ==> same_row(s, u, id)
    &&& forall|id: u64| id <= u32::MAX && !#[trigger] touches_row(group, group.len() as int, id) ==> same_row(t, u, id)
    &&& forall|k: Seq<char>| #[trigger] touches_key(group, group.len() as int, k) ==> same_key(s, u, k)
    &&& forall|k: Seq<char>| !#[trigger] touches_key(group, group.len() as int, k) ==> same_key(t, u, k)
}

/// Undoing a transaction brings back every row that it changed, and every key,
/// as they were before it; rows and keys that it did not change stay as they
/// are now. `s` is the state before the transaction, `t` the state in which it
/// is undone: later transactions may have changed other rows meanwhile.
pub proof fn undoing_brings_rows_back(s: StateView, group: Seq<RecordView>, t: StateView, back: Seq<RecordView>)
    requires
        group.len() > 0,
        reversible(s, group),
        rows_still_keyed(t, group),
        reverses(group, back),
        forall|i: int, j: int| 0 <= i < back.len() && 0 <= j < back.len() ==> (#[trigger] back[i]).txn == (#[trigger] back[j]).txn,
        forall|i: int| 0 <= i < back.len() ==> recovery::clean(t.payload, #[trigger] back[i]),
    ensures
        recovery::applied_from(t, back, 0).1 is None,
        brings_back(s, group, t, recovery::applied_from(t, back, 0).0),
        rows_still_keyed(recovery::applied_from(t, back, 0).0, group),
{
    recovery::clean_transaction_applies(t, back);
    recovery::lemma_clean_prefix(t, back, back.len());
    lemma_reverse_prefix(s, group, t, back, back.len());
    let w = recovery::applied_records(t, back, back.len()).0;
    let u = recovery::applied_from(t, back, 0).0;
    assert(u.rows == w.rows && u.keys == w.keys && u.live == w.live);
    assert forall|id: u64| id <= u32::MAX && #[trigger] touches_row(group, group.len() as int, id) implies same_row(s, u, id) by {
        assert(!touches_row(group, 0, id));
        assert(same_row(s, w, id));
    }
    assert forall|id: u64| id <= u32::MAX && !#[trigger] touches_row(group, group.len() as int, id) implies same_row(t, u, id) by {
        assert(same_row(t, w, id));
    }
    assert forall|k: Seq<char>| #[trigger] touches_key(group, group.len() as int, k) implies same_key(s, u, k) by {
        assert(!touches_key(group, 0, k));
        assert(same_key(s, w, k));
    }
    assert forall|k: Seq<char>| !#[trigger] touches_key(group, group.len() as int, k) implies same_key(t, u, k) by {
        assert(same_key(t, w, k));
    }
}

/// Whether one of the records from `m` up to `n` is about row `id`.
pub open spec fn touches_row_within(group: Seq<RecordView>, m: int, n: int, id: u64) -> bool {
    exists|j: int| m <= j < n && (#[trigger] group[j]).row_id == Some(id)
}

/// Whether one of the records from `m` up to `n` is about key `key`.
pub open spec fn touches_key_within(group: Seq<RecordView>, m: int, n: int, key: Seq<char>) -> bool {
    exists|j: int| m <= j < n && (#[trigger] group[j]).key == Some(key)
}

/// Whether the record's row is what the record made of it.
pub open spec fn left_row(t: StateView, r: RecordView) -> bool {
    let id = r.row_id->0;
    if r.op == WalOp::Delete {
        !t.live.contains(id as u32)
    } else {
        &&& t.live.contains(id as u32)
        &&& r.payload is Some
        &&& wal::image_vector(r.payload->0) == Ok::<Option<Seq<u32>>, encoding::WalErrorView>(Some(t.rows[id].vector))
        &&& recovery::image_fields(r.payload->0) == t.rows[id].fields
        &&& r.payload->0.extra == t.rows[id].extra
        &&& r.payload->0.text == t.rows[id].text
        &&& r.key == Some(t.rows[id].key)
        &&& r.doc_id == t.rows[id].doc_id
        &&& r.chunk_ord == t.rows[id].chunk_ord
    }
}

/// Whether the record's key leads where the record made it lead.
pub open spec fn left_key(t: StateView, r: RecordView) -> bool {
    if r.op == WalOp::Delete {
        !t.keys.contains_key(r.key->0)
    } else {
        t.keys.contains_key(r.key->0) && t.keys[r.key->0] == r.row_id->0
    }
}

/// Whether the rows and keys of a transaction are still what its last records
/// about them made of them.
pub open spec fn left_alone(t: StateView, group: Seq<RecordView>) -> bool {
    &&& forall|m: int| 0 <= m < group.len() && !touches_row_within(group, m + 1, group.len() as int, group[m].row_id->0) ==> #[trigger] left_row(t, group[m])
    &&& forall|m: int| 0 <= m < group.len() && !touches_key_within(group, m + 1, group.len() as int, group[m].key->0) ==> #[trigger] left_key(t, group[m])
}

/// What one record does to rows and keys.
proof fn lemma_one_effect(w: StateView, r: RecordView)
    requires
        names_row(r),
        recovery::ids_fit(r),
        r.op == WalOp::Delete ==> w.rows.contains_key(r.row_id->0) && Some(w.rows[r.row_id->0].key) == r.key,
        recovery::applied_one(w, r).1 is None,
    ensures
        ({
            let v = recovery::applied_one(w, r).0;
            let id = r.row_id->0;
            let key = r.key->0;
            &&& left_row(v, r)
            &&& left_key(v, r)
            &&& v.rows.contains_key(id) && v.rows[id].key == key
            &&& forall|x: u64| x != id ==> #[trigger] v.rows.contains_key(x) == w.rows.contains_key(x) && v.rows[x] == w.rows[x]
            &&& forall|x: u32| x != id ==> #[trigger] v.live.contains(x) == w.live.contains(x)
            &&& forall|k: Seq<char>| k != key ==> #[trigger] v.keys.contains_key(k) == w.keys.contains_key(k) && v.keys[k] == w.keys[k]
        }),
{
}

spec fn left_so_far(s: StateView, group: Seq<RecordView>, n: int, w: StateView) -> bool {
    &&& forall|m: int| 0 <= m < n && !touches_row_within(group, m + 1, n, group[m].row_id->0) ==> #[trigger] left_row(w, group[m])
    &&& forall|m: int| 0 <= m < n && !touches_key_within(group, m + 1, n, group[m].key->0) ==> #[trigger] left_key(w, group[m])
    &&& forall|i: int| 0 <= i < n ==> w.rows.contains_key((#[trigger] group[i]).row_id->0) && Some(w.rows[group[i].row_id->0].key) == group[i].key
    &&& forall|id: u64| #[trigger] s.rows.contains_key(id) && !touches_row(group, n, id) ==> w.rows.contains_key(id) && w.rows[id] == s.rows[id]
}

/// A record that deletes a row finds it with the key that it names.
proof fn lemma_finds_row(s: StateView, group: Seq<RecordView>, m: int, w: StateView)
    requires
        collection::sound(s),
        0 <= m < group.len(),
        names_row(group[m]) && recovery::ids_fit(group[m]),
        !touches_row(group, m, group[m].row_id->0) ==> keeps_row(s, group[m]),
        forall|i: int| 0 <= i < m && (#[trigger] group[i]).row_id == group[m].row_id ==> group[i].key == group[m].key,
        left_so_far(s, group, m, w),
        group[m].op == WalOp::Delete,
    ensures
        w.rows.contains_key(group[m].row_id->0),
        Some(w.rows[group[m].row_id->0].key) == group[m].key,
{
    let id = group[m].row_id->0;
    if touches_row(group, m, id) {
        let j = choose|j: int| 0 <= j < m && (#[trigger] group[j]).row_id == Some(id);
        assert(w.rows.contains_key(group[j].row_id->0));
    } else {
        assert(s.rows.contains_key(id as u32 as u64));
    }
}

proof fn lemma_left_step(s: StateView, group: Seq<RecordView>, m: int, w: StateView, v: StateView)
    requires
        0 <= m < group.len(),
        forall|i: int| 0 <= i <= m ==> names_row(#[trigger] group[i]) && recovery::ids_fit(group[i]),
        forall|i: int| 0 <= i < m && (#[trigger] group[i]).row_id == group[m].row_id ==> group[i].key == group[m].key,
        group[m].op == WalOp::Delete ==> w.rows.contains_key(group[m].row_id->0) && Some(w.rows[group[m].row_id->0].key) == group[m].key,
        left_so_far(s, group, m, w),
        recovery::applied_one(w, group[m]).1 is None,
        v.rows == recovery::applied_one(w, group[m]).0.rows,
        v.keys == recovery::applied_one(w, group[m]).0.keys,
        v.live == recovery::applied_one(w, group[m]).0.live,
    ensures
        left_so_far(s, group, m + 1, v),
{
    let r = group[m];
    let id = r.row_id->0;
    let u = recovery::applied_one(w, r).0;
    assert(names_row(r) && recovery::ids_fit(r));
    lemma_touch_step(group, m);
    lemma_one_effect(w, r);
    assert(left_row(v, r) && left_key(v, r)) by {
        assert(left_row(u, r) && left_key(u, r));
    }
    assert forall|i: int| 0 <= i < m + 1 && !touches_row_within(group, i + 1, m + 1, group[i].row_id->0) implies #[trigger] left_row(v, group[i]) by {
        if i < m {
            let x = group[i].row_id->0;
            assert(names_row(group[i]) && recovery::ids_fit(group[i]));
            assert(group[m].row_id != group[i].row_id);
            assert(!touches_row_within(group, i + 1, m, x)) by {
                if touches_row_within(group, i + 1, m, x) {
                    let j = choose|j: int| i + 1 <= j < m && (#[trigger] group[j]).row_id == Some(x);
                    assert(group[j].row_id == Some(x));
                }
            }
            assert(left_row(w, group[i]));
            assert(u.rows.contains_key(x) == w.rows.contains_key(x));
            assert(u.live.contains(x as u32) == w.live.contains(x as u32));
        }
    }
    assert forall|i: int| 0 <= i < m + 1 && !touches_key_within(group, i + 1, m + 1, group[i].key->0) implies #[trigger] left_key(v, group[i]) by {
        if i < m {
            let k = group[i].key->0;
            assert(names_row(group[i]));
            assert(group[m].key != group[i].key);
            assert(!touches_key_within(group, i + 1, m, k)) by {
                if touches_key_within(group, i + 1, m, k) {
                    let j = choose|j: int| i + 1 <= j < m && (#[trigger] group[j]).key == Some(k);
                    assert(group[j].key == Some(k));
                }
            }
            assert(left_key(w, group[i]));
            assert(u.keys.contains_key(k) == w.keys.contains_key(k));
        }
    }
    assert forall|i: int| 0 <= i < m + 1 implies v.rows.contains_key((#[trigger] group[i]).row_id->0) && Some(v.rows[group[i].row_id->0].key) == group[i].key by {
        assert(names_row(group[i]));
        if i < m {
            assert(w.rows.contains_key(group[i].row_id->0));
            if group[i].row_id == r.row_id {
                assert(group[i].row_id == group[m].row_id);
            } else {
                assert(u.rows.contains_key(group[i].row_id->0) == w.rows.contains_key(group[i].row_id->0));
            }
        }
    }
    assert forall|x: u64| #[trigger] s.rows.contains_key(x) && !touches_row(group, m + 1, x) implies v.rows.contains_key(x) && v.rows[x] == s.rows[x] by {
        assert(!touches_row(group, m, x));
        assert(x != id);
        assert(u.rows.contains_key(x) == w.rows.contains_key(x));
    }
}

proof fn lemma_left_alone(s: StateView, group: Seq<RecordView>, n: nat)
    requires
        collection::sound(s),
        reversible(s, group),
        n <= group.len(),
        recovery::applied_records(s, group, n).1 is None,
    ensures
        left_so_far(s, group, n as int, recovery::applied_records(s, group, n).0),
    decreases n,
{
    if n > 0 {
        let m = (n - 1) as nat;
        lemma_left_alone(s, group, m);
        let r = group[m as int];
        assert(names_row(r) && recovery::ids_fit(r));
        assert(!touches_row(group, m as int, group[m as int].row_id->0) ==> keeps_row(s, group[m as int]));
        assert forall|i: int| 0 <= i < m && (#[trigger] group[i]).row_id == r.row_id implies group[i].key == r.key by {
            assert(group[i].row_id == group[m as int].row_id);
        }
        if r.op == WalOp::Delete {
            lemma_finds_row(s, group, m as int, recovery::applied_records(s, group, m).0);
        }
        lemma_left_step(s, group, m as int, recovery::applied_records(s, group, m).0, recovery::applied_records(s, group, n).0);
    }
}

proof fn lemma_undo_kept(t: StateView, group: Seq<RecordView>, back: Seq<RecordView>, i: int)
    requires
        names_row(group[group.len() - 1 - i]) && recovery::ids_fit(group[group.len() - 1 - i]),
        left_alone(t, group),
        reverses(group, back),
        0 <= i < back.len(),
    ensures
        names_row(back[i]) && recovery::ids_fit(back[i]),
        !touches_row(back, i, back[i].row_id->0) ==> keeps_row(t, back[i]),
        !touches_key(back, i, back[i].key->0) ==> keeps_key(t, back[i]),
{
    let n = group.len() as int;
    let m = n - 1 - i;
    let r = group[m];
    let b = back[i];
    assert(b.op == undo::inverse_op(r.op) && b.row_id == r.row_id && b.key == r.key && b.doc_id == r.doc_id && b.chunk_ord == r.chunk_ord
        && b.undo == undo::inverse_undo(r));
    if !touches_row(back, i, b.row_id->0) {
        if touches_row_within(group, m + 1, n, r.row_id->0) {
            let j = choose|j: int| m + 1 <= j < n && (#[trigger] group[j]).row_id == Some(r.row_id->0);
            let h = n - 1 - j;
            assert(back[h].row_id == group[n - 1 - h].row_id);
            assert(touches_row(back, i, b.row_id->0));
        }
        assert(left_row(t, group[m]));
    }
    if !touches_key(back, i, b.key->0) {
        if touches_key_within(group, m + 1, n, r.key->0) {
            let j = choose|j: int| m + 1 <= j < n && (#[trigger] group[j]).key == Some(r.key->0);
            let h = n - 1 - j;
            assert(back[h].key == group[n - 1 - h].key);
            assert(touches_key(back, i, b.key->0));
        }
        assert(left_key(t, group[m]));
    }
}

/// What reverses a transaction can itself be reversed, as long as its rows and
/// keys are still what the transaction made of them.
pub proof fn an_undo_can_be_undone(t: StateView, group: Seq<RecordView>, back: Seq<RecordView>)
    requires
        forall|m: int| 0 <= m < group.len() ==> names_row(#[trigger] group[m]) && recovery::ids_fit(group[m]),
        forall|i: int, j: int| 0 <= i < j < group.len() && (#[trigger] group[i]).row_id == (#[trigger] group[j]).row_id ==> group[i].key == group[j].key,
        left_alone(t, group),
        reverses(group, back),
    ensures
        reversible(t, back),
{
    assert forall|i: int| 0 <= i < back.len() implies names_row(#[trigger] back[i]) && recovery::ids_fit(back[i])
        && (!touches_row(back, i, back[i].row_id->0) ==> keeps_row(t, back[i]))
        && (!touches_key(back, i, back[i].key->0) ==> keeps_key(t, back[i])) by {
        let r = group[group.len() - 1 - i];
        assert(names_row(r) && recovery::ids_fit(r));
        lemma_undo_kept(t, group, back, i);
    }
    assert forall|i: int, j: int| 0 <= i < j < back.len() && (#[trigger] back[i]).row_id == (#[trigger] back[j]).row_id implies back[i].key == back[j].key by {
        let a = group[group.len() - 1 - j];
        let b = group[group.len() - 1 - i];
        assert(a.row_id == b.row_id);
    }
}

/// Undoing an undo restores: when a transaction is undone, and the undo is
/// undone in turn, every row and every key is what the transaction had made
/// of it.
pub proof fn undoing_an_undo_restores(s: StateView, group: Seq<RecordView>, back: Seq<RecordView>, forth: Seq<RecordView>)
    requires
        collection::sound(s),
        group.len() > 0,
        reversible(s, group),
        forall|i: int, j: int| 0 <= i < group.len() && 0 <= j < group.len() ==> (#[trigger] group[i]).txn == (#[trigger] group[j]).txn,
        recovery::applied_from(s, group, 0).1 is None,
        reverses(group, back),
        forall|i: int, j: int| 0 <= i < back.len() && 0 <= j < back.len() ==> (#[trigger] back[i]).txn == (#[trigger] back[j]).txn,
        forall|i: int| 0 <= i < back.len() ==> recovery::clean(recovery::applied_from(s, group, 0).0.payload, #[trigger] back[i]),
        reverses(back, forth),
        forall|i: int, j: int| 0 <= i < forth.len() && 0 <= j < forth.len() ==> (#[trigger] forth[i]).txn == (#[trigger] forth[j]).txn,
        forall|i: int| 0 <= i < forth.len() ==> recovery::clean(
            recovery::applied_from(recovery::applied_from(s, group, 0).0, back, 0).0.payload, #[trigger] forth[i]),
    ensures
        ({
            let t = recovery::applied_from(s, group, 0).0;
            let v = recovery::applied_from(recovery::applied_from(t, back, 0).0, forth, 0);
            &&& v.1 is None
            &&& forall|id: u64| id <= u32::MAX ==> #[trigger] same_row(t, v.0, id)
            &&& forall|k: Seq<char>| #[trigger] same_key(t, v.0, k)
        }),
{
    recovery::one_transaction_is_one_unit(s, group);
    let w = recovery::applied_records(s, group, group.len()).0;
    let t = recovery::applied_from(s, group, 0).0;
    let u = recovery::applied_from(t, back, 0).0;
    let v = recovery::applied_from(u, forth, 0).0;
    let n = group.len() as int;
    lemma_left_alone(s, group, group.len());
    assert(t.rows == w.rows && t.keys == w.keys && t.live == w.live);
    assert(left_alone(t, group)) by {
        assert forall|m: int| 0 <= m < group.len() && !touches_row_within(group, m + 1, group.len() as int, group[m].row_id->0) implies #[trigger] left_row(t, group[m]) by {
            assert(left_row(w, group[m]));
        }
        assert forall|m: int| 0 <= m < group.len() && !touches_key_within(group, m + 1, group.len() as int, group[m].key->0) implies #[trigger] left_key(t, group[m]) by {
            assert(left_key(w, group[m]));
        }
    }
    assert(rows_still_keyed(t, group)) by {
        assert forall|i: int| 0 <= i < group.len() implies t.rows.contains_key((#[trigger] group[i]).row_id->0) && Some(t.rows[group[i].row_id->0].key) == group[i].key by {
            assert(w.rows.contains_key(group[i].row_id->0));
        }
    }
    an_undo_can_be_undone(t, group, back);
    undoing_brings_rows_back(s, group, t, back);
    assert forall|i: int| 0 <= i < back.len() implies u.rows.contains_key((#[trigger] back[i]).row_id->0) && Some(u.rows[back[i].row_id->0].key) == back[i].key by {
        assert(u.rows.contains_key(group[n - 1 - i].row_id->0));
    }
    undoing_brings_rows_back(t, back, u, forth);
    assert forall|id: u64| id <= u32::MAX implies #[trigger] same_row(t, v, id) by {
        if !touches_row(back, back.len() as int, id) {
            assert(!touches_row(group, n, id)) by {
                if touches_row(group, n, id) {
                    let j = choose|j: int| 0 <= j < n && (#[trigger] group[j]).row_id == Some(id);
                    assert(back[n - 1 - j].row_id == group[j].row_id);
                }
            }
            assert(same_row(t, u, id));
            assert(same_row(u, v, id));
        }
    }
    assert forall|k: Seq<char>| #[trigger] same_key(t, v, k) by {
        if !touches_key(back, back.len() as int, k) {
            assert(!touches_key(group, n, k)) by {
                if touches_key(group, n, k) {
                    let j = choose|j: int| 0 <= j < n && (#[trigger] group[j]).key == Some(k);
                    assert(back[n - 1 - j].key == group[j].key);
                }
            }
            assert(same_key(t, u, k));
            assert(same_key(u, v, k));
        }
    }
}

/// What planning an undo gives does reverse the transaction: its records
/// stand in the log at ascending positions, and the plan takes them from the
/// last to the first.
pub proof fn a_planned_undo_reverses(group: Seq<RecordView>, p: Seq<usize>, ctx: RequestCtx, txn: u128, caused_by: u128, stamps: Seq<Timestamp>)
    requires
        order::stable_order_of(undo::positions(group), p),
        forall|i: int, j: int| 0 <= i < j < group.len() ==> (#[trigger] group[i]).lsn < (#[trigger] group[j]).lsn,
        group.len() <= usize::MAX,
    ensures
        reverses(group, undo::compensation(group, p, ctx, txn, caused_by, stamps)),
        forall|i: int| 0 <= i < group.len() ==> (#[trigger] undo::compensation(group, p, ctx, txn, caused_by, stamps)[i]).txn == txn,
{
    let keys = undo::positions(group);
    let q = Seq::new(group.len(), |i: int| i as usize);
    assert forall|k: usize| 0 <= k < keys.len() implies #[trigger] q.contains(k) by {
        assert(q[k as int] == k);
    }
    assert forall|i: int, j: int| 0 <= i < j < q.len() implies order::comes_first(keys, #[trigger] q[i], #[trigger] q[j]) by {
        assert(group[i].lsn < group[j].lsn);
    }
    assert(order::stable_order_of(keys, q));
    order::stable_order_unique(keys, p, q);
    let back = undo::compensation(group, p, ctx, txn, caused_by, stamps);
    assert forall|i: int| 0 <= i < back.len() implies ({
        let r = group[group.len() - 1 - i];
        &&& (#[trigger] back[i]).op == undo::inverse_op(r.op)
        &&& back[i].row_id == r.row_id
        &&& back[i].key == r.key
        &&& back[i].doc_id == r.doc_id
        &&& back[i].doc_key == r.doc_key
        &&& back[i].chunk_ord == r.chunk_ord
        &&& back[i].params == r.params
        &&& back[i].payload == undo::inverse_payload(r)
        &&& back[i].undo == undo::inverse_undo(r)
    }) by {
        assert(p[group.len() - 1 - i] == group.len() - 1 - i);
    }
}

/// An undo happens once: when the records that reverse a transaction have
/// been applied, undoing that transaction is refused, and the refusal names
/// the undo as long as the transaction's entry is kept.
pub proof fn an_undo_happens_once(c: CollectionView, records: Seq<RecordView>, p: Seq<usize>, ctx: RequestCtx, txn: u128, target: u128, stamps: Seq<Timestamp>)
    requires
        records.len() > 0,
        recovery::applied_group(c.state, undo::compensation(records, p, ctx, txn, target, stamps)).1 is None,
    ensures
        ({
            let after = CollectionView { state: recovery::applied_group(c.state, undo::compensation(records, p, ctx, txn, target, stamps)).0, ..c };
            &&& undo::undo_refusal(after, target) is Some
            &&& c.wal is Some && after.state.txns.entries.contains_key(target)
                ==> undo::undo_refusal(after, target) == Some(undo::already_undone(target, txn))
        }),
{
    let back = undo::compensation(records, p, ctx, txn, target, stamps);
    assert(back[0].caused_by == Some(target) && back[0].txn == txn);
}

/// Whether two records change rows alike, wherever in the log they stand.
pub open spec fn same_change(a: RecordView, b: RecordView) -> bool {
    &&& a.op == b.op
    &&& a.row_id == b.row_id
    &&& a.key == b.key
    &&& a.doc_id == b.doc_id
    &&& a.chunk_ord == b.chunk_ord
    &&& a.undo == b.undo
}

/// A batch of puts can always be undone: its records keep what is needed.
pub proof fn puts_are_reversible(c: CollectionView, ctx: RequestCtx, txn: u128, stamps: Seq<Timestamp>, items: Seq<PutView>, logged: Seq<RecordView>)
    requires
        guarantees::can_put(c, items),
        collection::replaced_encode(c.state, items),
        logged.len() == items.len(),
        forall|i: int| 0 <= i < logged.len() ==> same_change(#[trigger] logged[i], collection::put_records(c, ctx, txn, stamps, items)[i]),
    ensures
        reversible(c.state, logged),
{
    let s = c.state;
    let records = collection::put_records(c, ctx, txn, stamps, items);
    collection::lemma_put_ids_fit(c, ctx, txn, stamps, items);
    assert forall|m: int| 0 <= m < logged.len() implies names_row(#[trigger] logged[m]) && recovery::ids_fit(logged[m])
        && (!touches_row(logged, m, logged[m].row_id->0) ==> keeps_row(s, logged[m]))
        && (!touches_key(logged, m, logged[m].key->0) ==> keeps_key(s, logged[m])) by {
        assert(same_change(logged[m], records[m]));
        assert(recovery::ids_fit(records[m]));
        let key = items[m].key;
        let id = collection::put_row_id(s, items, m);
        collection::lemma_earlier(items, key, m as nat);
        collection::lemma_put_row_id(s, items, m);
        collection::lemma_fresh_at_most(s, items, (m + 1) as nat, items.len());
        let before = collection::earlier(items, key, m as nat);
        if before is Some {
            let j = before->0;
            assert(same_change(logged[j], records[j]));
            assert(logged[j].row_id == Some(id));
            assert(logged[j].key == Some(key));
            assert(touches_row(logged, m, id));
            assert(touches_key(logged, m, key));
        } else if s.keys.contains_key(key) {
            assert(s.rows.contains_key(id));
            assert(collection::replaced_row(s, items, m) == Some(s.rows[id]));
            assert(encoding::encodes(s.rows[id].vector));
        } else {
            if s.live.contains(id as u32) {
                assert(s.rows.contains_key(id as u32 as u64));
            }
        }
    }
    assert forall|i: int, j: int| 0 <= i < j < logged.len() && (#[trigger] logged[i]).row_id == (#[trigger] logged[j]).row_id implies logged[i].key == logged[j].key by {
        assert(same_change(logged[i], records[i]) && same_change(logged[j], records[j]));
        collection::lemma_put_rows_apart(s, items, i, j);
    }
}

/// A delete can always be undone.
pub proof fn deletes_are_reversible(c: CollectionView, ctx: RequestCtx, txn: u128, ts: Timestamp, key: Seq<char>, logged: Seq<RecordView>)
    requires
        collection::sound(c.state),
        consistency::linked(c.state),
        c.state.keys.contains_key(key),
        encoding::encodes(c.state.rows[c.state.keys[key]].vector),
        logged.len() == 1,
        same_change(logged[0], collection::delete_records(c, ctx, txn, ts, key)[0]),
    ensures
        reversible(c.state, logged),
{
    let s = c.state;
    let id = s.keys[key];
    assert(s.rows.contains_key(id));
    assert(id < s.next_row);
}

/// Whether two states show the same rows under the same keys.
pub open spec fn look_alike(s: StateView, t: StateView) -> bool {
    &&& t.keys == s.keys
    &&& t.live == s.live
    &&& forall|row: u32| #[trigger] s.live.contains(row) ==> t.rows[row as u64] == s.rows[row as u64]
}

/// A batch of puts that is undone right away leaves no trace for readers: the
/// same keys lead to the same live rows with the same contents as before.
pub proof fn an_undone_put_leaves_no_trace(c: CollectionView, ctx: RequestCtx, txn: u128, stamps: Seq<Timestamp>, items: Seq<PutView>, logged: Seq<RecordView>, back: Seq<RecordView>)
    requires
        guarantees::can_put(c, items),
        items.len() > 0,
        collection::replaced_encode(c.state, items),
        logged.len() == items.len(),
        forall|i: int| 0 <= i < logged.len() ==> same_change(#[trigger] logged[i], collection::put_records(c, ctx, txn, stamps, items)[i]),
        reverses(logged, back),
        forall|i: int, j: int| 0 <= i < back.len() && 0 <= j < back.len() ==> (#[trigger] back[i]).txn == (#[trigger] back[j]).txn,
        forall|i: int| 0 <= i < back.len() ==> recovery::clean(
            recovery::applied_from(c.state, collection::put_records(c, ctx, txn, stamps, items), 0).0.payload, #[trigger] back[i]),
    ensures
        ({
            let t = recovery::applied_from(c.state, collection::put_records(c, ctx, txn, stamps, items), 0).0;
            &&& recovery::applied_from(t, back, 0).1 is None
            &&& look_alike(c.state, recovery::applied_from(t, back, 0).0)
        }),
{
    let s = c.state;
    let records = collection::put_records(c, ctx, txn, stamps, items);
    let t = recovery::applied_from(s, records, 0).0;
    let u = recovery::applied_from(t, back, 0).0;
    puts_are_reversible(c, ctx, txn, stamps, items, logged);
    guarantees::a_put_writes_just_its_rows(c, ctx, txn, stamps, items);
    assert forall|i: int| 0 <= i < logged.len() implies t.rows.contains_key((#[trigger] logged[i]).row_id->0) && Some(t.rows[logged[i].row_id->0].key) == logged[i].key by {
        assert(same_change(logged[i], records[i]));
        assert(t.rows.contains_key(collection::put_row_id(s, items, i)));
    }
    undoing_brings_rows_back(s, logged, t, back);
    let n = logged.len() as int;
    assert forall|id: u64| id <= u32::MAX implies #[trigger] same_row(s, u, id) by {
        if !touches_row(logged, n, id) {
            assert forall|j: int| 0 <= j < items.len() implies #[trigger] collection::put_row_id(s, items, j) != id by {
                assert(same_change(logged[j], records[j]));
                assert(logged[j].row_id != Some(id));
            }
            assert(same_row(t, u, id));
            let row = id as u32;
            assert(t.live.contains(row) == s.live.contains(row)) by {
                if t.live.contains(row) && !s.live.contains(row) {
                    let j = choose|j: int| 0 <= j < items.len() && #[trigger] collection::put_row_id(s, items, j) == row;
                    assert(collection::put_row_id(s, items, j) != id);
                }
            }
            if s.live.contains(row) {
                assert(s.rows.contains_key(row as u64));
            }
        }
    }
    assert forall|k: Seq<char>| #[trigger] same_key(s, u, k) by {
        if !touches_key(logged, n, k) {
            assert forall|j: int| 0 <= j < items.len() implies (#[trigger] items[j]).key != k by {
                assert(same_change(logged[j], records[j]));
                assert(logged[j].key != Some(k));
            }
            assert(guarantees::not_among(items, items.len() as int, k));
            assert(same_key(t, u, k));
            if s.keys.contains_key(k) {
                assert(s.rows.contains_key(s.keys[k]));
            }
            if t.keys.contains_key(k) {
                assert(t.rows.contains_key(t.keys[k]));
            }
        }
    }
    assert(u.keys =~= s.keys) by {
        assert forall|k: Seq<char>| u.keys.contains_key(k) == s.keys.contains_key(k) && (s.keys.contains_key(k) ==> u.keys[k] == s.keys[k]) by {
            assert(same_key(s, u, k));
        }
    }
    assert(u.live =~= s.live) by {
        assert forall|row: u32| u.live.contains(row) == s.live.contains(row) by {
            assert(same_row(s, u, row as u64));
        }
    }
    assert forall|row: u32| #[trigger] s.live.contains(row) implies u.rows[row as u64] == s.rows[row as u64] by {
        assert(same_row(s, u, row as u64));
    }
}

/// Whether the rows and documents of a transaction still have the documents
/// and keys that its records name.
pub open spec fn still_placed(t: StateView, group: Seq<RecordView>) -> bool {
    &&& rows_still_keyed(t, group)
    &&& forall|i: int| 0 <= i < group.len() && t.live.contains((#[trigger] group[i]).row_id->0 as u32) ==> t.rows[group[i].row_id->0].doc_id == group[i].doc_id
    &&& forall|i: int| 0 <= i < group.len() && (#[trigger] group[i]).doc_id is Some && group[i].params is Some ==>
        group[i].doc_key is Some && (t.docs.contains_key(group[i].doc_id->0) ==> group[i].doc_key == Some(t.docs[group[i].doc_id->0].doc_key))
}

/// Whether the records agree about each row's document and each document's
/// key.
pub open spec fn agree(group: Seq<RecordView>) -> bool {
    &&& forall|i: int, j: int| 0 <= i < group.len() && 0 <= j < group.len() && (#[trigger] group[i]).row_id == (#[trigger] group[j]).row_id ==> group[i].doc_id == group[j].doc_id
    &&& forall|i: int, j: int| 0 <= i < group.len() && 0 <= j < group.len() && (#[trigger] group[i]).doc_id == (#[trigger] group[j]).doc_id
        && group[i].params is Some && group[j].params is Some ==> group[i].doc_key == group[j].doc_key
}

proof fn lemma_still_placed(t: StateView, group: Seq<RecordView>, back: Seq<RecordView>, i: nat)
    requires
        forall|m: int| 0 <= m < group.len() ==> names_row(#[trigger] group[m]) && recovery::ids_fit(group[m]),
        agree(group),
        still_placed(t, group),
        reverses(group, back),
        i <= group.len(),
        recovery::applied_records(t, back, i).1 is None,
    ensures
        still_placed(recovery::applied_records(t, back, i).0, group),
    decreases i,
{
    if i > 0 {
        let h = (i - 1) as nat;
        lemma_still_placed(t, group, back, h);
        let w = recovery::applied_records(t, back, h).0;
        let m = group.len() - i;
        let r = group[m];
        let b = back[h as int];
        assert(group[group.len() - 1 - h] == r);
        assert(names_row(r) && recovery::ids_fit(r));
        lemma_reverse_one(w, r, b);
        let v = recovery::applied_records(t, back, i).0;
        let id = r.row_id->0;
        assert forall|j: int| 0 <= j < group.len() implies v.rows.contains_key((#[trigger] group[j]).row_id->0) && Some(v.rows[group[j].row_id->0].key) == group[j].key by {
            assert(w.rows.contains_key(group[j].row_id->0));
        }
        assert forall|j: int| 0 <= j < group.len() && v.live.contains((#[trigger] group[j]).row_id->0 as u32) implies v.rows[group[j].row_id->0].doc_id == group[j].doc_id by {
            assert(names_row(group[j]) && recovery::ids_fit(group[j]));
            let x = group[j].row_id->0;
            if x == id {
                assert(group[j].row_id == group[m].row_id);
                assert(group[j].doc_id == r.doc_id);
            } else {
                assert(same_row(w, recovery::applied_one(w, b).0, x));
            }
        }
        assert forall|j: int| 0 <= j < group.len() && (#[trigger] group[j]).doc_id is Some && group[j].params is Some implies
            group[j].doc_key is Some && (v.docs.contains_key(group[j].doc_id->0) ==> group[j].doc_key == Some(v.docs[group[j].doc_id->0].doc_key)) by {
            let d = group[j].doc_id->0;
            if v.docs.contains_key(d) && !w.docs.contains_key(d) {
                assert(r.doc_id == Some(d));
                assert(group[m].doc_id == group[j].doc_id);
            }
        }
    }
}

/// An undo keeps the state sound, what leads to each other does so still, and
/// the columns are right if they were. Every document is still the one that its
/// key leads to, unless another has taken the key of one that comes back.
pub proof fn an_undo_keeps_in_step(t: StateView, group: Seq<RecordView>, back: Seq<RecordView>)
    requires
        collection::sound(t),
        consistency::linked(t),
        group.len() > 0,
        forall|m: int| 0 <= m < group.len() ==> names_row(#[trigger] group[m]) && recovery::ids_fit(group[m]),
        agree(group),
        still_placed(t, group),
        reverses(group, back),
        forall|i: int, j: int| 0 <= i < back.len() && 0 <= j < back.len() ==> (#[trigger] back[i]).txn == (#[trigger] back[j]).txn,
        forall|i: int| 0 <= i < back.len() ==> recovery::clean(t.payload, #[trigger] back[i]),
    ensures
        collection::sound(recovery::applied_from(t, back, 0).0),
        consistency::linked(recovery::applied_from(t, back, 0).0),
        consistency::indexed(t) ==> consistency::indexed(recovery::applied_from(t, back, 0).0),
        consistency::docs_keyed(t) && consistency::claim_one_key(t, back) ==> consistency::docs_keyed(recovery::applied_from(t, back, 0).0),
{
    recovery::clean_transaction_applies(t, back);
    assert forall|i: int| 0 <= i < back.len() implies recovery::ids_fit(#[trigger] back[i]) by {
        let r = group[group.len() - 1 - i];
        assert(names_row(r) && recovery::ids_fit(r));
    }
    assert forall|n: nat| n < back.len() implies consistency::suits(recovery::applied_records(t, back, n).0, #[trigger] back[n as int]) by {
        recovery::lemma_clean_prefix(t, back, n);
        lemma_still_placed(t, group, back, n);
        let r = group[group.len() - 1 - n];
        assert(names_row(r) && recovery::ids_fit(r));
        let w = recovery::applied_records(t, back, n).0;
        assert(w.rows.contains_key(r.row_id->0));
    }
    consistency::transactions_keep_in_step(t, back);
    collection::applying_keeps_sound(t, back, 0);
    if consistency::docs_keyed(t) && consistency::claim_one_key(t, back) {
        consistency::transactions_keep_docs_keyed(t, back);
    }
}

/// Whether each of a document's rows is the row that its key leads to.
pub open spec fn owns_its_keys(s: StateView, doc_id: u64) -> bool {
    forall|row: u32| #[trigger] s.docs[doc_id].rows.contains(row) ==> s.keys.contains_key(s.rows[row as u64].key) && s.keys[s.rows[row as u64].key] == row
}

/// Whether the records make these changes, wherever in the log they stand.
pub open spec fn log_changes(logged: Seq<RecordView>, changes: Seq<ChangeView>) -> bool {
    &&& logged.len() == changes.len()
    &&& forall|i: int| 0 <= i < logged.len() ==> {
        &&& (#[trigger] logged[i]).op == changes[i].op
        &&& logged[i].row_id == Some(changes[i].row_id)
        &&& logged[i].key == Some(changes[i].key)
        &&& logged[i].doc_id == changes[i].doc_id
        &&& logged[i].doc_key == changes[i].doc_key
        &&& logged[i].chunk_ord == changes[i].chunk_ord
        &&& logged[i].payload == changes[i].payload
        &&& logged[i].undo == changes[i].undo
        &&& logged[i].params == changes[i].params
    }
}

proof fn lemma_removal_kept(s: StateView, doc_id: u64, doc_key: Seq<char>, meta: WalDocMeta, row: u32, r: RecordView)
    requires
        collection::sound(s),
        consistency::linked(s),
        encoding::encodes(s.rows[row as u64].vector),
        s.docs.contains_key(doc_id),
        owns_its_keys(s, doc_id),
        s.docs[doc_id].rows.contains(row),
        log_changes(seq![r], seq![document::removal_change(s, doc_id, doc_key, meta, row)]),
    ensures
        names_row(r),
        recovery::ids_fit(r),
        keeps_row(s, r),
        keeps_key(s, r),
{
    assert(seq![r][0] == r);
    assert(s.live.contains(row));
    assert(s.rows.contains_key(row as u64));
}

/// The deletion of a document can be undone, as long as each of its rows is
/// the one that its key leads to.
pub proof fn document_deletions_are_reversible(s: StateView, doc_key: Seq<char>, logged: Seq<RecordView>)
    requires
        collection::sound(s),
        consistency::linked(s),
        s.doc_keys.contains_key(doc_key),
        document::rows_encode(s, document::rows_of_document(s, s.doc_keys[doc_key])),
        owns_its_keys(s, s.doc_keys[doc_key]),
        log_changes(logged, document::delete_document_changes(s, doc_key)),
    ensures
        reversible(s, logged),
{
    let doc_id = s.doc_keys[doc_key];
    let rows = document::rows_of_document(s, doc_id);
    let changes = document::delete_document_changes(s, doc_key);
    let meta = s.docs[doc_id].meta;
    doc_guarantees::lemma_all_recorded(s, doc_id);
    assert forall|m: int| 0 <= m < logged.len() implies names_row(#[trigger] logged[m]) && recovery::ids_fit(logged[m]) && keeps_row(s, logged[m]) && keeps_key(s, logged[m]) by {
        assert(rows.contains(rows[m]));
        assert(changes[m] == document::removal_change(s, doc_id, doc_key, meta, rows[m]));
        lemma_removal_kept(s, doc_id, doc_key, meta, rows[m], logged[m]);
    }
    assert forall|i: int, j: int| 0 <= i < j < logged.len() && (#[trigger] logged[i]).row_id == (#[trigger] logged[j]).row_id implies logged[i].key == logged[j].key by {
        assert(rows[i] < rows[j]);
    }
}

/// The insertion of a document can be undone, as long as none of its chunks'
/// keys was taken.
pub proof fn document_puts_are_reversible(c: CollectionView, input: PutDocumentInput, logged: Seq<RecordView>)
    requires
        collection::sound(c.state),
        c.state.next_row + input.chunks@.len() <= collection::row_capacity(),
        c.state.next_doc < u64::MAX,
        document::put_document_plan(c, input) is Ok,
        forall|k: Seq<char>| #[trigger] doc_guarantees::is_chunk_key(input.doc_key@, input.chunks@.len(), k) ==> !c.state.keys.contains_key(k),
        log_changes(logged, (document::put_document_plan(c, input)->Ok_0).1),
    ensures
        reversible(c.state, logged),
{
    let s = c.state;
    let doc_key = input.doc_key@;
    assert forall|m: int| 0 <= m < logged.len() implies names_row(#[trigger] logged[m]) && recovery::ids_fit(logged[m]) && keeps_row(s, logged[m]) && keeps_key(s, logged[m]) by {
        let id = (s.next_row + m) as u64;
        if s.live.contains(id as u32) {
            assert(s.rows.contains_key(id as u32 as u64));
        }
        let n = m as nat;
        assert(logged[m].key == Some(document::chunk_key_of(doc_key, n)));
        assert(doc_guarantees::is_chunk_key(doc_key, input.chunks@.len(), document::chunk_key_of(doc_key, n)));
    }
}

/// The replacement of a document can be undone, as long as each of its rows
/// is the one that its key leads to, and no key of its new chunks led to
/// another row.
pub proof fn document_replacements_are_reversible(c: CollectionView, doc_key: Seq<char>, chunks: Seq<ChunkView>, fields: FieldsView, meta: WalDocMeta, logged: Seq<RecordView>)
    requires
        collection::sound(c.state),
        consistency::linked(c.state),
        c.state.doc_keys.contains_key(doc_key),
        document::rows_encode(c.state, document::rows_of_document(c.state, c.state.doc_keys[doc_key])),
        owns_its_keys(c.state, c.state.doc_keys[doc_key]),
        c.state.next_row + chunks.len() <= collection::row_capacity(),
        forall|k: Seq<char>| #[trigger] doc_guarantees::is_chunk_key(doc_key, chunks.len(), k) && c.state.keys.contains_key(k) ==>
            c.state.keys[k] <= u32::MAX && c.state.docs[c.state.doc_keys[doc_key]].rows.contains(c.state.keys[k] as u32),
        log_changes(
            logged,
            document::removal_changes(
                c.state, c.state.doc_keys[doc_key], doc_key, c.state.docs[c.state.doc_keys[doc_key]].meta,
                document::rows_of_document(c.state, c.state.doc_keys[doc_key]),
            ) + document::chunk_changes(c.state.doc_keys[doc_key], doc_key, c.state.next_row, chunks, fields, meta),
        ),
    ensures
        reversible(c.state, logged),
{
    let s = c.state;
    let doc_id = s.doc_keys[doc_key];
    let old_meta = s.docs[doc_id].meta;
    let rows = document::rows_of_document(s, doc_id);
    let removals = document::removal_changes(s, doc_id, doc_key, old_meta, rows);
    let additions = document::chunk_changes(doc_id, doc_key, s.next_row, chunks, fields, meta);
    let changes = removals + additions;
    let off = rows.len() as int;
    doc_guarantees::lemma_all_recorded(s, doc_id);
    assert forall|m: int| 0 <= m < logged.len() implies names_row(#[trigger] logged[m]) && recovery::ids_fit(logged[m]) && keeps_row(s, logged[m])
        && (!touches_key(logged, m, logged[m].key->0) ==> keeps_key(s, logged[m])) by {
        if m < off {
            assert(changes[m] == removals[m]);
            assert(rows.contains(rows[m]));
            lemma_removal_kept(s, doc_id, doc_key, old_meta, rows[m], logged[m]);
        } else {
            let n = (m - off) as nat;
            assert(changes[m] == additions[n as int]);
            let id = (s.next_row + n) as u64;
            if s.live.contains(id as u32) {
                assert(s.rows.contains_key(id as u32 as u64));
            }
            let key = document::chunk_key_of(doc_key, n);
            assert(logged[m].key == Some(key));
            assert(doc_guarantees::is_chunk_key(doc_key, chunks.len(), key));
            if s.keys.contains_key(key) {
                let row = s.keys[key] as u32;
                assert(rows.contains(row));
                let i = choose|i: int| 0 <= i < rows.len() && rows[i] == row;
                assert(changes[i] == removals[i]);
                assert(s.rows[row as u64].key == key);
                assert(logged[i].key == Some(key));
                assert(touches_key(logged, m, key));
            }
        }
    }
    assert forall|i: int, j: int| 0 <= i < j < logged.len() && (#[trigger] logged[i]).row_id == (#[trigger] logged[j]).row_id implies logged[i].key == logged[j].key by {
        if j < off {
            assert(changes[i] == removals[i] && changes[j] == removals[j]);
            assert(rows[i] < rows[j]);
        } else if i < off {
            assert(changes[i] == removals[i] && changes[j] == additions[j - off]);
            assert(rows.contains(rows[i]));
            assert(s.live.contains(rows[i]));
            assert(s.rows.contains_key(rows[i] as u64));
        } else {
            assert(changes[i] == additions[i - off] && changes[j] == additions[j - off]);
        }
    }
}

proof fn lemma_documents_shrink(t: StateView, back: Seq<RecordView>, n: nat, doc_id: u64)
    requires
        n <= back.len(),
        forall|i: int| 0 <= i < back.len() ==> (#[trigger] back[i]).op == WalOp::Delete && back[i].row_id is Some,
    ensures
        ({
            let u = recovery::applied_records(t, back, n).0;
            &&& u.docs.contains_key(doc_id) == t.docs.contains_key(doc_id)
            &&& u.docs[doc_id].rows.subset_of(t.docs[doc_id].rows)
            &&& u.docs[doc_id].doc_key == t.docs[doc_id].doc_key
        }),
    decreases n,
{
    if n > 0 {
        lemma_documents_shrink(t, back, (n - 1) as nat, doc_id);
        assert(back[n - 1].op == WalOp::Delete);
    }
}

/// A document that is put and then undone is gone again: it is not
/// registered, its key leads nowhere, and none of its rows is live.
pub proof fn an_undone_document_is_gone(s: StateView, t: StateView, doc_id: u64, doc_key: Seq<char>, first: u64, count: nat, group: Seq<RecordView>, back: Seq<RecordView>)
    requires
        collection::sound(s),
        collection::sound(t),
        consistency::linked(t),
        0 < count <= u32::MAX,
        first == s.next_row,
        first + count <= collection::row_capacity(),
        t.docs.contains_key(doc_id),
        t.docs[doc_id].rows == doc_guarantees::row_run(first, count),
        t.docs[doc_id].doc_key == doc_key,
        group.len() == count,
        forall|i: int| 0 <= i < group.len() ==> (#[trigger] group[i]).op == WalOp::Insert && group[i].row_id == Some((first + i) as u64) && group[i].doc_id == Some(doc_id),
        reversible(s, group),
        agree(group),
        still_placed(t, group),
        reverses(group, back),
        forall|i: int, j: int| 0 <= i < back.len() && 0 <= j < back.len() ==> (#[trigger] back[i]).txn == (#[trigger] back[j]).txn,
    ensures
        ({
            let u = recovery::applied_from(t, back, 0).0;
            &&& recovery::applied_from(t, back, 0).1 is None
            &&& !u.docs.contains_key(doc_id)
            &&& !u.doc_keys.contains_key(doc_key)
            &&& forall|row: u32| #[trigger] doc_guarantees::row_run(first, count).contains(row) ==> !u.live.contains(row)
        }),
{
    assert forall|i: int| 0 <= i < back.len() implies (#[trigger] back[i]).op == WalOp::Delete && back[i].row_id is Some && back[i].doc_id == Some(doc_id)
        && recovery::clean(t.payload, back[i]) by {
        let r = group[group.len() - 1 - i];
        assert(r.op == WalOp::Insert);
        assert(names_row(r));
    }
    undoing_brings_rows_back(s, group, t, back);
    an_undo_keeps_in_step(t, group, back);
    recovery::clean_transaction_applies(t, back);
    let u = recovery::applied_from(t, back, 0).0;
    let w = recovery::applied_records(t, back, back.len()).0;
    lemma_documents_shrink(t, back, back.len(), doc_id);
    assert forall|row: u32| #[trigger] doc_guarantees::row_run(first, count).contains(row) implies !u.live.contains(row) by {
        let i = row - first;
        assert(group[i].row_id == Some(row as u64));
        assert(touches_row(group, group.len() as int, row as u64));
        assert(same_row(s, u, row as u64));
        if s.live.contains(row) {
            assert(s.rows.contains_key(row as u64));
        }
    }
    let touched = recovery::touched_docs(back);
    assert(back[0].doc_id == Some(doc_id));
    assert(touched.contains(doc_id));
    assert(consistency::linked(w)) by {
        assert forall|n: nat| n < back.len() implies consistency::suits(recovery::applied_records(t, back, n).0, #[trigger] back[n as int]) by {
            recovery::lemma_clean_prefix(t, back, n);
            lemma_still_placed(t, group, back, n);
            let r = group[group.len() - 1 - n];
            assert(names_row(r) && recovery::ids_fit(r));
        }
        assert forall|i: int| 0 <= i < back.len() implies recovery::ids_fit(#[trigger] back[i]) by {
            let r = group[group.len() - 1 - i];
            assert(names_row(r) && recovery::ids_fit(r));
        }
        recovery::lemma_clean_prefix(t, back, back.len());
        consistency::records_keep_in_step(t, back, back.len());
    }
    assert(w.docs[doc_id].rows =~= Set::<u32>::empty()) by {
        assert forall|row: u32| !w.docs[doc_id].rows.contains(row) by {
            if w.docs[doc_id].rows.contains(row) {
                assert(doc_guarantees::row_run(first, count).contains(row));
                assert(w.live.contains(row));
                assert(u.live == w.live);
            }
        }
    }
    assert(recovery::emptied(w, touched, doc_id));
}

} // verus!
