//! Checkpoints: a collection's state at a log position, so that a restart
//! only has to replay the log's tail.

use crate::bitmap::{bitmap_contains, bitmap_insert, bitmap_new};
use crate::collection;
use crate::collection::{Collection, CollectionView};
use crate::consistency;
use crate::encoding;
use crate::encoding::crc32c_sum;
use crate::error::StorageResult;
use crate::fields::PayloadRow;
use crate::ids::{DocId, RowId};
use crate::lsn::Lsn;
use crate::model::DistanceMetric;
use crate::order;
use crate::payload;
use crate::payload::{PayloadSchema, PayloadStore};
use crate::recovery;
use crate::recovery::apply_replayed_records;
use crate::state;
use crate::state::{copy_vector, CollectionInner, DocEntry, DocView, RowRecord, RowView, StateView};
use crate::text;
use crate::text::{copy_opt, parse_framed, push_padded};
use crate::txn_index;
use crate::txn_index::{EntryView, TxnEntry};
use crate::wal;
use crate::wal::{RecordView, WalRecord, WalWriter};
use std::collections::BTreeMap;
use vstd::hash_map::StringHashMap;
use vstd::prelude::*;
use vstd::string::*;

verus! {

/// A row in a checkpoint. Whether it was live cannot be told from anything
/// else, so it is kept with the row.
pub struct SnapshotRow {
    pub row_id: RowId,
    pub key: String,
    pub vector: Vec<u32>,
    pub fields: PayloadRow,
    pub extra: Option<String>,
    pub text: Option<String>,
    pub doc_id: Option<DocId>,
    pub chunk_ord: Option<u32>,
    pub live: bool,
}

/// The contents of a [`SnapshotRow`].
pub struct SnapshotRowView {
    pub row_id: u64,
    pub row: RowView,
    pub live: bool,
}

impl View for SnapshotRow {
    type V = SnapshotRowView;

    open spec fn view(&self) -> SnapshotRowView {
        SnapshotRowView {
            row_id: self.row_id.0,
            row: RowView {
                key: self.key@,
                vector: self.vector@,
                fields: self.fields@,
                extra: text::opt_text(self.extra),
                text: text::opt_text(self.text),
                doc_id: wal::opt_doc(self.doc_id),
                chunk_ord: self.chunk_ord,
            },
            live: self.live,
        }
    }
}

/// A collection's state at a log position. The columns are not part of it:
/// they are rebuilt from the rows.
pub struct CollectionSnapshot {
    pub last_applied_lsn: Lsn,
    pub next_row_id: u64,
    pub next_doc_id: u64,
    pub rows: Vec<SnapshotRow>,
    pub docs: Vec<DocEntry>,
    /// Oldest first.
    pub txn_entries: Vec<TxnEntry>,
}

/// The contents of a [`CollectionSnapshot`].
pub struct SnapshotView {
    pub applied: u64,
    pub next_row: u64,
    pub next_doc: u64,
    pub rows: Seq<SnapshotRowView>,
    pub docs: Seq<DocView>,
    pub txns: Seq<EntryView>,
}

/// The contents of a list of checkpointed rows.
pub open spec fn snapshot_row_views(s: Seq<SnapshotRow>) -> Seq<SnapshotRowView> {
    Seq::new(s.len(), |i: int| s[i]@)
}

/// The contents of a list of documents.
pub open spec fn doc_entry_views(s: Seq<DocEntry>) -> Seq<DocView> {
    Seq::new(s.len(), |i: int| s[i]@)
}

impl View for CollectionSnapshot {
    type V = SnapshotView;

    open spec fn view(&self) -> SnapshotView {
        SnapshotView {
            applied: self.last_applied_lsn.0,
            next_row: self.next_row_id,
            next_doc: self.next_doc_id,
            rows: snapshot_row_views(self.rows@),
            docs: doc_entry_views(self.docs@),
            txns: txn_index::entry_views(self.txn_entries@),
        }
    }
}

/// Whether `rows` are all the rows of a state, ascending, each with whether
/// it is live.
pub open spec fn lists_rows(s: StateView, rows: Seq<SnapshotRowView>) -> bool {
    &&& forall|i: int, j: int| 0 <= i < j < rows.len() ==> (#[trigger] rows[i]).row_id < (#[trigger] rows[j]).row_id
    &&& forall|i: int| 0 <= i < rows.len() ==> s.rows.contains_key((#[trigger] rows[i]).row_id)
        && rows[i].row == s.rows[rows[i].row_id] && rows[i].live == s.live.contains(rows[i].row_id as u32)
    &&& forall|id: u64| #[trigger] s.rows.contains_key(id) ==> exists|i: int| 0 <= i < rows.len() && (#[trigger] rows[i]).row_id == id
}

/// Whether `docs` are all the documents of a state, ascending.
pub open spec fn lists_documents(s: StateView, docs: Seq<DocView>) -> bool {
    &&& forall|i: int, j: int| 0 <= i < j < docs.len() ==> (#[trigger] docs[i]).doc_id < (#[trigger] docs[j]).doc_id
    &&& forall|i: int| 0 <= i < docs.len() ==> s.docs.contains_key((#[trigger] docs[i]).doc_id) && docs[i] == s.docs[docs[i].doc_id]
    &&& forall|d: u64| #[trigger] s.docs.contains_key(d) ==> exists|i: int| 0 <= i < docs.len() && (#[trigger] docs[i]).doc_id == d
}

/// Whether a checkpoint captures a state.
pub open spec fn captures(s: StateView, snap: SnapshotView) -> bool {
    &&& snap.applied == s.applied
    &&& snap.next_row == s.next_row
    &&& snap.next_doc == s.next_doc
    &&& lists_rows(s, snap.rows)
    &&& lists_documents(s, snap.docs)
    &&& snap.txns == txn_index::chronological(s.txns, s.txns.order.len())
}

/// The state with one more row of a checkpoint. Only a live row has a key and
/// columns.
pub open spec fn with_snapshot_row(s: StateView, r: SnapshotRowView) -> StateView {
    let kept = StateView { rows: s.rows.insert(r.row_id, r.row), ..s };
    if r.live {
        StateView {
            keys: s.keys.insert(r.row.key, r.row_id),
            live: s.live.insert(r.row_id as u32),
            payload: payload::with_row(s.payload, r.row_id as u32, r.row.fields),
            ..kept
        }
    } else {
        kept
    }
}

/// The state with the first `n` rows of a checkpoint.
pub open spec fn with_snapshot_rows(s: StateView, rows: Seq<SnapshotRowView>, n: nat) -> StateView
    decreases n,
{
    if n == 0 { s } else { with_snapshot_row(with_snapshot_rows(s, rows, (n - 1) as nat), rows[n - 1]) }
}

/// The state with the first `n` documents of a checkpoint.
pub open spec fn with_snapshot_docs(s: StateView, docs: Seq<DocView>, n: nat) -> StateView
    decreases n,
{
    if n == 0 {
        s
    } else {
        let t = with_snapshot_docs(s, docs, (n - 1) as nat);
        let d = docs[n - 1];
        StateView { doc_keys: t.doc_keys.insert(d.doc_key, d.doc_id), docs: t.docs.insert(d.doc_id, d), ..t }
    }
}

/// The index after the first `n` transactions of a checkpoint.
pub open spec fn with_snapshot_txns(ix: txn_index::IndexView, txns: Seq<EntryView>, n: nat) -> txn_index::IndexView
    decreases n,
{
    if n == 0 { ix } else { txn_index::recorded(with_snapshot_txns(ix, txns, (n - 1) as nat), txns[n - 1]) }
}

/// A state seeded from a checkpoint.
pub open spec fn restored(s: StateView, snap: SnapshotView) -> StateView {
    let seeded = StateView {
        applied: snap.applied,
        next_row: snap.next_row,
        next_doc: snap.next_doc,
        keys: Map::empty(),
        rows: Map::empty(),
        live: Set::empty(),
        doc_keys: Map::empty(),
        docs: Map::empty(),
        ..s
    };
    let with_rows = with_snapshot_rows(seeded, snap.rows, snap.rows.len());
    let with_docs = with_snapshot_docs(with_rows, snap.docs, snap.docs.len());
    StateView { txns: with_snapshot_txns(with_docs.txns, snap.txns, snap.txns.len()), ..with_docs }
}

/// Whether a checkpoint's row can be seeded: its id has a bitmap position,
/// and if it is live the schema accepts its fields.
pub open spec fn row_fits(s: payload::StoreView, r: SnapshotRowView) -> bool {
    r.row_id <= u32::MAX && (r.live ==> payload::row_refusal(s, r.row.fields) is None)
}

/// Whether all of a checkpoint's rows can be seeded.
pub open spec fn rows_fit(s: payload::StoreView, rows: Seq<SnapshotRowView>) -> bool {
    forall|i: int| 0 <= i < rows.len() ==> row_fits(s, #[trigger] rows[i])
}

fn capture_rows(inner: &CollectionInner) -> (r: Vec<SnapshotRow>)
    requires
        collection::sound(inner@),
    ensures
        lists_rows(inner@, snapshot_row_views(r@)),
{
    broadcast use vstd::std_specs::btree::group_btree_axioms;

    let ghost s = inner@;
    let mut out: Vec<SnapshotRow> = Vec::new();
    let ghost all = vstd::std_specs::iter::IteratorSpec::remaining(&inner.rows.iter());
    let ghost keys = all.map_values(|kv: (&u64, &RowRecord)| *kv.0);
    for (id, rec) in it: inner.rows.iter()
        invariant
            it.seq() == all,
            s == inner@,
            collection::sound(s),
            out@.len() == it.index(),
            forall|i: int| 0 <= i < all.len() ==> inner.rows@.contains_key(*(#[trigger] all[i]).0),
            forall|i: int| 0 <= i < out@.len() ==> (#[trigger] out@[i])@ == (SnapshotRowView {
                row_id: *all[i].0,
                row: (*all[i].1)@,
                live: s.live.contains(*all[i].0 as u32),
            }),
    {
        assert(inner.rows@.contains_key(*all[it.index() as int].0));
        assert(s.rows.contains_key(*id));
        let row_id = RowId(*id);
        out.push(SnapshotRow {
            row_id,
            key: rec.key.clone(),
            vector: copy_vector(&rec.vector),
            fields: rec.fields.clone(),
            extra: copy_opt(&rec.extra),
            text: copy_opt(&rec.text),
            doc_id: rec.doc_id,
            chunk_ord: rec.chunk_ord,
            live: bitmap_contains(&inner.live, row_id.to_bitmap_index()),
        });
    }
    proof {
        let views = snapshot_row_views(out@);
        assert(vstd::std_specs::btree::increasing_seq(keys));
        assert forall|i: int| 0 <= i < views.len() implies s.rows.contains_key((#[trigger] views[i]).row_id)
            && views[i].row == s.rows[views[i].row_id] && views[i].live == s.live.contains(views[i].row_id as u32) by {
            assert(views[i] == out@[i]@);
            assert(inner.rows@[*all[i].0] == *all[i].1);
        }
        assert forall|i: int, j: int| 0 <= i < j < views.len() implies (#[trigger] views[i]).row_id < (#[trigger] views[j]).row_id by {
            assert(views[i] == out@[i]@ && views[j] == out@[j]@);
            assert(keys[i] == views[i].row_id && keys[j] == views[j].row_id);
            order::lemma_increasing(keys, i, j);
        }
        assert forall|id: u64| #[trigger] s.rows.contains_key(id) implies exists|i: int| 0 <= i < views.len() && (#[trigger] views[i]).row_id == id by {
            assert(inner.rows@.contains_key(id));
            assert(all.contains((&id, &inner.rows@[id])));
            let i = choose|i: int| 0 <= i < all.len() && all[i] == (&id, &inner.rows@[id]);
            assert(views[i] == out@[i]@);
            assert(views[i].row_id == id);
        }
    }
    out
}

fn capture_docs(inner: &CollectionInner) -> (r: Vec<DocEntry>)
    requires
        collection::sound(inner@),
    ensures
        lists_documents(inner@, doc_entry_views(r@)),
{
    broadcast use vstd::std_specs::btree::group_btree_axioms;

    let ghost s = inner@;
    let mut out: Vec<DocEntry> = Vec::new();
    let ghost all = vstd::std_specs::iter::IteratorSpec::remaining(&inner.docs.iter());
    let ghost keys = all.map_values(|kv: (&u64, &DocEntry)| *kv.0);
    for (k, entry) in it: inner.docs.iter()
        invariant
            it.seq() == all,
            out@.len() == it.index(),
            forall|i: int| 0 <= i < out@.len() ==> (#[trigger] out@[i])@ == (*all[i].1)@,
    {
        out.push(entry.clone());
    }
    proof {
        let views = doc_entry_views(out@);
        assert(vstd::std_specs::btree::increasing_seq(keys));
        assert forall|i: int| 0 <= i < out@.len() implies inner.docs@.contains_key(*(#[trigger] all[i]).0)
            && inner.docs@[*all[i].0] == *all[i].1 by {}
        assert forall|i: int| 0 <= i < views.len() implies s.docs.contains_key((#[trigger] views[i]).doc_id)
            && views[i] == s.docs[views[i].doc_id] && views[i].doc_id == *all[i].0 by {
            let d = *all[i].0;
            assert(views[i] == out@[i]@);
            assert(s.docs.contains_key(d));
            assert(s.docs[d] == (*all[i].1)@);
        }
        assert forall|i: int, j: int| 0 <= i < j < views.len() implies (#[trigger] views[i]).doc_id < (#[trigger] views[j]).doc_id by {
            assert(keys[i] == views[i].doc_id && keys[j] == views[j].doc_id);
            order::lemma_increasing(keys, i, j);
        }
        assert forall|d: u64| #[trigger] s.docs.contains_key(d) implies exists|i: int| 0 <= i < views.len() && (#[trigger] views[i]).doc_id == d by {
            assert(inner.docs@.contains_key(d));
            assert(all.contains((&d, &inner.docs@[d])));
            let i = choose|i: int| 0 <= i < all.len() && all[i] == (&d, &inner.docs@[d]);
            assert(views[i].doc_id == d);
        }
    }
    out
}

impl CollectionSnapshot {
    /// A checkpoint of a state.
    pub fn capture(inner: &CollectionInner) -> (r: Self)
        requires
            collection::sound(inner@),
        ensures
            captures(inner@, r@),
    {
        CollectionSnapshot {
            last_applied_lsn: inner.last_applied_lsn,
            next_row_id: inner.next_row_id,
            next_doc_id: inner.next_doc_id,
            rows: capture_rows(inner),
            docs: capture_docs(inner),
            txn_entries: inner.txn_index.iter_chronological(),
        }
    }

    /// The log position that the checkpoint stands at.
    pub fn last_applied_lsn(&self) -> (r: Lsn)
        ensures
            r.0 == self@.applied,
    {
        self.last_applied_lsn
    }

    /// Whether the checkpoint's rows can be seeded into a store.
    pub fn fits(&self, store: &PayloadStore) -> (r: bool)
        requires
            store.wf(),
        ensures
            r == rows_fit(store@, self@.rows),
    {
        let ghost views = self@.rows;
        let mut i: usize = 0;
        while i < self.rows.len()
            invariant
                i <= self.rows@.len(),
                store.wf(),
                views == snapshot_row_views(self.rows@),
                forall|j: int| 0 <= j < i ==> row_fits(store@, #[trigger] views[j]),
            decreases self.rows@.len() - i,
        {
            let row = &self.rows[i];
            assert(views[i as int] == row@);
            if row.row_id.0 > 0xffff_ffff {
                assert(!row_fits(store@, views[i as int]));
                return false;
            }
            if row.live {
                match store.validate_row(&row.fields) {
                    Ok(_) => {},
                    Err(_) => {
                        assert(!row_fits(store@, views[i as int]));
                        return false;
                    },
                }
            }
            i += 1;
        }
        true
    }
}

proof fn lemma_schema_kept(s: StateView, rows: Seq<SnapshotRowView>, n: nat)
    ensures
        with_snapshot_rows(s, rows, n).payload.schema == s.payload.schema,
        with_snapshot_rows(s, rows, n).payload.strict == s.payload.strict,
    decreases n,
{
    if n > 0 {
        lemma_schema_kept(s, rows, (n - 1) as nat);
    }
}

fn restore_row(inner: &mut CollectionInner, r: &SnapshotRow)
    requires
        old(inner).wf(),
        row_fits(old(inner)@.payload, r@),
    ensures
        final(inner).wf(),
        final(inner)@ == with_snapshot_row(old(inner)@, r@),
{
    if r.live {
        bitmap_insert(&mut inner.live, r.row_id.to_bitmap_index());
        inner.key_to_row.insert(r.key.clone(), r.row_id.0);
        match inner.payload.set_row(r.row_id, &r.fields) {
            Ok(_) => {},
            Err(_) => { assert(false); },
        }
    }
    let row = RowRecord {
        key: r.key.clone(),
        vector: copy_vector(&r.vector),
        fields: r.fields.clone(),
        extra: copy_opt(&r.extra),
        text: copy_opt(&r.text),
        doc_id: r.doc_id,
        chunk_ord: r.chunk_ord,
    };
    assert(row@ == r@.row);
    let ghost before = inner.rows@;
    inner.rows.insert(r.row_id.0, row);
    assert(inner@.rows =~= state::row_views(before).insert(r.row_id.0, r@.row));
}

impl CollectionSnapshot {
    /// Seeds a state from the checkpoint. What the state held before is
    /// dropped, but for its schema and its transactions.
    pub fn restore_into(&self, inner: &mut CollectionInner)
        requires
            old(inner).wf(),
            rows_fit(old(inner)@.payload, self@.rows),
        ensures
            final(inner).wf(),
            final(inner)@ == restored(old(inner)@, self@),
    {
        inner.last_applied_lsn = self.last_applied_lsn;
        inner.next_row_id = self.next_row_id;
        inner.next_doc_id = self.next_doc_id;
        inner.rows = BTreeMap::new();
        inner.key_to_row = StringHashMap::new();
        inner.live = bitmap_new();
        inner.docs = BTreeMap::new();
        inner.doc_key_to_id = StringHashMap::new();
        let ghost seeded = inner@;
        let ghost snap = self@;
        proof {
            assert(inner@.rows =~= Map::<u64, RowView>::empty());
            assert(inner@.docs =~= Map::<u64, DocView>::empty());
        }
        let mut i: usize = 0;
        while i < self.rows.len()
            invariant
                i <= self.rows@.len(),
                snap == self@,
                inner.wf(),
                rows_fit(seeded.payload, snap.rows),
                inner@ == with_snapshot_rows(seeded, snap.rows, i as nat),
            decreases self.rows@.len() - i,
        {
            proof {
                assert(snap.rows[i as int] == self.rows@[i as int]@);
                assert(row_fits(seeded.payload, snap.rows[i as int]));
                lemma_schema_kept(seeded, snap.rows, i as nat);
                assert(payload::row_refusal(inner@.payload, snap.rows[i as int].row.fields) is None
                    <==> payload::row_refusal(seeded.payload, snap.rows[i as int].row.fields) is None);
            }
            restore_row(inner, &self.rows[i]);
            i += 1;
        }
        let ghost with_rows = inner@;
        let mut j: usize = 0;
        while j < self.docs.len()
            invariant
                j <= self.docs@.len(),
                snap == self@,
                inner.wf(),
                inner@ == with_snapshot_docs(with_rows, snap.docs, j as nat),
            decreases self.docs@.len() - j,
        {
            let entry = self.docs[j].clone();
            let ghost view = entry@;
            assert(snap.docs[j as int] == view);
            let ghost before = inner.docs@;
            inner.doc_key_to_id.insert(entry.doc_key.clone(), entry.doc_id.0);
            inner.docs.insert(entry.doc_id.0, entry);
            assert(inner@.docs =~= state::doc_views(before).insert(view.doc_id, view));
            j += 1;
        }
        let ghost with_docs = inner@;
        let mut k: usize = 0;
        while k < self.txn_entries.len()
            invariant
                k <= self.txn_entries@.len(),
                snap == self@,
                inner.wf(),
                inner@ == (StateView { txns: with_snapshot_txns(with_docs.txns, snap.txns, k as nat), ..with_docs }),
            decreases self.txn_entries@.len() - k,
        {
            assert(snap.txns[k as int] == self.txn_entries@[k as int]@);
            inner.txn_index.record(self.txn_entries[k].clone());
            k += 1;
        }
    }
}

/// The name of a generation's checkpoint file.
pub open spec fn checkpoint_name(generation: u64) -> Seq<char> {
    "snapshot-"@ + text::zero_padded(text::decimal(generation as nat), 10) + ".mdb"@
}

/// The generation that a file name stands for, if it names a checkpoint.
pub open spec fn named_generation(name: Seq<char>) -> Option<nat> {
    text::framed_number(name, "snapshot-"@, ".mdb"@, u64::MAX as nat)
}

/// The name of a generation's checkpoint file.
pub fn checkpoint_path(generation: u64) -> (r: String)
    ensures
        r@ == checkpoint_name(generation),
{
    let mut out = "snapshot-".to_owned();
    push_padded(&mut out, generation, 10, 10);
    out.append(".mdb");
    out
}

/// A generation can be read off the name of its checkpoint file.
pub proof fn checkpoint_name_round_trips(generation: u64)
    ensures
        named_generation(checkpoint_name(generation)) == Some(generation as nat),
{
    text::framed_number_round_trips(generation as nat, "snapshot-"@, ".mdb"@, 10, u64::MAX as nat);
}

/// The generations that file names stand for, in the names' order.
pub open spec fn named_generations(names: Seq<Seq<char>>) -> Seq<u64>
    decreases names.len(),
{
    if names.len() == 0 {
        Seq::empty()
    } else {
        match named_generation(names.last()) {
            Some(g) => named_generations(names.drop_last()).push(g as u64),
            None => named_generations(names.drop_last()),
        }
    }
}

/// Whether a list of generations is ascending.
pub open spec fn ascending(s: Seq<u64>) -> bool {
    forall|i: int, j: int| 0 <= i < j < s.len() ==> s[i] <= s[j]
}

/// The generations among some file names, ascending.
pub fn list_generations(names: &Vec<String>) -> (r: Vec<u64>)
    ensures
        ascending(r@),
        r@.to_multiset() == named_generations(text::texts(names@)).to_multiset(),
{
    let ghost all = text::texts(names@);
    let mut out: Vec<u64> = Vec::new();
    let mut i: usize = 0;
    assert(all.take(0) =~= Seq::<Seq<char>>::empty());
    while i < names.len()
        invariant
            i <= names@.len(),
            all == text::texts(names@),
            ascending(out@),
            out@.to_multiset() == named_generations(all.take(i as int)).to_multiset(),
        decreases names@.len() - i,
    {
        let ghost t = all.take(i + 1);
        assert(t.drop_last() =~= all.take(i as int));
        assert(t.last() == names@[i as int]@);
        match parse_framed(names[i].as_str(), "snapshot-", ".mdb", u64::MAX) {
            Some(g) => {
                let mut at: usize = out.len();
                while at > 0 && out[at - 1] > g
                    invariant
                        at <= out@.len(),
                        ascending(out@),
                        forall|k: int| at <= k < out@.len() ==> out@[k] > g,
                    decreases at,
                {
                    at -= 1;
                }
                proof {
                    let ghost prev = named_generations(all.take(i as int));
                    vstd::seq_lib::to_multiset_insert(out@, at as int, g);
                    vstd::seq_lib::to_multiset_build(prev, g);
                    assert forall|a: int, b: int| 0 <= a < b < out@.insert(at as int, g).len() implies
                        out@.insert(at as int, g)[a] <= out@.insert(at as int, g)[b] by {
                        if at > 0 {
                            assert(out@[at - 1] <= g);
                        }
                    }
                }
                out.insert(at, g);
            },
            None => {},
        }
        i += 1;
    }
    assert(all.take(i as int) =~= all);
    out
}

/// The generation after the newest of `gens` (ascending), the first if there
/// is none.
pub fn next_generation(gens: &Vec<u64>) -> (r: u64)
    requires
        gens@.len() > 0 ==> gens@.last() < u64::MAX,
    ensures
        r == if gens@.len() > 0 { gens@.last() + 1 } else { 0 },
        ascending(gens@) ==> forall|i: int| 0 <= i < gens@.len() ==> #[trigger] gens@[i] < r,
{
    if gens.len() > 0 { gens[gens.len() - 1] + 1 } else { 0 }
}

/// The generations (of `gens`, ascending) that go when the newest `keep` stay.
pub fn retain_generations(gens: &Vec<u64>, keep: usize) -> (r: Vec<u64>)
    ensures
        r@ == gens@.take(if gens@.len() <= keep { 0 } else { gens@.len() - keep }),
        gens@.len() <= keep ==> r@.len() == 0,
        gens@.len() > keep ==> r@.len() + keep == gens@.len(),
        ascending(gens@) ==> forall|i: int, j: int| 0 <= i < r@.len() && r@.len() <= j < gens@.len() ==> #[trigger] r@[i] <= #[trigger] gens@[j],
{
    let mut out: Vec<u64> = Vec::new();
    let go: usize = if gens.len() <= keep { 0 } else { gens.len() - keep };
    while out.len() < go
        invariant
            go <= gens@.len(),
            out@.len() <= go,
            out@ == gens@.take(out@.len() as int),
        decreases go - out@.len(),
    {
        out.push(gens[out.len()]);
        assert(out@ =~= gens@.take(out@.len() as int));
    }
    out
}

/// The order in which generations (ascending) are tried: the newest first.
pub fn load_order(gens: &Vec<u64>) -> (r: Vec<u64>)
    ensures
        r@ == gens@.reverse(),
        r@.len() == gens@.len(),
        ascending(gens@) ==> forall|i: int, j: int| 0 <= i < j < r@.len() ==> r@[i] >= r@[j],
{
    let mut out: Vec<u64> = Vec::new();
    while out.len() < gens.len()
        invariant
            out@.len() <= gens@.len(),
            forall|i: int| 0 <= i < out@.len() ==> #[trigger] out@[i] == gens@[gens@.len() - 1 - i],
        decreases gens@.len() - out@.len(),
    {
        let at = gens.len() - 1 - out.len();
        out.push(gens[at]);
    }
    assert(out@ =~= gens@.reverse());
    out
}

/// A checkpoint file's bytes: the checksum of the payload, little-endian,
/// then the payload.
pub open spec fn framed(payload: Seq<u8>) -> Seq<u8> {
    encoding::vector_bytes(seq![encoding::crc32c_of(payload)]) + payload
}

/// The payload of a checkpoint file, if the file is whole.
pub open spec fn unframed(bytes: Seq<u8>) -> Option<Seq<u8>> {
    if bytes.len() < 4 || encoding::le_word(bytes[0], bytes[1], bytes[2], bytes[3]) != encoding::crc32c_of(bytes.skip(4)) {
        None
    } else {
        Some(bytes.skip(4))
    }
}

/// Puts a payload under its checksum.
pub fn frame_checkpoint(payload: &Vec<u8>) -> (r: Vec<u8>)
    ensures
        r@ == framed(payload@),
{
    let w = crc32c_sum(payload.as_slice());
    let mut out: Vec<u8> = Vec::new();
    out.push((w % 256) as u8);
    out.push(((w / 256) % 256) as u8);
    out.push(((w / 65536) % 256) as u8);
    out.push((w / 16777216) as u8);
    assert(out@ =~= encoding::vector_bytes(seq![w]));
    let ghost head = out@;
    let mut i: usize = 0;
    while i < payload.len()
        invariant
            i <= payload@.len(),
            out@ == head + payload@.take(i as int),
        decreases payload@.len() - i,
    {
        out.push(payload[i]);
        i += 1;
        assert(out@ =~= head + payload@.take(i as int));
    }
    assert(payload@.take(i as int) =~= payload@);
    out
}

/// The payload of a checkpoint file; nothing where the file is too short or
/// its checksum does not match.
pub fn open_checkpoint(bytes: &Vec<u8>) -> (r: Option<Vec<u8>>)
    ensures
        match r {
            Some(p) => unframed(bytes@) == Some(p@),
            None => unframed(bytes@) is None,
        },
{
    if bytes.len() < 4 {
        return None;
    }
    let stored: u32 = bytes[0] as u32 + bytes[1] as u32 * 256 + bytes[2] as u32 * 65536 + bytes[3] as u32 * 16777216;
    let mut payload: Vec<u8> = Vec::new();
    let mut i: usize = 4;
    while i < bytes.len()
        invariant
            4 <= i <= bytes@.len(),
            payload@ == bytes@.subrange(4, i as int),
        decreases bytes@.len() - i,
    {
        payload.push(bytes[i]);
        i += 1;
        assert(payload@ =~= bytes@.subrange(4, i as int));
    }
    assert(payload@ =~= bytes@.skip(4));
    if crc32c_sum(payload.as_slice()) != stored {
        return None;
    }
    Some(payload)
}

/// A checkpoint file gives back the payload that was put into it.
pub proof fn checkpoint_frame_round_trips(payload: Seq<u8>)
    ensures
        unframed(framed(payload)) == Some(payload),
{
    let sum = encoding::crc32c_of(payload);
    let head = encoding::vector_bytes(seq![sum]);
    let all = framed(payload);
    encoding::vector_bytes_round_trip(seq![sum]);
    assert(all.skip(4) =~= payload);
    assert(encoding::bytes_vector(head)[0] == seq![sum][0]);
    assert(head[0] == all[0] && head[1] == all[1] && head[2] == all[2] && head[3] == all[3]);
}

/// A checkpoint file that was cut to less than its checksum, or whose payload
/// no longer has the checksum it carries, is never taken for a checkpoint.
pub proof fn damaged_checkpoint_is_rejected(bytes: Seq<u8>)
    requires
        bytes.len() < 4 || encoding::crc32c_of(bytes.skip(4)) != encoding::le_word(bytes[0], bytes[1], bytes[2], bytes[3]),
    ensures
        unframed(bytes) is None,
{
}

/// The newest `keep` generations always stay.
pub proof fn newest_generations_stay(gens: Seq<u64>, keep: nat, i: int)
    requires
        0 <= i < gens.len(),
        gens.len() - keep <= i,
        forall|a: int, b: int| 0 <= a < b < gens.len() ==> gens[a] < gens[b],
    ensures
        !gens.take(if gens.len() <= keep { 0 } else { gens.len() - keep }).contains(gens[i]),
{
    let gone = gens.take(if gens.len() <= keep { 0 } else { gens.len() - keep });
    if gone.contains(gens[i]) {
        let k = choose|k: int| 0 <= k < gone.len() && gone[k] == gens[i];
        assert(gens[k] < gens[i]);
    }
}

/// Whether a checkpoint's parts fit together, as those of a captured state do.
pub open spec fn snapshot_sound(snap: SnapshotView) -> bool {
    &&& snap.next_row <= collection::row_capacity()
    &&& forall|i: int| 0 <= i < snap.rows.len() ==> (#[trigger] snap.rows[i]).row_id < snap.next_row
    &&& forall|i: int| 0 <= i < snap.rows.len() ==> ((#[trigger] snap.rows[i]).row.doc_id matches Some(d) ==> d < u64::MAX)
    &&& forall|i: int| 0 <= i < snap.docs.len() ==> (#[trigger] snap.docs[i]).doc_id < u64::MAX
}

impl CollectionSnapshot {
    /// Whether the checkpoint's numbers fit together, which opening a
    /// collection from it asks for.
    pub fn is_sound(&self) -> (r: bool)
        ensures
            r == snapshot_sound(self@),
    {
        if self.next_row_id > u32::MAX as u64 + 1 {
            return false;
        }
        let ghost rows = self@.rows;
        let ghost docs = self@.docs;
        let mut i: usize = 0;
        while i < self.rows.len()
            invariant
                i <= self.rows@.len(),
                rows == snapshot_row_views(self.rows@),
                forall|j: int| 0 <= j < i ==> (#[trigger] rows[j]).row_id < self.next_row_id,
                forall|j: int| 0 <= j < i ==> ((#[trigger] rows[j]).row.doc_id matches Some(d) ==> d < u64::MAX),
            decreases self.rows@.len() - i,
        {
            assert(rows[i as int] == self.rows@[i as int]@);
            if self.rows[i].row_id.0 >= self.next_row_id {
                return false;
            }
            match self.rows[i].doc_id {
                Some(d) => if d.0 == u64::MAX { return false; },
                None => {},
            }
            i += 1;
        }
        let mut i: usize = 0;
        while i < self.docs.len()
            invariant
                i <= self.docs@.len(),
                docs == doc_entry_views(self.docs@),
                forall|j: int| 0 <= j < i ==> (#[trigger] docs[j]).doc_id < u64::MAX,
            decreases self.docs@.len() - i,
        {
            assert(docs[i as int] == self.docs@[i as int]@);
            if self.docs[i].doc_id.0 == u64::MAX {
                return false;
            }
            i += 1;
        }
        true
    }
}

/// A captured state's checkpoint fits together.
pub proof fn captured_snapshot_is_sound(s: StateView, snap: SnapshotView)
    requires
        collection::sound(s),
        captures(s, snap),
    ensures
        snapshot_sound(snap),
{
}

/// The state with its schema enforced, or not.
pub open spec fn with_strictness(s: StateView, strict: bool) -> StateView {
    StateView { payload: payload::StoreView { strict, ..s.payload }, ..s }
}

/// The state that a collection is opened with, before the log's tail.
pub open spec fn opened_state(schema: payload::SchemaView, strict: bool, snap: Option<SnapshotView>) -> StateView {
    match snap {
        Some(v) => restored(state::fresh_state(schema, strict), v),
        None => state::fresh_state(schema, strict),
    }
}

/// The contents of an optional checkpoint.
pub open spec fn opt_snapshot(s: Option<CollectionSnapshot>) -> Option<SnapshotView> {
    match s {
        Some(v) => Some(v@),
        None => None,
    }
}

proof fn lemma_rows_sound(s: StateView, rows: Seq<SnapshotRowView>, n: nat, next: u64)
    requires
        n <= rows.len(),
        collection::sound(s),
        s.next_row == next,
        forall|i: int| 0 <= i < rows.len() ==> (#[trigger] rows[i]).row_id < next,
        forall|i: int| 0 <= i < rows.len() ==> ((#[trigger] rows[i]).row.doc_id matches Some(d) ==> d < u64::MAX),
    ensures
        collection::sound(with_snapshot_rows(s, rows, n)),
        with_snapshot_rows(s, rows, n).next_row == next,
    decreases n,
{
    if n > 0 {
        lemma_rows_sound(s, rows, (n - 1) as nat, next);
        let t = with_snapshot_rows(s, rows, (n - 1) as nat);
        let u = with_snapshot_rows(s, rows, n);
        let r = rows[n - 1];
        assert(r.row_id <= u32::MAX);
        assert forall|k: Seq<char>| #[trigger] u.keys.contains_key(k) implies u.rows.contains_key(u.keys[k]) by {
            if t.keys.contains_key(k) {
                assert(t.rows.contains_key(t.keys[k]));
            }
        }
        assert forall|x: u32| #[trigger] u.live.contains(x) implies u.rows.contains_key(x as u64) by {
            if t.live.contains(x) {
                assert(t.rows.contains_key(x as u64));
            }
        }
        assert forall|id: u64| #[trigger] u.rows.contains_key(id) implies id < u.next_row && (u.rows[id].doc_id matches Some(d) ==> d < u64::MAX) by {
            if t.rows.contains_key(id) {
                assert(id < t.next_row);
            }
        }
        assert forall|d: u64| #[trigger] u.docs.contains_key(d) implies u.docs[d].doc_id == d && d < u64::MAX by {
            assert(t.docs.contains_key(d));
        }
    }
}

proof fn lemma_docs_sound(s: StateView, docs: Seq<DocView>, n: nat)
    requires
        n <= docs.len(),
        collection::sound(s),
        forall|i: int| 0 <= i < docs.len() ==> (#[trigger] docs[i]).doc_id < u64::MAX,
    ensures
        collection::sound(with_snapshot_docs(s, docs, n)),
    decreases n,
{
    if n > 0 {
        lemma_docs_sound(s, docs, (n - 1) as nat);
        let t = with_snapshot_docs(s, docs, (n - 1) as nat);
        let u = with_snapshot_docs(s, docs, n);
        assert(docs[n - 1].doc_id < u64::MAX);
        assert forall|d: u64| #[trigger] u.docs.contains_key(d) implies u.docs[d].doc_id == d && d < u64::MAX by {
            if t.docs.contains_key(d) {
                assert(t.docs[d].doc_id == d);
            }
        }
        assert(u.keys == t.keys && u.rows == t.rows && u.live == t.live && u.next_row == t.next_row);
        assert forall|k: Seq<char>| #[trigger] u.keys.contains_key(k) implies u.rows.contains_key(u.keys[k]) by {
            assert(t.keys.contains_key(k));
        }
        assert forall|x: u32| #[trigger] u.live.contains(x) implies u.rows.contains_key(x as u64) by {
            assert(t.live.contains(x));
        }
        assert forall|id: u64| #[trigger] u.rows.contains_key(id) implies id < u.next_row && (u.rows[id].doc_id matches Some(e) ==> e < u64::MAX) by {
            assert(t.rows.contains_key(id));
        }
    }
}

proof fn lemma_restored_sound(s: StateView, snap: SnapshotView)
    requires
        snapshot_sound(snap),
    ensures
        collection::sound(restored(s, snap)),
{
    let seeded = StateView {
        applied: snap.applied,
        next_row: snap.next_row,
        next_doc: snap.next_doc,
        keys: Map::empty(),
        rows: Map::empty(),
        live: Set::empty(),
        doc_keys: Map::empty(),
        docs: Map::empty(),
        ..s
    };
    assert(collection::sound(seeded));
    lemma_rows_sound(seeded, snap.rows, snap.rows.len(), snap.next_row);
    let with_rows = with_snapshot_rows(seeded, snap.rows, snap.rows.len());
    lemma_docs_sound(with_rows, snap.docs, snap.docs.len());
    let u = with_snapshot_docs(with_rows, snap.docs, snap.docs.len());
    let v = restored(s, snap);
    assert(v.keys == u.keys && v.rows == u.rows && v.live == u.live && v.docs == u.docs && v.next_row == u.next_row);
    assert forall|k: Seq<char>| #[trigger] v.keys.contains_key(k) implies v.rows.contains_key(v.keys[k]) by {
        assert(u.keys.contains_key(k));
    }
    assert forall|x: u32| #[trigger] v.live.contains(x) implies v.rows.contains_key(x as u64) by {
        assert(u.live.contains(x));
    }
    assert forall|id: u64| #[trigger] v.rows.contains_key(id) implies id < v.next_row && (v.rows[id].doc_id matches Some(e) ==> e < u64::MAX) by {
        assert(u.rows.contains_key(id));
    }
    assert forall|d: u64| #[trigger] v.docs.contains_key(d) implies v.docs[d].doc_id == d && d < u64::MAX by {
        assert(u.docs.contains_key(d));
    }
}

impl Collection {
    /// Opens a durable collection: the newest checkpoint, if there is one,
    /// then the records of the log that come after it. `writer` is the cursor
    /// at which appending goes on. This is all there is to crash recovery.
    /// What was written under an earlier schema may have fields that are not
    /// declared any more; only writes from now on are held to `strict`.
    pub fn open(
        name: &str,
        dim: usize,
        metric: DistanceMetric,
        schema: PayloadSchema,
        strict: bool,
        snapshot: &Option<CollectionSnapshot>,
        replayed: &Vec<WalRecord>,
        writer: WalWriter,
    ) -> (r: StorageResult<Self>)
        requires
            snapshot matches Some(s) ==> snapshot_sound(s@) && rows_fit(state::fresh_state(schema@, false).payload, s@.rows),
            recovery::all_ids_fit(wal::record_views(replayed@)),
        ensures
            ({
                let (state, e) = recovery::applied_from(opened_state(schema@, false, opt_snapshot(*snapshot)), wal::record_views(replayed@), 0);
                match r {
                    Ok(c) => c.wf() && e is None && c@ == (CollectionView {
                        state: with_strictness(state, strict),
                        wal: Some(writer),
                        ..collection::fresh_collection(name@, dim, metric, schema@, strict)
                    }),
                    Err(x) => e == Some(x@),
                }
            }),
    {
        let ghost declared = schema@;
        let mut c = Collection::with_schema(name, dim, metric, schema, false);
        match snapshot {
            Some(s) => {
                proof { lemma_restored_sound(c@.state, s@); }
                s.restore_into(&mut c.inner);
            },
            None => {},
        }
        proof { collection::applying_keeps_sound(c@.state, wal::record_views(replayed@), 0); }
        match apply_replayed_records(&mut c.inner, replayed.as_slice()) {
            Ok(_) => {},
            Err(e) => { return Err(e); },
        }
        c.inner.payload.set_strict(strict);
        c.wal = Some(writer);
        Ok(c)
    }

    /// The state to write to a new checkpoint; nothing for a collection
    /// without a log. It stands at the last position applied, not at the
    /// cursor, which is already past it.
    pub fn checkpoint(&self) -> (r: Option<CollectionSnapshot>)
        requires
            self.wf(),
        ensures
            r is Some <==> self@.wal is Some,
            r matches Some(s) ==> captures(self@.state, s@),
    {
        if self.wal.is_none() {
            return None;
        }
        Some(CollectionSnapshot::capture(&self.inner))
    }
}

/// Whether keys and live rows, and document keys and documents, correspond
/// one to one.
pub open spec fn keys_match_rows(s: StateView) -> bool {
    &&& forall|k: Seq<char>| #[trigger] s.keys.contains_key(k) ==> s.keys[k] <= u32::MAX && s.live.contains(s.keys[k] as u32)
        && s.rows[s.keys[k]].key == k
    &&& forall|r: u32| #[trigger] s.live.contains(r) ==> s.keys.contains_key(s.rows[r as u64].key) && s.keys[s.rows[r as u64].key] == r
    &&& forall|k: Seq<char>| #[trigger] s.doc_keys.contains_key(k) ==> s.docs.contains_key(s.doc_keys[k]) && s.docs[s.doc_keys[k]].doc_key == k
    &&& forall|d: u64| #[trigger] s.docs.contains_key(d) ==> s.doc_keys.contains_key(s.docs[d].doc_key) && s.doc_keys[s.docs[d].doc_key] == d
}

/// Whether the transaction index holds exactly the transactions it lists.
pub open spec fn txns_listed(ix: txn_index::IndexView) -> bool {
    &&& ix.limit >= 1
    &&& ix.order.len() <= ix.limit
    &&& forall|i: int| 0 <= i < ix.order.len() ==> ix.entries.contains_key(#[trigger] ix.order[i]) && ix.entries[ix.order[i]].txn_id == ix.order[i]
    &&& forall|i: int, j: int| 0 <= i < j < ix.order.len() ==> ix.order[i] != ix.order[j]
    &&& forall|t: u128| #[trigger] ix.entries.contains_key(t) ==> ix.order.contains(t)
}

/// Keys match rows and documents where all that a write keeps holds.
pub proof fn what_writes_keep_matches_keys(s: StateView)
    requires
        collection::sound(s),
        consistency::linked(s),
        consistency::rows_keyed(s),
        consistency::docs_keyed(s),
    ensures
        keys_match_rows(s),
{
    assert forall|k: Seq<char>| #[trigger] s.keys.contains_key(k) implies s.keys[k] <= u32::MAX && s.live.contains(s.keys[k] as u32)
        && s.rows[s.keys[k]].key == k by {
        assert(s.rows.contains_key(s.keys[k]));
    }
}

/// An index without transactions lists exactly what it holds, and goes on to
/// when a transaction that it does not list is recorded or one is marked as
/// undone.
pub proof fn an_index_lists_what_it_holds(ix: txn_index::IndexView, e: txn_index::EntryView, txn: u128, by: u128, limit: nat)
    ensures
        txns_listed(txn_index::empty_index(limit)),
        txns_listed(ix) && !ix.order.contains(e.txn_id) ==> txns_listed(txn_index::recorded(ix, e)),
        txns_listed(ix) ==> txns_listed(txn_index::marked_undone(ix, txn, by)),
{
    if txns_listed(ix) && !ix.order.contains(e.txn_id) {
        let next = txn_index::recorded(ix, e);
        let order = ix.order.push(e.txn_id);
        let full = order.len() > ix.limit;
        let off: int = if full { 1 } else { 0 };
        assert forall|i: int| 0 <= i < order.len() implies #[trigger] order[i] == (if i < ix.order.len() { ix.order[i] } else { e.txn_id }) by {}
        assert forall|i: int, j: int| 0 <= i < j < order.len() implies order[i] != order[j] by {
            if j == ix.order.len() {
                assert(ix.order.contains(ix.order[i]));
            }
        }
        assert forall|i: int| 0 <= i < next.order.len() implies next.entries.contains_key(#[trigger] next.order[i]) && next.entries[next.order[i]].txn_id == next.order[i] by {
            assert(next.order[i] == order[i + off]);
            if i + off < ix.order.len() {
                assert(ix.entries.contains_key(ix.order[i + off]));
            }
            if full {
                assert(order[0] != order[i + off]);
            }
        }
        assert forall|i: int, j: int| 0 <= i < j < next.order.len() implies next.order[i] != next.order[j] by {
            assert(order[i + off] != order[j + off]);
        }
        assert forall|t: u128| #[trigger] next.entries.contains_key(t) implies next.order.contains(t) by {
            let at = if t == e.txn_id {
                ix.order.len() as int
            } else {
                assert(ix.entries.contains_key(t));
                choose|i: int| 0 <= i < ix.order.len() && ix.order[i] == t
            };
            assert(order[at] == t);
            assert(next.order[at - off] == t);
        }
    }
}

/// A transaction that the index does not list yet leaves it listing exactly
/// what it holds.
pub proof fn transactions_keep_txns_listed(s: StateView, group: Seq<RecordView>)
    requires
        txns_listed(s.txns),
        group.len() > 0,
        !s.txns.order.contains(group[0].txn),
        recovery::applied_group(s, group).1 is None,
    ensures
        txns_listed(recovery::applied_group(s, group).0.txns),
{
    lemma_records_leave_txns(s, group, group.len());
    let e = recovery::txn_entry(group);
    let undone = match group[0].caused_by {
        Some(t) => t,
        None => 0,
    };
    an_index_lists_what_it_holds(s.txns, e, undone, group[0].txn, 1);
    an_index_lists_what_it_holds(txn_index::recorded(s.txns, e), e, undone, group[0].txn, 1);
}

/// The records of a transaction leave the index alone until it ends.
pub proof fn lemma_records_leave_txns(s: StateView, group: Seq<RecordView>, n: nat)
    ensures
        recovery::applied_records(s, group, n).0.txns == s.txns,
    decreases n,
{
    if n > 0 {
        lemma_records_leave_txns(s, group, (n - 1) as nat);
    }
}

proof fn lemma_seeding_rows(s: StateView, seeded: StateView, rows: Seq<SnapshotRowView>, n: nat)
    requires
        collection::sound(s),
        keys_match_rows(s),
        lists_rows(s, rows),
        n <= rows.len(),
        seeded.keys == Map::<Seq<char>, u64>::empty(),
        seeded.rows == Map::<u64, RowView>::empty(),
        seeded.live == Set::<u32>::empty(),
        forall|x: u32| payload::indexes_row(seeded.payload, x, Map::empty()),
    ensures
        ({
            let t = with_snapshot_rows(seeded, rows, n);
            &&& forall|id: u64| #[trigger] t.rows.contains_key(id) <==> exists|i: int| 0 <= i < n && (#[trigger] rows[i]).row_id == id
            &&& forall|id: u64| #[trigger] t.rows.contains_key(id) ==> t.rows[id] == s.rows[id]
            &&& forall|x: u32| #[trigger] t.live.contains(x) <==> s.live.contains(x) && t.rows.contains_key(x as u64)
            &&& forall|k: Seq<char>| #[trigger] t.keys.contains_key(k) <==> s.keys.contains_key(k) && t.rows.contains_key(s.keys[k])
            &&& forall|k: Seq<char>| #[trigger] t.keys.contains_key(k) ==> t.keys[k] == s.keys[k]
            &&& forall|x: u32| #[trigger] t.live.contains(x) ==> payload::indexes_row(t.payload, x, s.rows[x as u64].fields)
            &&& forall|x: u32| !(#[trigger] t.live.contains(x)) ==> payload::indexes_row(t.payload, x, Map::empty())
        }),
    decreases n,
{
    if n > 0 {
        lemma_seeding_rows(s, seeded, rows, (n - 1) as nat);
        let t = with_snapshot_rows(seeded, rows, (n - 1) as nat);
        let u = with_snapshot_rows(seeded, rows, n);
        let r = rows[n - 1];
        assert(s.rows.contains_key(r.row_id));
        assert(r.row_id <= u32::MAX);
        assert(u.rows.contains_key(r.row_id));
        assert forall|id: u64| #[trigger] u.rows.contains_key(id) <==> exists|i: int| 0 <= i < n && (#[trigger] rows[i]).row_id == id by {
            if u.rows.contains_key(id) {
                if id == r.row_id {
                    assert(rows[n - 1].row_id == id);
                } else {
                    assert(t.rows.contains_key(id));
                    let i = choose|i: int| 0 <= i < n - 1 && (#[trigger] rows[i]).row_id == id;
                    assert(rows[i].row_id == id);
                }
            }
            if exists|i: int| 0 <= i < n && (#[trigger] rows[i]).row_id == id {
                let i = choose|i: int| 0 <= i < n && (#[trigger] rows[i]).row_id == id;
                if i < n - 1 {
                    assert(rows[i].row_id == id);
                    assert(t.rows.contains_key(id));
                }
            }
        }
        assert forall|x: u32| #[trigger] u.live.contains(x) <==> s.live.contains(x) && u.rows.contains_key(x as u64) by {
            if x as u64 == r.row_id {
                assert(r.live == s.live.contains(x));
                if t.live.contains(x) {
                    assert(s.live.contains(x));
                }
            } else {
                assert(t.live.contains(x) <==> s.live.contains(x) && t.rows.contains_key(x as u64));
            }
        }
        assert forall|k: Seq<char>| #[trigger] u.keys.contains_key(k) <==> s.keys.contains_key(k) && u.rows.contains_key(s.keys[k]) by {
            assert(t.keys.contains_key(k) <==> s.keys.contains_key(k) && t.rows.contains_key(s.keys[k]));
            if r.live {
                assert(s.live.contains(r.row_id as u32));
                assert(s.keys[s.rows[r.row_id].key] == r.row_id);
                if s.keys.contains_key(k) && s.keys[k] == r.row_id {
                    assert(s.rows[s.keys[k]].key == k);
                }
            } else if s.keys.contains_key(k) && s.keys[k] == r.row_id {
                assert(s.live.contains(s.keys[k] as u32));
            }
        }
        assert forall|k: Seq<char>| #[trigger] u.keys.contains_key(k) implies u.keys[k] == s.keys[k] by {
            if r.live {
                assert(s.live.contains(r.row_id as u32));
                assert(s.keys[s.rows[r.row_id].key] == r.row_id);
            }
            if k != r.row.key || !r.live {
                assert(t.keys.contains_key(k));
            }
        }
        let row = r.row_id as u32;
        assert forall|x: u32| #[trigger] u.live.contains(x) implies payload::indexes_row(u.payload, x, s.rows[x as u64].fields) by {
            payload::writing_indexes_the_row(t.payload, row, r.row.fields, x, s.rows[x as u64].fields);
            if x != row {
                assert(t.live.contains(x));
            }
        }
        assert forall|x: u32| !(#[trigger] u.live.contains(x)) implies payload::indexes_row(u.payload, x, Map::empty()) by {
            payload::writing_indexes_the_row(t.payload, row, r.row.fields, x, Map::empty());
            assert(!t.live.contains(x));
        }
    }
}

proof fn lemma_seeding_docs(s: StateView, base: StateView, docs: Seq<DocView>, n: nat)
    requires
        keys_match_rows(s),
        lists_documents(s, docs),
        n <= docs.len(),
        base.doc_keys == Map::<Seq<char>, u64>::empty(),
        base.docs == Map::<u64, DocView>::empty(),
    ensures
        ({
            let t = with_snapshot_docs(base, docs, n);
            &&& forall|d: u64| #[trigger] t.docs.contains_key(d) <==> exists|i: int| 0 <= i < n && (#[trigger] docs[i]).doc_id == d
            &&& forall|d: u64| #[trigger] t.docs.contains_key(d) ==> t.docs[d] == s.docs[d]
            &&& forall|k: Seq<char>| #[trigger] t.doc_keys.contains_key(k) <==> s.doc_keys.contains_key(k) && t.docs.contains_key(s.doc_keys[k])
            &&& forall|k: Seq<char>| #[trigger] t.doc_keys.contains_key(k) ==> t.doc_keys[k] == s.doc_keys[k]
            &&& t == (StateView { doc_keys: t.doc_keys, docs: t.docs, ..base })
        }),
    decreases n,
{
    if n > 0 {
        lemma_seeding_docs(s, base, docs, (n - 1) as nat);
        let t = with_snapshot_docs(base, docs, (n - 1) as nat);
        let u = with_snapshot_docs(base, docs, n);
        let e = docs[n - 1];
        assert(s.docs.contains_key(e.doc_id));
        assert(s.doc_keys.contains_key(e.doc_key) && s.doc_keys[e.doc_key] == e.doc_id);
        assert forall|d: u64| #[trigger] u.docs.contains_key(d) <==> exists|i: int| 0 <= i < n && (#[trigger] docs[i]).doc_id == d by {
            if u.docs.contains_key(d) {
                if d == e.doc_id {
                    assert(docs[n - 1].doc_id == d);
                } else {
                    assert(t.docs.contains_key(d));
                    let i = choose|i: int| 0 <= i < n - 1 && (#[trigger] docs[i]).doc_id == d;
                    assert(docs[i].doc_id == d);
                }
            }
            if exists|i: int| 0 <= i < n && (#[trigger] docs[i]).doc_id == d {
                let i = choose|i: int| 0 <= i < n && (#[trigger] docs[i]).doc_id == d;
                if i < n - 1 {
                    assert(docs[i].doc_id == d);
                    assert(t.docs.contains_key(d));
                }
            }
        }
        assert forall|k: Seq<char>| #[trigger] u.doc_keys.contains_key(k) <==> s.doc_keys.contains_key(k) && u.docs.contains_key(s.doc_keys[k]) by {
            assert(t.doc_keys.contains_key(k) <==> s.doc_keys.contains_key(k) && t.docs.contains_key(s.doc_keys[k]));
            if s.doc_keys.contains_key(k) && s.doc_keys[k] == e.doc_id {
                assert(s.docs[s.doc_keys[k]].doc_key == k);
            }
        }
        assert forall|k: Seq<char>| #[trigger] u.doc_keys.contains_key(k) implies u.doc_keys[k] == s.doc_keys[k] by {
            if k != e.doc_key {
                assert(t.doc_keys.contains_key(k));
            }
        }
    }
}

proof fn lemma_chronological(ix: txn_index::IndexView, n: nat)
    requires
        txns_listed(ix),
        n <= ix.order.len(),
    ensures
        txn_index::chronological(ix, n).len() == n,
        forall|i: int| 0 <= i < n ==> #[trigger] txn_index::chronological(ix, n)[i] == ix.entries[ix.order[i]],
    decreases n,
{
    if n > 0 {
        lemma_chronological(ix, (n - 1) as nat);
        assert(ix.entries.contains_key(ix.order[n - 1]));
    }
}

proof fn lemma_seeding_txns(ix: txn_index::IndexView, base: txn_index::IndexView, txns: Seq<EntryView>, n: nat)
    requires
        txns_listed(ix),
        txns == txn_index::chronological(ix, ix.order.len()),
        n <= txns.len(),
        base.limit == ix.limit,
        base.order == Seq::<u128>::empty(),
        base.entries == Map::<u128, EntryView>::empty(),
    ensures
        ({
            let t = with_snapshot_txns(base, txns, n);
            &&& t.limit == ix.limit
            &&& t.order == ix.order.take(n as int)
            &&& forall|x: u128| #[trigger] t.entries.contains_key(x) <==> ix.order.take(n as int).contains(x)
            &&& forall|x: u128| #[trigger] t.entries.contains_key(x) ==> t.entries[x] == ix.entries[x]
        }),
    decreases n,
{
    lemma_chronological(ix, ix.order.len());
    if n > 0 {
        lemma_seeding_txns(ix, base, txns, (n - 1) as nat);
        let t = with_snapshot_txns(base, txns, (n - 1) as nat);
        let u = with_snapshot_txns(base, txns, n);
        let e = txns[n - 1];
        assert(e == ix.entries[ix.order[n - 1]]);
        assert(e.txn_id == ix.order[n - 1]);
        assert(ix.order.take(n as int) =~= ix.order.take(n - 1).push(e.txn_id));
        assert(u.order =~= ix.order.take(n as int));
        let before = ix.order.take(n - 1);
        let after = ix.order.take(n as int);
        assert forall|x: u128| #[trigger] u.entries.contains_key(x) <==> after.contains(x) by {
            if before.contains(x) {
                let i = choose|i: int| 0 <= i < before.len() && before[i] == x;
                assert(after[i] == x);
            }
            if after.contains(x) {
                let i = choose|i: int| 0 <= i < after.len() && after[i] == x;
                if i < n - 1 {
                    assert(before[i] == x);
                }
            }
            assert(after[n - 1] == e.txn_id);
            assert(t.entries.contains_key(x) <==> before.contains(x));
        }
        assert forall|x: u128| #[trigger] u.entries.contains_key(x) implies u.entries[x] == ix.entries[x] by {
            if x != e.txn_id {
                assert(t.entries.contains_key(x));
            }
        }
    } else {
        assert(ix.order.take(0) =~= Seq::<u128>::empty());
    }
}

/// Restoring a checkpoint gives back the state that was captured: its rows,
/// its live set, its keys, its documents, its next ids, its position and its
/// retained transactions, with the conflicts between them; and the columns
/// hold exactly the live rows' fields.
pub proof fn restoring_gives_back_the_state(s: StateView, snap: SnapshotView, fresh: StateView)
    requires
        collection::sound(s),
        keys_match_rows(s),
        txns_listed(s.txns),
        captures(s, snap),
        forall|x: u32| payload::indexes_row(fresh.payload, x, Map::empty()),
        fresh.txns == txn_index::empty_index(s.txns.limit),
    ensures
        ({
            let t = restored(fresh, snap);
            &&& t.applied == s.applied
            &&& t.next_row == s.next_row
            &&& t.next_doc == s.next_doc
            &&& t.rows == s.rows
            &&& t.live == s.live
            &&& t.keys == s.keys
            &&& t.docs == s.docs
            &&& t.doc_keys == s.doc_keys
            &&& t.txns == s.txns
            &&& forall|e: txn_index::EntryView, u: u128| #[trigger] txn_index::conflicts_with(t.txns, e, u) == txn_index::conflicts_with(s.txns, e, u)
            &&& forall|x: u32| #[trigger] s.live.contains(x) ==> payload::indexes_row(t.payload, x, s.rows[x as u64].fields)
            &&& forall|x: u32| !(#[trigger] s.live.contains(x)) ==> payload::indexes_row(t.payload, x, Map::empty())
        }),
{
    let seeded = StateView {
        applied: snap.applied,
        next_row: snap.next_row,
        next_doc: snap.next_doc,
        keys: Map::empty(),
        rows: Map::empty(),
        live: Set::empty(),
        doc_keys: Map::empty(),
        docs: Map::empty(),
        ..fresh
    };
    lemma_seeding_rows(s, seeded, snap.rows, snap.rows.len());
    lemma_rows_leave_rest(seeded, snap.rows, snap.rows.len());
    let a = with_snapshot_rows(seeded, snap.rows, snap.rows.len());
    lemma_seeding_docs(s, a, snap.docs, snap.docs.len());
    let b = with_snapshot_docs(a, snap.docs, snap.docs.len());
    lemma_chronological(s.txns, s.txns.order.len());
    lemma_seeding_txns(s.txns, b.txns, snap.txns, snap.txns.len());
    let t = restored(fresh, snap);
    assert(s.txns.order.take(snap.txns.len() as int) =~= s.txns.order);
    assert(t.rows =~= s.rows) by {
        assert forall|id: u64| t.rows.contains_key(id) == s.rows.contains_key(id) by {
            if s.rows.contains_key(id) {
                let i = choose|i: int| 0 <= i < snap.rows.len() && (#[trigger] snap.rows[i]).row_id == id;
                assert(snap.rows[i].row_id == id);
            }
            if a.rows.contains_key(id) {
                let i = choose|i: int| 0 <= i < snap.rows.len() && (#[trigger] snap.rows[i]).row_id == id;
                assert(s.rows.contains_key(snap.rows[i].row_id));
            }
        }
    }
    assert(t.live =~= s.live) by {
        assert forall|x: u32| t.live.contains(x) == s.live.contains(x) by {
            if s.live.contains(x) {
                assert(s.rows.contains_key(x as u64));
            }
        }
    }
    assert(t.keys =~= s.keys) by {
        assert forall|k: Seq<char>| t.keys.contains_key(k) == s.keys.contains_key(k) by {
            if s.keys.contains_key(k) {
                assert(s.rows.contains_key(s.keys[k]));
            }
        }
    }
    assert(t.docs =~= s.docs) by {
        assert forall|d: u64| t.docs.contains_key(d) == s.docs.contains_key(d) by {
            if s.docs.contains_key(d) {
                let i = choose|i: int| 0 <= i < snap.docs.len() && (#[trigger] snap.docs[i]).doc_id == d;
                assert(snap.docs[i].doc_id == d);
            }
            if b.docs.contains_key(d) {
                let i = choose|i: int| 0 <= i < snap.docs.len() && (#[trigger] snap.docs[i]).doc_id == d;
                assert(s.docs.contains_key(snap.docs[i].doc_id));
            }
        }
    }
    assert(t.doc_keys =~= s.doc_keys) by {
        assert forall|k: Seq<char>| t.doc_keys.contains_key(k) == s.doc_keys.contains_key(k) by {
            if s.doc_keys.contains_key(k) {
                assert(s.docs.contains_key(s.doc_keys[k]));
            }
        }
    }
    assert(t.txns.entries =~= s.txns.entries) by {
        assert forall|x: u128| t.txns.entries.contains_key(x) == s.txns.entries.contains_key(x) by {
            if s.txns.order.contains(x) {
                let i = choose|i: int| 0 <= i < s.txns.order.len() && s.txns.order[i] == x;
                assert(s.txns.entries.contains_key(s.txns.order[i]));
            }
        }
    }
}

proof fn lemma_rows_leave_rest(s: StateView, rows: Seq<SnapshotRowView>, n: nat)
    ensures
        ({
            let t = with_snapshot_rows(s, rows, n);
            t == (StateView { rows: t.rows, keys: t.keys, live: t.live, payload: t.payload, ..s })
        }),
    decreases n,
{
    if n > 0 {
        lemma_rows_leave_rest(s, rows, (n - 1) as nat);
    }
}

} // verus!
