//! A collection: writes are planned as log records, the records are appended
//! to the log by its owner, and only then do they become state and are
//! announced. All of that goes through [`Collection::finish`].

use crate::bitmap;
use crate::bitmap::{bitmap_contains, bitmap_len, bitmap_to_vec};
use crate::change;
use crate::change::{BatchView, ChangeBatch};
use crate::clock;
use crate::columns::FieldType;
use crate::consistency;
use crate::draft;
use crate::encoding;
use crate::draft::{make_image, make_record, make_row_image, ChangeView, RowChange};
use crate::error::{StorageError, StorageErrorView, StorageResult};
use crate::fields::{FieldsView, PayloadRow};
use crate::filter::Filter;
use crate::ids::{RowId, TxnId};
use crate::model::{DistanceMetric, RequestCtx, Timestamp};
use crate::payload;
use crate::payload::{PayloadSchema, SchemaView};
use crate::recovery;
use crate::recovery::{apply_replayed_records, change_events_from_records};
use crate::state;
use crate::state::{copy_vector, CollectionInner, Row, RowView, StateView};
use crate::text;
use crate::text::copy_opt;
use crate::wal;
use crate::wal::{RecordView, WalOp, WalRecord, WalWriter};
use vstd::hash_map::StringHashMap;
use vstd::prelude::*;

verus! {

/// One row to write.
pub struct PutInput {
    pub key: String,
    pub vector: Vec<u32>,
    pub fields: PayloadRow,
    pub extra: Option<String>,
}

/// The contents of a [`PutInput`].
pub struct PutView {
    pub key: Seq<char>,
    pub vector: Seq<u32>,
    pub fields: FieldsView,
    pub extra: Option<Seq<char>>,
}

impl View for PutInput {
    type V = PutView;

    open spec fn view(&self) -> PutView {
        PutView { key: self.key@, vector: self.vector@, fields: self.fields@, extra: text::opt_text(self.extra) }
    }
}

/// The contents of a list of rows to write.
pub open spec fn put_views(s: Seq<PutInput>) -> Seq<PutView> {
    Seq::new(s.len(), |i: int| s[i]@)
}

/// A collection, durable if it has a log cursor. The batches that its
/// subscribers are still to be given wait in `outbox`, oldest first.
pub struct Collection {
    pub name: String,
    pub dim: usize,
    pub metric: DistanceMetric,
    pub inner: CollectionInner,
    pub wal: Option<WalWriter>,
    pub outbox: Vec<ChangeBatch>,
}

/// What a collection holds.
pub struct CollectionView {
    pub name: Seq<char>,
    pub dim: usize,
    pub metric: DistanceMetric,
    pub state: StateView,
    pub wal: Option<WalWriter>,
    pub outbox: Seq<BatchView>,
}

impl View for Collection {
    type V = CollectionView;

    open spec fn view(&self) -> CollectionView {
        CollectionView {
            name: self.name@,
            dim: self.dim,
            metric: self.metric,
            state: self.inner@,
            wal: self.wal,
            outbox: change::batch_views(self.outbox@),
        }
    }
}

/// How many rows a collection has room for: as many as a bitmap has positions.
pub open spec fn row_capacity() -> int {
    0x1_0000_0000
}

/// What holds of every state, whatever records made it: keys and live rows
/// have their records, every row id is below the next one, documents are
/// registered under their own id, and their ids leave room for a next one.
pub open spec fn sound(s: StateView) -> bool {
    &&& forall|k: Seq<char>| #[trigger] s.keys.contains_key(k) ==> s.rows.contains_key(s.keys[k])
    &&& forall|r: u32| #[trigger] s.live.contains(r) ==> s.rows.contains_key(r as u64)
    &&& forall|id: u64| #[trigger] s.rows.contains_key(id) ==> id < s.next_row
    &&& forall|id: u64| #[trigger] s.rows.contains_key(id) ==> (s.rows[id].doc_id matches Some(d) ==> d < u64::MAX)
    &&& forall|d: u64| #[trigger] s.docs.contains_key(d) ==> s.docs[d].doc_id == d && d < u64::MAX
    &&& s.next_row <= row_capacity()
}

impl Collection {
    /// Whether the collection's state is sound.
    pub open spec fn wf(self) -> bool {
        self.inner.wf() && sound(self@.state)
    }
}

/// What a finished write makes of a collection: its records applied, and
/// their changes in one batch.
pub open spec fn written(c: CollectionView, txn: u128, records: Seq<RecordView>) -> CollectionView {
    CollectionView {
        state: recovery::applied_from(c.state, records, 0).0,
        outbox: c.outbox.push(BatchView { txn_id: txn, coll: c.name, events: recovery::events_of(records, records.len()) }),
        ..c
    }
}

/// Soundness survives a record whose ids fit.
pub proof fn applying_one_keeps_sound(s: StateView, r: RecordView)
    requires
        sound(s),
        recovery::ids_fit(r),
    ensures
        sound(recovery::applied_one(s, r).0),
{
    let t = recovery::applied_one(s, r).0;
    assert forall|k: Seq<char>| #[trigger] t.keys.contains_key(k) implies t.rows.contains_key(t.keys[k]) by {
        if s.keys.contains_key(k) {
            assert(s.rows.contains_key(s.keys[k]));
        }
    }
    assert forall|x: u32| #[trigger] t.live.contains(x) implies t.rows.contains_key(x as u64) by {
        if s.live.contains(x) {
            assert(s.rows.contains_key(x as u64));
        }
    }
    assert forall|id: u64| #[trigger] t.rows.contains_key(id) implies id < t.next_row by {
        if s.rows.contains_key(id) {
            assert(id < s.next_row);
        }
    }
    assert forall|id: u64| #[trigger] t.rows.contains_key(id) implies (t.rows[id].doc_id matches Some(d) ==> d < u64::MAX) by {
        if s.rows.contains_key(id) {
            assert(s.rows[id].doc_id matches Some(d) ==> d < u64::MAX);
        }
    }
    assert forall|d: u64| #[trigger] t.docs.contains_key(d) implies t.docs[d].doc_id == d && d < u64::MAX by {
        if s.docs.contains_key(d) {
            assert(s.docs[d].doc_id == d);
        }
    }
}

proof fn lemma_records_sound(s: StateView, group: Seq<RecordView>, n: nat)
    requires
        sound(s),
        recovery::all_ids_fit(group),
        n <= group.len(),
    ensures
        sound(recovery::applied_records(s, group, n).0),
    decreases n,
{
    if n > 0 {
        lemma_records_sound(s, group, (n - 1) as nat);
        let t = recovery::applied_records(s, group, (n - 1) as nat).0;
        assert(recovery::ids_fit(group[n - 1]));
        applying_one_keeps_sound(t, group[n - 1]);
    }
}

/// Soundness survives any list of records whose ids fit.
pub proof fn applying_keeps_sound(s: StateView, records: Seq<RecordView>, from: nat)
    requires
        sound(s),
        recovery::all_ids_fit(records),
    ensures
        sound(recovery::applied_from(s, records, from).0),
    decreases records.len() - from,
{
    if from < records.len() {
        recovery::lemma_run_end(records, from + 1);
        let to = recovery::run_end(records, from + 1);
        let group = records.subrange(from as int, to as int);
        assert forall|k: int| 0 <= k < group.len() implies recovery::ids_fit(#[trigger] group[k]) by {
            assert(group[k] == records[from + k]);
        }
        lemma_records_sound(s, group, group.len());
        let (t, e) = recovery::applied_group(s, group);
        assert(sound(t));
        if e is None {
            applying_keeps_sound(t, records, to);
        }
    }
}

/// The first of `items` from `from` on whose vector has another length than
/// `dim`, their number if there is none.
pub open spec fn first_misfit(items: Seq<PutView>, dim: usize, from: nat) -> nat
    decreases items.len() - from,
{
    if from >= items.len() || items[from as int].vector.len() != dim {
        from
    } else {
        first_misfit(items, dim, from + 1)
    }
}

/// The first of `items` from `from` on whose fields the schema refuses.
pub open spec fn first_refused(items: Seq<PutView>, s: payload::StoreView, from: nat) -> nat
    decreases items.len() - from,
{
    if from >= items.len() || payload::row_refusal(s, items[from as int].fields) is Some {
        from
    } else {
        first_refused(items, s, from + 1)
    }
}

/// The refusal of a vector of the wrong length.
pub open spec fn wrong_dim(c: CollectionView, got: nat) -> StorageErrorView {
    StorageErrorView::DimensionMismatch { coll: c.name, expected: c.dim, got: got as usize }
}

/// Why a batch is refused, if it is: the first vector of the wrong length,
/// else the first row that does not fit the schema.
pub open spec fn put_refusal(c: CollectionView, items: Seq<PutView>) -> Option<StorageErrorView> {
    let m = first_misfit(items, c.dim, 0);
    if m < items.len() {
        Some(wrong_dim(c, items[m as int].vector.len()))
    } else {
        let f = first_refused(items, c.state.payload, 0);
        if f < items.len() {
            Some(StorageErrorView::Filter(payload::row_refusal(c.state.payload, items[f as int].fields)->0))
        } else {
            None
        }
    }
}

/// The last of the first `n` items that has this key, if one has.
pub open spec fn earlier(items: Seq<PutView>, key: Seq<char>, n: nat) -> Option<int>
    decreases n,
{
    if n == 0 {
        None
    } else if items[n - 1].key == key {
        Some(n - 1)
    } else {
        earlier(items, key, (n - 1) as nat)
    }
}

/// Whether item `i` has a key that neither a row nor an earlier item has.
pub open spec fn is_fresh(s: StateView, items: Seq<PutView>, i: int) -> bool {
    !s.keys.contains_key(items[i].key) && earlier(items, items[i].key, i as nat) is None
}

/// How many of the first `n` items have a key that is new with them.
pub open spec fn fresh_before(s: StateView, items: Seq<PutView>, n: nat) -> nat
    decreases n,
{
    if n == 0 {
        0
    } else {
        fresh_before(s, items, (n - 1) as nat) + if is_fresh(s, items, n - 1) { 1nat } else { 0nat }
    }
}

/// The row that item `i` is written to: its key's row, that of an earlier
/// item with this key, or the next free one.
pub open spec fn put_row_id(s: StateView, items: Seq<PutView>, i: int) -> u64
    decreases i,
{
    if s.keys.contains_key(items[i].key) {
        s.keys[items[i].key]
    } else {
        match earlier(items, items[i].key, i as nat) {
            Some(j) => if 0 <= j < i { put_row_id(s, items, j) } else { 0 },
            None => (s.next_row + fresh_before(s, items, i as nat)) as u64,
        }
    }
}

/// The row that a key has before a batch, if it has one.
pub open spec fn stored_row(s: StateView, key: Seq<char>) -> Option<RowView> {
    if s.keys.contains_key(key) { Some(s.rows[s.keys[key]]) } else { None }
}

/// The row that item `i` of a batch becomes: what the item gives, and the
/// text and the place in a document that its key's row had.
pub open spec fn put_row(s: StateView, items: Seq<PutView>, i: int) -> RowView {
    let stored = stored_row(s, items[i].key);
    RowView {
        key: items[i].key,
        vector: items[i].vector,
        fields: items[i].fields,
        extra: items[i].extra,
        text: match stored { Some(p) => p.text, None => None },
        doc_id: match stored { Some(p) => p.doc_id, None => None },
        chunk_ord: match stored { Some(p) => p.chunk_ord, None => None },
    }
}

/// The row that item `i` replaces, if its key has one by then.
pub open spec fn replaced_row(s: StateView, items: Seq<PutView>, i: int) -> Option<RowView> {
    match earlier(items, items[i].key, i as nat) {
        Some(j) => Some(put_row(s, items, j)),
        None => stored_row(s, items[i].key),
    }
}

/// Whether every vector that a batch replaces can be read back from a record.
pub open spec fn replaced_encode(s: StateView, items: Seq<PutView>) -> bool {
    forall|i: int| 0 <= i < items.len() ==> (#[trigger] replaced_row(s, items, i) matches Some(p) ==> encoding::encodes(p.vector))
}

/// What writing item `i` changes. A put leaves the row's document, its place
/// in it and its text as they are.
pub open spec fn put_change(s: StateView, items: Seq<PutView>, i: int) -> ChangeView {
    let prior = replaced_row(s, items, i);
    let item = items[i];
    ChangeView {
        op: if prior is Some { WalOp::Update } else { WalOp::Insert },
        row_id: put_row_id(s, items, i),
        key: item.key,
        doc_id: match prior { Some(p) => p.doc_id, None => None },
        doc_key: None,
        chunk_ord: match prior { Some(p) => p.chunk_ord, None => None },
        payload: Some(draft::image(
            item.vector,
            match prior { Some(p) => p.text, None => None },
            item.fields,
            item.extra,
        )),
        undo: match prior { Some(p) => Some(draft::row_image(p)), None => None },
        params: None,
    }
}

/// The records of a batch.
pub open spec fn put_records(c: CollectionView, ctx: RequestCtx, txn: u128, stamps: Seq<Timestamp>, items: Seq<PutView>) -> Seq<RecordView> {
    Seq::new(
        items.len(),
        |i: int| draft::drafted(draft::origin(ctx, c.name, txn), put_change(c.state, items, i), stamps[i], i as nat, items.len()),
    )
}

/// Whether every item's vector can be read back from a record.
pub open spec fn all_encode(items: Seq<PutView>) -> bool {
    forall|i: int| 0 <= i < items.len() ==> encoding::encodes((#[trigger] items[i]).vector)
}

/// A planned batch: its records, and the row that each item goes to.
pub struct PutPlan {
    pub records: Vec<WalRecord>,
    pub row_ids: Vec<RowId>,
}

/// The numbers of a list of row ids.
pub open spec fn row_numbers(s: Seq<RowId>) -> Seq<u64> {
    Seq::new(s.len(), |i: int| s[i].0)
}

/// The rows that a batch's items go to.
pub open spec fn put_row_ids(s: StateView, items: Seq<PutView>) -> Seq<u64> {
    Seq::new(items.len(), |i: int| put_row_id(s, items, i))
}

/// At most every item is new, and the number of new ones only grows.
pub proof fn lemma_fresh_at_most(s: StateView, items: Seq<PutView>, m: nat, n: nat)
    requires
        m <= n,
    ensures
        fresh_before(s, items, m) <= m,
        fresh_before(s, items, m) <= fresh_before(s, items, n),
    decreases n,
{
    if m < n {
        lemma_fresh_at_most(s, items, m, (n - 1) as nat);
    } else if n > 0 {
        lemma_fresh_at_most(s, items, (n - 1) as nat, (n - 1) as nat);
    }
}

/// An earlier item with a key is the last of those before that has it.
pub proof fn lemma_earlier(items: Seq<PutView>, key: Seq<char>, n: nat)
    ensures
        earlier(items, key, n) matches Some(j) ==> 0 <= j < n && items[j].key == key,
        earlier(items, key, n) matches Some(j) ==> forall|i: int| j < i < n ==> (#[trigger] items[i]).key != key,
        earlier(items, key, n) is None ==> forall|i: int| 0 <= i < n ==> (#[trigger] items[i]).key != key,
    decreases n,
{
    if n > 0 {
        lemma_earlier(items, key, (n - 1) as nat);
    }
}

/// Items with one key go to one row, and a new key's row comes after those
/// of the new keys before it.
pub proof fn lemma_put_row_id(s: StateView, items: Seq<PutView>, i: int)
    requires
        i >= 0,
    ensures
        earlier(items, items[i].key, i as nat) matches Some(j) ==> put_row_id(s, items, i) == put_row_id(s, items, j),
        !s.keys.contains_key(items[i].key) && s.next_row + fresh_before(s, items, i as nat + 1) <= u64::MAX ==> s.next_row <= put_row_id(s, items, i)
            < s.next_row + fresh_before(s, items, i as nat + 1),
    decreases i,
{
    lemma_earlier(items, items[i].key, i as nat);
    match earlier(items, items[i].key, i as nat) {
        Some(j) => {
            lemma_put_row_id(s, items, j);
            lemma_fresh_at_most(s, items, (j + 1) as nat, i as nat + 1);
        },
        None => {},
    }
}

/// Items go to one row only if they have one key.
pub proof fn lemma_put_rows_apart(s: StateView, items: Seq<PutView>, i: int, j: int)
    requires
        sound(s),
        consistency::keys_in_step(s),
        0 <= i <= j < items.len(),
        s.next_row + fresh_before(s, items, items.len()) <= row_capacity(),
    ensures
        put_row_id(s, items, i) == put_row_id(s, items, j) <==> items[i].key == items[j].key,
    decreases j,
{
    let a = items[i].key;
    let b = items[j].key;
    lemma_put_row_id(s, items, i);
    lemma_put_row_id(s, items, j);
    lemma_earlier(items, b, j as nat);
    lemma_fresh_at_most(s, items, (i + 1) as nat, items.len());
    lemma_fresh_at_most(s, items, (j + 1) as nat, items.len());
    if s.keys.contains_key(a) {
        assert(s.rows.contains_key(s.keys[a]));
    }
    if s.keys.contains_key(b) {
        assert(s.rows.contains_key(s.keys[b]));
    }
    if i < j && !s.keys.contains_key(a) && !s.keys.contains_key(b) {
        match earlier(items, b, j as nat) {
            Some(k) => {
                if a == b {
                    assert(i <= k);
                }
                if i <= k {
                    lemma_put_rows_apart(s, items, i, k);
                } else {
                    lemma_put_rows_apart(s, items, k, i);
                }
            },
            None => {
                lemma_fresh_at_most(s, items, (i + 1) as nat, j as nat);
            },
        }
    }
}

impl Collection {
    /// A collection without a log and without declared payload fields.
    pub fn new(name: &str, dim: usize, metric: DistanceMetric) -> (r: Self)
        ensures
            r.wf(),
            r@ == fresh_collection(name@, dim, metric, Seq::empty(), false),
    {
        Collection::with_schema(name, dim, metric, PayloadSchema::empty(), false)
    }

    /// A collection without a log.
    pub fn with_schema(name: &str, dim: usize, metric: DistanceMetric, schema: PayloadSchema, strict: bool) -> (r: Self)
        ensures
            r.wf(),
            r@ == fresh_collection(name@, dim, metric, schema@, strict),
    {
        let r = Collection {
            name: name.to_owned(),
            dim,
            metric,
            inner: CollectionInner::new(schema, strict),
            wal: None,
            outbox: Vec::new(),
        };
        assert(r@.outbox =~= Seq::<BatchView>::empty());
        r
    }

    /// Refuses a vector whose length is not the collection's dimension.
    pub(crate) fn check_dim(&self, vector: &Vec<u32>) -> (r: StorageResult<()>)
        ensures
            recovery::result_is(r, if vector@.len() == self.dim { None } else { Some(wrong_dim(self@, vector@.len())) }),
    {
        if vector.len() != self.dim {
            return Err(StorageError::DimensionMismatch { coll: self.name.clone(), expected: self.dim, got: vector.len() });
        }
        Ok(())
    }

    fn check_dims(&self, items: &Vec<PutInput>) -> (r: StorageResult<()>)
        ensures
            ({
                let views = put_views(items@);
                let m = first_misfit(views, self.dim, 0);
                recovery::result_is(r, if m < views.len() { Some(wrong_dim(self@, views[m as int].vector.len())) } else { None })
            }),
    {
        let ghost views = put_views(items@);
        let mut i: usize = 0;
        while i < items.len()
            invariant
                i <= items@.len(),
                views == put_views(items@),
                first_misfit(views, self.dim, 0) == first_misfit(views, self.dim, i as nat),
            decreases items@.len() - i,
        {
            assert(views[i as int] == items@[i as int]@);
            match self.check_dim(&items[i].vector) {
                Ok(_) => {},
                Err(e) => { return Err(e); },
            }
            i += 1;
        }
        Ok(())
    }

    fn check_rows(&self, items: &Vec<PutInput>) -> (r: StorageResult<()>)
        requires
            self.inner.wf(),
        ensures
            ({
                let views = put_views(items@);
                let s = self@.state.payload;
                let f = first_refused(views, s, 0);
                recovery::result_is(r, if f < views.len() {
                    Some(StorageErrorView::Filter(payload::row_refusal(s, views[f as int].fields)->0))
                } else {
                    None
                })
            }),
    {
        let ghost views = put_views(items@);
        let ghost s = self@.state.payload;
        let mut i: usize = 0;
        while i < items.len()
            invariant
                i <= items@.len(),
                views == put_views(items@),
                s == self@.state.payload,
                self.inner.wf(),
                first_refused(views, s, 0) == first_refused(views, s, i as nat),
            decreases items@.len() - i,
        {
            assert(views[i as int] == items@[i as int]@);
            match self.inner.payload.validate_row(&items[i].fields) {
                Ok(_) => {},
                Err(e) => { return Err(StorageError::Filter(e)); },
            }
            i += 1;
        }
        Ok(())
    }

    /// How many of a batch's keys are new.
    pub fn new_keys(&self, items: &Vec<PutInput>) -> (r: usize)
        ensures
            r == fresh_before(self@.state, put_views(items@), items@.len()),
    {
        let ghost views = put_views(items@);
        let ghost s = self@.state;
        let mut seen: StringHashMap<usize> = StringHashMap::new();
        let mut r: usize = 0;
        let mut i: usize = 0;
        while i < items.len()
            invariant
                i <= items@.len(),
                s == self@.state,
                views == put_views(items@),
                r == fresh_before(s, views, i as nat),
                r <= i,
                forall|k: Seq<char>| #[trigger] seen@.contains_key(k) <==> earlier(views, k, i as nat) is Some,
            decreases items@.len() - i,
        {
            let key = items[i].key.as_str();
            assert(views[i as int] == items@[i as int]@);
            if self.inner.key_to_row.get(key).is_none() && !seen.contains_key(key) {
                r += 1;
            }
            seen.insert(items[i].key.clone(), i);
            i += 1;
        }
        r
    }

    /// Plans an upsert of a batch by key: a new key gets the next row id, an
    /// existing one keeps its row, and an item whose key an earlier item has
    /// updates that item's row. Everything is checked before anything is
    /// planned, and planning changes nothing.
    pub fn plan_put_batch(&self, ctx: &RequestCtx, items: &Vec<PutInput>, txn: TxnId, stamps: &Vec<Timestamp>) -> (r: StorageResult<PutPlan>)
        requires
            self.wf(),
            items@.len() <= u32::MAX,
            self@.state.next_row + fresh_before(self@.state, put_views(items@), items@.len()) <= row_capacity(),
            stamps@.len() >= items@.len(),
        ensures
            r matches Err(e) ==> put_refusal(self@, put_views(items@)) == Some(e@),
            r matches Ok(p) ==> put_refusal(self@, put_views(items@)) is None
                && wal::record_views(p.records@) == put_records(self@, *ctx, txn.0, stamps@, put_views(items@))
                && row_numbers(p.row_ids@) == put_row_ids(self@.state, put_views(items@))
                && all_encode(put_views(items@))
                && replaced_encode(self@.state, put_views(items@)),
    {
        match self.check_dims(items) {
            Ok(_) => {},
            Err(e) => { return Err(e); },
        }
        match self.check_rows(items) {
            Ok(_) => {},
            Err(e) => { return Err(e); },
        }
        let ghost views = put_views(items@);
        let ghost s = self@.state;
        let ghost want = put_records(self@, *ctx, txn.0, stamps@, views);
        let n = items.len() as u32;
        let mut next: u64 = self.inner.next_row_id;
        let mut records: Vec<WalRecord> = Vec::new();
        let mut row_ids: Vec<RowId> = Vec::new();
        let mut seen: StringHashMap<usize> = StringHashMap::new();
        let mut i: usize = 0;
        assert(wal::record_views(records@) =~= want.take(0));
        assert(row_numbers(row_ids@) =~= put_row_ids(s, views).take(0));
        while i < items.len()
            invariant
                i <= items@.len(),
                n == items@.len(),
                stamps@.len() >= items@.len(),
                self.wf(),
                s == self@.state,
                s.next_row + fresh_before(s, views, views.len()) <= row_capacity(),
                views == put_views(items@),
                want == put_records(self@, *ctx, txn.0, stamps@, views),
                next == s.next_row + fresh_before(s, views, i as nat),
                records@.len() == i,
                row_ids@.len() == i,
                wal::record_views(records@) == want.take(i as int),
                row_numbers(row_ids@) == put_row_ids(s, views).take(i as int),
                forall|k: Seq<char>| #[trigger] seen@.contains_key(k) <==> earlier(views, k, i as nat) is Some,
                forall|k: Seq<char>| #[trigger] seen@.contains_key(k) ==> earlier(views, k, i as nat) == Some(seen@[k] as int),
                forall|j: int| 0 <= j < i ==> encoding::encodes((#[trigger] views[j]).vector),
                forall|j: int| 0 <= j < i ==> (#[trigger] replaced_row(s, views, j) matches Some(p) ==> encoding::encodes(p.vector)),
            decreases items@.len() - i,
        {
            let item = &items[i];
            assert(views[i as int] == item@);
            proof {
                lemma_fresh_at_most(s, views, (i + 1) as nat, views.len());
                lemma_earlier(views, item.key@, i as nat);
                lemma_put_row_id(s, views, i as int);
            }
            let ghost was = records@;
            let ghost was_ids = row_ids@;
            let before: Option<usize> = match seen.get(item.key.as_str()) {
                Some(j) => Some(*j),
                None => None,
            };
            let change = match self.inner.key_to_row.get(item.key.as_str()) {
                Some(id) => {
                    assert(s.rows.contains_key(s.keys[item.key@]));
                    let stored = match self.inner.rows.get(id) {
                        Some(p) => p,
                        None => {
                            assert(false);
                            return Err(StorageError::RowNotFound(RowId(*id)));
                        },
                    };
                    assert(stored@ == s.rows[s.keys[item.key@]]);
                    let undo = match before {
                        Some(j) => {
                            assert(views[j as int] == items@[j as int]@);
                            make_image(&items[j].vector, copy_opt(&stored.text), &items[j].fields, &items[j].extra)
                        },
                        None => make_row_image(stored),
                    };
                    RowChange {
                        op: WalOp::Update,
                        row_id: RowId(*id),
                        key: item.key.clone(),
                        doc_id: stored.doc_id,
                        doc_key: None,
                        chunk_ord: stored.chunk_ord,
                        payload: Some(make_image(&item.vector, copy_opt(&stored.text), &item.fields, &item.extra)),
                        undo: Some(undo),
                        params: None,
                    }
                },
                None => match before {
                    Some(j) => {
                        assert(views[j as int] == items@[j as int]@);
                        assert(row_numbers(row_ids@)[j as int] == put_row_id(s, views, j as int));
                        RowChange {
                            op: WalOp::Update,
                            row_id: row_ids[j],
                            key: item.key.clone(),
                            doc_id: None,
                            doc_key: None,
                            chunk_ord: None,
                            payload: Some(make_image(&item.vector, None, &item.fields, &item.extra)),
                            undo: Some(make_image(&items[j].vector, None, &items[j].fields, &items[j].extra)),
                            params: None,
                        }
                    },
                    None => {
                        let id = next;
                        next = next + 1;
                        RowChange {
                            op: WalOp::Insert,
                            row_id: RowId(id),
                            key: item.key.clone(),
                            doc_id: None,
                            doc_key: None,
                            chunk_ord: None,
                            payload: Some(make_image(&item.vector, None, &item.fields, &item.extra)),
                            undo: None,
                            params: None,
                        }
                    },
                },
            };
            seen.insert(item.key.clone(), i);
            assert(change@ == put_change(s, views, i as int));
            row_ids.push(change.row_id);
            records.push(make_record(ctx, &self.name, txn, stamps[i], change, i as u32, n));
            proof {
                assert(records@[i as int]@ == want[i as int]);
                assert(wal::record_views(records@) =~= wal::record_views(was).push(want[i as int]));
                assert(want.take(i + 1) =~= want.take(i as int).push(want[i as int]));
                assert(row_numbers(row_ids@) =~= row_numbers(was_ids).push(put_row_id(s, views, i as int)));
                assert(put_row_ids(s, views).take(i + 1) =~= put_row_ids(s, views).take(i as int).push(put_row_id(s, views, i as int)));
            }
            i += 1;
        }
        proof {
            assert(want.take(i as int) =~= want);
            assert(put_row_ids(s, views).take(i as int) =~= put_row_ids(s, views));
        }
        Ok(PutPlan { records, row_ids })
    }

    /// Ends a planned write once the log has answered. If the append failed
    /// nothing changes; otherwise the records become state and their changes
    /// wait for the subscribers in one batch.
    pub fn finish(&mut self, txn: TxnId, records: &Vec<WalRecord>, appended: Result<(), String>) -> (r: StorageResult<()>)
        requires
            old(self).wf(),
            recovery::all_ids_fit(wal::record_views(records@)),
        ensures
            final(self).wf(),
            appended matches Err(m) ==> *final(self) == *old(self) && recovery::result_is(r, Some(StorageErrorView::Wal(m@))),
            appended is Ok ==> recovery::result_is(r, recovery::applied_from(old(self)@.state, wal::record_views(records@), 0).1),
            appended is Ok && r is Ok ==> final(self)@ == written(old(self)@, txn.0, wal::record_views(records@)),
            appended is Ok && r is Err ==> final(self)@ == (CollectionView {
                state: recovery::applied_from(old(self)@.state, wal::record_views(records@), 0).0,
                ..old(self)@
            }),
    {
        match appended {
            Ok(_) => {},
            Err(m) => { return Err(StorageError::Wal(m)); },
        }
        let ghost views = wal::record_views(records@);
        proof { applying_keeps_sound(self@.state, views, 0); }
        let events = change_events_from_records(records.as_slice());
        match apply_replayed_records(&mut self.inner, records.as_slice()) {
            Ok(_) => {},
            Err(e) => { return Err(e); },
        }
        let batch = ChangeBatch { txn_id: txn, coll: self.name.clone(), events };
        let ghost was = self.outbox@;
        let ghost view = batch@;
        self.outbox.push(batch);
        assert(change::batch_views(self.outbox@) =~= change::batch_views(was).push(view));
        Ok(())
    }
}

/// A collection to which nothing has been written.
pub open spec fn fresh_collection(name: Seq<char>, dim: usize, metric: DistanceMetric, schema: SchemaView, strict: bool) -> CollectionView {
    CollectionView { name, dim, metric, state: state::fresh_state(schema, strict), wal: None, outbox: Seq::empty() }
}

/// The records of a batch that is not refused are well formed.
pub proof fn lemma_put_records_clean(c: CollectionView, ctx: RequestCtx, txn: u128, stamps: Seq<Timestamp>, items: Seq<PutView>)
    requires
        put_refusal(c, items) is None,
        all_encode(items),
    ensures
        forall|i: int| 0 <= i < items.len() ==> recovery::clean(
            c.state.payload,
            #[trigger] put_records(c, ctx, txn, stamps, items)[i],
        ),
{
    let records = put_records(c, ctx, txn, stamps, items);
    assert forall|i: int| 0 <= i < items.len() implies recovery::clean(c.state.payload, #[trigger] records[i]) by {
        lemma_not_refused(items, c.state.payload, 0, i);
        assert(encoding::encodes(items[i].vector));
        assert(recovery::image_fields(records[i].payload->0) == items[i].fields);
    }
}

proof fn lemma_not_refused(items: Seq<PutView>, s: payload::StoreView, from: nat, i: int)
    requires
        from <= i < items.len(),
        first_refused(items, s, from) >= items.len(),
    ensures
        payload::row_refusal(s, items[i].fields) is None,
    decreases items.len() - from,
{
    if from < i {
        lemma_not_refused(items, s, from + 1, i);
    }
}

/// Whether a write took place: for some transaction id and clock readings the
/// collection became what the batch's records make of it.
pub open spec fn put_took_place(before: CollectionView, after: CollectionView, ctx: RequestCtx, items: Seq<PutView>) -> bool {
    exists|txn: u128, stamps: Seq<Timestamp>|
        stamps.len() >= items.len() && #[trigger] put_records(before, ctx, txn, stamps, items).len() == items.len()
            && after == written(before, txn, put_records(before, ctx, txn, stamps, items))
}

/// How writing a batch comes out. A refused batch changes nothing; an empty
/// one too.
pub open spec fn put_batch_outcome(before: CollectionView, after: CollectionView, ctx: RequestCtx, items: Seq<PutView>, r: StorageResult<Vec<RowId>>) -> bool {
    match r {
        Err(e) => put_refusal(before, items) == Some(e@) && after == before,
        Ok(ids) => {
            &&& put_refusal(before, items) is None
            &&& all_encode(items) && replaced_encode(before.state, items)
            &&& row_numbers(ids@) == put_row_ids(before.state, items)
            &&& if items.len() == 0 { after == before } else { put_took_place(before, after, ctx, items) }
        },
    }
}

/// How writing one row comes out.
pub open spec fn put_outcome(before: CollectionView, after: CollectionView, ctx: RequestCtx, item: PutView, r: StorageResult<RowId>) -> bool {
    match r {
        Err(e) => put_refusal(before, seq![item]) == Some(e@) && after == before,
        Ok(id) => {
            &&& put_refusal(before, seq![item]) is None
            &&& all_encode(seq![item]) && replaced_encode(before.state, seq![item])
            &&& id.0 == put_row_id(before.state, seq![item], 0)
            &&& put_took_place(before, after, ctx, seq![item])
        },
    }
}

/// How deleting a key's row comes out.
pub open spec fn delete_outcome(before: CollectionView, after: CollectionView, ctx: RequestCtx, key: Seq<char>, r: StorageResult<()>) -> bool {
    match r {
        Err(e) => !before.state.keys.contains_key(key) && e@ == StorageErrorView::KeyNotFound(key) && after == before,
        Ok(_) => {
            &&& before.state.keys.contains_key(key)
            &&& encoding::encodes(before.state.rows[before.state.keys[key]].vector)
            &&& delete_took_place(before, after, ctx, key)
        },
    }
}

/// Whether the key's row was deleted, by some transaction at some time.
pub open spec fn delete_took_place(before: CollectionView, after: CollectionView, ctx: RequestCtx, key: Seq<char>) -> bool {
    exists|txn: u128, ts: Timestamp|
        after == written(before, txn, #[trigger] delete_records(before, ctx, txn, ts, key))
}

/// What deleting a key's row changes.
pub open spec fn delete_change(s: StateView, key: Seq<char>) -> ChangeView {
    let id = s.keys[key];
    let row = s.rows[id];
    ChangeView {
        op: WalOp::Delete,
        row_id: id,
        key,
        doc_id: row.doc_id,
        doc_key: None,
        chunk_ord: row.chunk_ord,
        payload: None,
        undo: Some(draft::row_image(row)),
        params: None,
    }
}

/// The record of a delete.
pub open spec fn delete_records(c: CollectionView, ctx: RequestCtx, txn: u128, ts: Timestamp, key: Seq<char>) -> Seq<RecordView> {
    seq![draft::drafted(draft::origin(ctx, c.name, txn), delete_change(c.state, key), ts, 0, 1)]
}

/// The ids of a batch's records fit.
pub proof fn lemma_put_ids_fit(c: CollectionView, ctx: RequestCtx, txn: u128, stamps: Seq<Timestamp>, items: Seq<PutView>)
    requires
        sound(c.state),
        c.state.next_row + fresh_before(c.state, items, items.len()) <= row_capacity(),
    ensures
        recovery::all_ids_fit(put_records(c, ctx, txn, stamps, items)),
{
    let records = put_records(c, ctx, txn, stamps, items);
    assert forall|i: int| 0 <= i < records.len() implies recovery::ids_fit(#[trigger] records[i]) by {
        lemma_fresh_at_most(c.state, items, (i + 1) as nat, items.len());
        lemma_put_row_id(c.state, items, i);
        if c.state.keys.contains_key(items[i].key) {
            assert(c.state.rows.contains_key(c.state.keys[items[i].key]));
        }
    }
}

/// The row of a key, if it has a live one.
pub open spec fn row_of_key(s: StateView, key: Seq<char>) -> Option<(u64, RowView)> {
    if s.keys.contains_key(key) && s.rows.contains_key(s.keys[key]) {
        Some((s.keys[key], s.rows[s.keys[key]]))
    } else {
        None
    }
}

/// The live rows after `after`, all of them if there is no such row.
pub open spec fn live_after(s: StateView, after: Option<u64>) -> Set<u32> {
    Set::new(|r: u32| s.live.contains(r) && (after matches Some(a) ==> r > a))
}

/// Whether `page` holds the first `limit` rows of `listing`, in its order.
pub open spec fn pages(s: StateView, listing: Seq<u32>, limit: nat, page: Seq<Row>) -> bool {
    &&& page.len() == if limit < listing.len() { limit } else { listing.len() }
    &&& forall|i: int| 0 <= i < page.len() ==> state::is_row(#[trigger] page[i], listing[i] as u64, s.rows[listing[i] as u64])
}

/// Whether `page` holds the live rows after `after`, ascending, at most `limit`.
pub open spec fn is_page(s: StateView, after: Option<u64>, limit: nat, page: Seq<Row>) -> bool {
    pages(s, bitmap::listing(live_after(s, after)), limit, page)
}

/// Whether `r` is the row of a key, if it has a live one.
pub open spec fn is_row_of_key(s: StateView, key: Seq<char>, r: Option<Row>) -> bool {
    match r {
        Some(row) => row_of_key(s, key) matches Some((id, v)) && state::is_row(row, id, v),
        None => row_of_key(s, key) is None,
    }
}

fn at_or_below(row: u32, floor: Option<u32>) -> (r: bool)
    ensures
        r == (floor matches Some(a) && row <= a),
{
    match floor {
        Some(a) => row <= a,
        None => false,
    }
}

/// Whether `r` is what is known of row `id`.
pub open spec fn is_stored_row(s: StateView, id: u64, r: Option<Row>) -> bool {
    match r {
        Some(row) => s.rows.contains_key(id) && state::is_row(row, id, s.rows[id]),
        None => !s.rows.contains_key(id),
    }
}

/// Whether `r` is row `id` if it is live, and nothing if it is not.
pub open spec fn is_live_row(s: StateView, id: u64, r: Option<Row>) -> bool {
    if s.live.contains(id as u32) { is_stored_row(s, id, r) } else { r is None }
}

/// Whether `r` holds the vector of row `id`, if there is such a row.
pub open spec fn is_vector_of(s: StateView, id: u64, r: Option<Vec<u32>>) -> bool {
    match r {
        Some(v) => s.rows.contains_key(id) && v@ == s.rows[id].vector,
        None => !s.rows.contains_key(id),
    }
}

/// Whether `r` holds the fields of row `id`, if there is such a row.
pub open spec fn are_fields_of(s: StateView, id: u64, r: Option<PayloadRow>) -> bool {
    match r {
        Some(f) => s.rows.contains_key(id) && f@ == s.rows[id].fields,
        None => !s.rows.contains_key(id),
    }
}

impl Collection {
    /// Upserts a batch by key in one transaction, on a collection without a
    /// log. A refused batch changes nothing; an empty one too.
    pub fn put_batch(&mut self, ctx: &RequestCtx, items: Vec<PutInput>) -> (r: StorageResult<Vec<RowId>>)
        requires
            old(self).wf(),
            old(self).wal is None,
            items@.len() <= u32::MAX,
            old(self)@.state.next_row + fresh_before(old(self)@.state, put_views(items@), items@.len()) <= row_capacity(),
        ensures
            final(self).wf(),
            put_batch_outcome(old(self)@, final(self)@, *ctx, put_views(items@), r),
    {
        let txn = TxnId::new();
        let stamps = clock::readings(items.len());
        let plan = match self.plan_put_batch(ctx, &items, txn, &stamps) {
            Ok(p) => p,
            Err(e) => { return Err(e); },
        };
        if items.len() == 0 {
            return Ok(plan.row_ids);
        }
        let ghost views = put_views(items@);
        let ghost before = self@;
        let ghost records = put_records(before, *ctx, txn.0, stamps@, views);
        proof {
            lemma_put_records_clean(before, *ctx, txn.0, stamps@, views);
            lemma_put_ids_fit(before, *ctx, txn.0, stamps@, views);
            recovery::clean_transaction_applies(before.state, records);
        }
        match self.finish(txn, &plan.records, Ok(())) {
            Ok(_) => {},
            Err(e) => { return Err(e); },
        }
        proof {
            assert(records.len() == views.len());
            assert(put_records(before, *ctx, txn.0, stamps@, views).len() == views.len());
        }
        Ok(plan.row_ids)
    }

    /// Upserts one row.
    pub fn put(&mut self, ctx: &RequestCtx, key: &str, vector: Vec<u32>, fields: PayloadRow, extra: Option<String>) -> (r: StorageResult<RowId>)
        requires
            old(self).wf(),
            old(self).wal is None,
            old(self)@.state.keys.contains_key(key@) || old(self)@.state.next_row < row_capacity(),
        ensures
            final(self).wf(),
            put_outcome(
                old(self)@,
                final(self)@,
                *ctx,
                (PutView { key: key@, vector: vector@, fields: fields@, extra: text::opt_text(extra) }),
                r,
            ),
    {
        let ghost item = PutView { key: key@, vector: vector@, fields: fields@, extra: text::opt_text(extra) };
        let mut items: Vec<PutInput> = Vec::new();
        items.push(PutInput { key: key.to_owned(), vector, fields, extra });
        assert(put_views(items@) =~= seq![item]);
        proof {
            assert(fresh_before(self@.state, seq![item], 0) == 0);
            assert(earlier(seq![item], item.key, 0) is None);
        }
        match self.put_batch(ctx, items) {
            Ok(ids) => {
                assert(row_numbers(ids@).len() == 1);
                assert(ids@.len() == 1);
                assert(row_numbers(ids@)[0] == ids@[0].0);
                Ok(ids[0])
            },
            Err(e) => Err(e),
        }
    }

    /// Plans the deletion of a key's row.
    pub fn plan_delete(&self, ctx: &RequestCtx, key: &str, txn: TxnId, ts: Timestamp) -> (r: StorageResult<Vec<WalRecord>>)
        requires
            self.wf(),
        ensures
            r matches Err(e) ==> !self@.state.keys.contains_key(key@) && e@ == StorageErrorView::KeyNotFound(key@),
            r matches Ok(records) ==> self@.state.keys.contains_key(key@)
                && encoding::encodes(self@.state.rows[self@.state.keys[key@]].vector)
                && wal::record_views(records@) == delete_records(self@, *ctx, txn.0, ts, key@),
    {
        let row_id = match self.inner.key_to_row.get(key) {
            Some(id) => *id,
            None => { return Err(StorageError::KeyNotFound(key.to_owned())); },
        };
        assert(self@.state.rows.contains_key(row_id));
        let row = match self.inner.rows.get(&row_id) {
            Some(p) => p,
            None => {
                assert(false);
                return Err(StorageError::KeyNotFound(key.to_owned()));
            },
        };
        assert(row@ == self@.state.rows[row_id]);
        let change = RowChange {
            op: WalOp::Delete,
            row_id: RowId(row_id),
            key: key.to_owned(),
            doc_id: row.doc_id,
            doc_key: None,
            chunk_ord: row.chunk_ord,
            payload: None,
            undo: Some(make_row_image(row)),
            params: None,
        };
        assert(change@ == delete_change(self@.state, key@));
        let mut records: Vec<WalRecord> = Vec::new();
        records.push(make_record(ctx, &self.name, txn, ts, change, 0, 1));
        assert(wal::record_views(records@) =~= delete_records(self@, *ctx, txn.0, ts, key@));
        Ok(records)
    }

    /// Deletes a key's row, on a collection without a log.
    pub fn delete(&mut self, ctx: &RequestCtx, key: &str) -> (r: StorageResult<()>)
        requires
            old(self).wf(),
            old(self).wal is None,
        ensures
            final(self).wf(),
            delete_outcome(old(self)@, final(self)@, *ctx, key@, r),
    {
        let txn = TxnId::new();
        let ts = clock::now();
        let records = match self.plan_delete(ctx, key, txn, ts) {
            Ok(p) => p,
            Err(e) => { return Err(e); },
        };
        let ghost before = self@;
        let ghost views = delete_records(before, *ctx, txn.0, ts, key@);
        proof {
            assert(before.state.rows.contains_key(before.state.keys[key@]));
            assert(recovery::ids_fit(views[0]));
            assert(recovery::clean(before.state.payload, views[0]));
            recovery::clean_transaction_applies(before.state, views);
        }
        match self.finish(txn, &records, Ok(())) {
            Ok(_) => {},
            Err(e) => { return Err(e); },
        }
        Ok(())
    }

    /// The row of a key.
    pub fn get_by_key(&self, key: &str) -> (r: Option<Row>)
        ensures
            is_row_of_key(self@.state, key@, r),
    {
        match self.inner.key_to_row.get(key) {
            Some(id) => match self.inner.rows.get(id) {
                Some(rec) => Some(rec.to_row(RowId(*id))),
                None => None,
            },
            None => None,
        }
    }

    /// Live rows in ascending order, strictly after `after`, at most `limit`.
    pub fn scan(&self, after: Option<RowId>, limit: usize) -> (r: Vec<Row>)
        requires
            self.wf(),
            after matches Some(a) ==> a.0 <= u32::MAX,
        ensures
            is_page(self@.state, wal::opt_row(after), limit as nat, r@),
    {
        let all = bitmap_to_vec(&self.inner.live);
        let ghost s = self@.state;
        let floor: Option<u32> = match after {
            Some(a) => Some(a.to_bitmap_index()),
            None => None,
        };
        let mut start: usize = 0;
        while start < all.len() && at_or_below(all[start], floor)
            invariant
                start <= all@.len(),
                bitmap::lists_ascending(all@, s.live),
                forall|k: int| 0 <= k < start ==> floor is Some && #[trigger] all@[k] <= floor->0,
            decreases all@.len() - start,
        {
            start += 1;
        }
        let ghost listing = all@.subrange(start as int, all@.len() as int);
        proof {
            let want = live_after(s, wal::opt_row(after));
            if start < all@.len() {
                assert forall|k: int| start <= k < all@.len() implies (floor matches Some(a) ==> #[trigger] all@[k] > a) by {
                    if k > start {
                        assert(all@[start as int] < all@[k]);
                    }
                }
            }
            assert forall|v: u32| #[trigger] want.contains(v) <==> listing.contains(v) by {
                if want.contains(v) {
                    assert(s.live.contains(v));
                    let k = choose|k: int| 0 <= k < all@.len() && all@[k] == v;
                    assert(k >= start);
                    assert(listing[k - start] == v);
                }
                if listing.contains(v) {
                    let k = choose|k: int| 0 <= k < listing.len() && listing[k] == v;
                    assert(all@[k + start] == v);
                    assert(all@.contains(v));
                    assert(s.live.contains(v));
                }
            }
        }
        proof { bitmap::listing_is(listing, live_after(s, wal::opt_row(after))); }
        let mut out: Vec<Row> = Vec::new();
        let mut i: usize = start;
        while i < all.len() && out.len() < limit
            invariant
                start <= i <= all@.len(),
                self.wf(),
                s == self@.state,
                bitmap::lists_ascending(all@, s.live),
                listing == all@.subrange(start as int, all@.len() as int),
                out@.len() == i - start,
                out@.len() <= limit,
                forall|k: int| 0 <= k < out@.len() ==> state::is_row(#[trigger] out@[k], listing[k] as u64, s.rows[listing[k] as u64]),
            decreases all@.len() - i,
        {
            let row_id = RowId::from_bitmap_index(all[i]);
            proof {
                assert(all@.contains(all@[i as int]));
                assert(s.live.contains(all@[i as int]));
                assert(s.rows.contains_key(row_id.0));
                assert(listing[i - start] == all@[i as int]);
            }
            match self.inner.rows.get(&row_id.0) {
                Some(rec) => { out.push(rec.to_row(row_id)); },
                None => { assert(false); },
            }
            i += 1;
        }
        assert(pages(s, listing, limit as nat, out@));
        out
    }

    /// The vectors of rows, live or not, in the order asked for.
    pub fn fetch_vectors(&self, ids: &Vec<RowId>) -> (r: Vec<Option<Vec<u32>>>)
        ensures
            r@.len() == ids@.len(),
            forall|i: int| 0 <= i < ids@.len() ==> is_vector_of(self@.state, ids@[i].0, #[trigger] r@[i]),
    {
        let mut out: Vec<Option<Vec<u32>>> = Vec::new();
        while out.len() < ids.len()
            invariant
                out@.len() <= ids@.len(),
                forall|i: int| 0 <= i < out@.len() ==> is_vector_of(self@.state, ids@[i].0, #[trigger] out@[i]),
            decreases ids@.len() - out@.len(),
        {
            let found = match self.inner.rows.get(&ids[out.len()].0) {
                Some(rec) => Some(copy_vector(&rec.vector)),
                None => None,
            };
            out.push(found);
        }
        out
    }

    /// Live rows by id, in the order asked for; a deleted row is not given
    /// out, though its record is still kept.
    pub fn rows_by_id(&self, ids: &Vec<RowId>) -> (r: Vec<Option<Row>>)
        requires
            forall|i: int| 0 <= i < ids@.len() ==> (#[trigger] ids@[i]).0 <= u32::MAX,
        ensures
            r@.len() == ids@.len(),
            forall|i: int| 0 <= i < ids@.len() ==> is_live_row(self@.state, ids@[i].0, #[trigger] r@[i]),
    {
        let mut out: Vec<Option<Row>> = Vec::new();
        while out.len() < ids.len()
            invariant
                forall|i: int| 0 <= i < ids@.len() ==> (#[trigger] ids@[i]).0 <= u32::MAX,
                out@.len() <= ids@.len(),
                forall|i: int| 0 <= i < out@.len() ==> is_live_row(self@.state, ids@[i].0, #[trigger] out@[i]),
            decreases ids@.len() - out@.len(),
        {
            let id = ids[out.len()];
            let found = if bitmap_contains(&self.inner.live, id.to_bitmap_index()) {
                match self.inner.rows.get(&id.0) {
                    Some(rec) => Some(rec.to_row(id)),
                    None => None,
                }
            } else {
                None
            };
            out.push(found);
        }
        out
    }

    /// How many rows are live.
    pub fn active_count(&self) -> (r: u64)
        ensures
            bitmap::is_count(r, self@.state.live),
    {
        bitmap_len(&self.inner.live)
    }

    /// The fields of a row, live or not.
    pub fn payload_of(&self, row_id: RowId) -> (r: Option<PayloadRow>)
        ensures
            are_fields_of(self@.state, row_id.0, r),
    {
        match self.inner.rows.get(&row_id.0) {
            Some(rec) => Some(rec.fields.clone()),
            None => None,
        }
    }

    /// The fields of rows, in the order asked for.
    pub fn payload_batch(&self, ids: &Vec<RowId>) -> (r: Vec<Option<PayloadRow>>)
        ensures
            r@.len() == ids@.len(),
            forall|i: int| 0 <= i < ids@.len() ==> are_fields_of(self@.state, ids@[i].0, #[trigger] r@[i]),
    {
        let mut out: Vec<Option<PayloadRow>> = Vec::new();
        while out.len() < ids.len()
            invariant
                out@.len() <= ids@.len(),
                forall|i: int| 0 <= i < out@.len() ==> are_fields_of(self@.state, ids@[i].0, #[trigger] out@[i]),
            decreases ids@.len() - out@.len(),
        {
            let found = self.payload_of(ids[out.len()]);
            out.push(found);
        }
        out
    }

    /// The declared fields, in the order in which they were declared.
    pub fn schema_fields(&self) -> (r: Vec<(String, FieldType)>)
        requires
            self.wf(),
        ensures
            payload::schema_of(r@) == self@.state.payload.schema,
    {
        self.inner.payload.schema().iter()
    }
}

} // verus!
