//! What subscribers are told of a transaction.

use crate::fields::{FieldsView, PayloadRow};
use crate::ids::{DocId, RowId, TxnId};
use crate::text;
use crate::wal;
use vstd::prelude::*;

verus! {

/// One row's change.
pub enum ChangeEvent {
    Insert {
        row_id: RowId,
        key: String,
        vector: Vec<u32>,
        fields: PayloadRow,
        extra: Option<String>,
        doc_id: Option<DocId>,
        text: Option<String>,
    },
    Update {
        row_id: RowId,
        key: String,
        vector: Vec<u32>,
        fields: PayloadRow,
        extra: Option<String>,
        doc_id: Option<DocId>,
        text: Option<String>,
    },
    /// `text` is what the row held before, so that a text index can take its
    /// terms out again.
    Delete { row_id: RowId, doc_id: Option<DocId>, text: Option<String> },
}

/// What a written row came to hold.
pub struct WrittenView {
    pub row_id: u64,
    pub key: Seq<char>,
    pub vector: Seq<u32>,
    pub fields: FieldsView,
    pub extra: Option<Seq<char>>,
    pub doc_id: Option<u64>,
    pub text: Option<Seq<char>>,
}

/// The contents of a [`ChangeEvent`].
pub enum EventView {
    Insert(WrittenView),
    Update(WrittenView),
    Delete { row_id: u64, doc_id: Option<u64>, text: Option<Seq<char>> },
}

impl View for ChangeEvent {
    type V = EventView;

    open spec fn view(&self) -> EventView {
        match self {
            ChangeEvent::Insert { row_id, key, vector, fields, extra, doc_id, text } => EventView::Insert(WrittenView {
                row_id: row_id.0,
                key: key@,
                vector: vector@,
                fields: fields@,
                extra: text::opt_text(*extra),
                doc_id: wal::opt_doc(*doc_id),
                text: text::opt_text(*text),
            }),
            ChangeEvent::Update { row_id, key, vector, fields, extra, doc_id, text } => EventView::Update(WrittenView {
                row_id: row_id.0,
                key: key@,
                vector: vector@,
                fields: fields@,
                extra: text::opt_text(*extra),
                doc_id: wal::opt_doc(*doc_id),
                text: text::opt_text(*text),
            }),
            ChangeEvent::Delete { row_id, doc_id, text } => EventView::Delete {
                row_id: row_id.0,
                doc_id: wal::opt_doc(*doc_id),
                text: text::opt_text(*text),
            },
        }
    }
}

/// The row that an event is about.
pub open spec fn event_row(e: EventView) -> u64 {
    match e {
        EventView::Insert(w) => w.row_id,
        EventView::Update(w) => w.row_id,
        EventView::Delete { row_id, doc_id, text } => row_id,
    }
}

/// The document that an event's row belongs to.
pub open spec fn event_doc(e: EventView) -> Option<u64> {
    match e {
        EventView::Insert(w) => w.doc_id,
        EventView::Update(w) => w.doc_id,
        EventView::Delete { row_id, doc_id, text } => doc_id,
    }
}

impl ChangeEvent {
    /// The row that the event is about.
    pub fn row_id(&self) -> (r: RowId)
        ensures
            r.0 == event_row(self@),
    {
        match self {
            ChangeEvent::Insert { row_id, .. } => *row_id,
            ChangeEvent::Update { row_id, .. } => *row_id,
            ChangeEvent::Delete { row_id, .. } => *row_id,
        }
    }

    /// The document that the row belongs to, if any.
    pub fn doc_id(&self) -> (r: Option<DocId>)
        ensures
            wal::opt_doc(r) == event_doc(self@),
    {
        match self {
            ChangeEvent::Insert { doc_id, .. } => *doc_id,
            ChangeEvent::Update { doc_id, .. } => *doc_id,
            ChangeEvent::Delete { doc_id, .. } => *doc_id,
        }
    }
}

/// All the changes of one transaction, delivered together.
pub struct ChangeBatch {
    pub txn_id: TxnId,
    pub coll: String,
    pub events: Vec<ChangeEvent>,
}

/// The contents of a list of events.
pub open spec fn event_views(s: Seq<ChangeEvent>) -> Seq<EventView> {
    Seq::new(s.len(), |i: int| s[i]@)
}

/// The contents of a [`ChangeBatch`].
pub struct BatchView {
    pub txn_id: u128,
    pub coll: Seq<char>,
    pub events: Seq<EventView>,
}

impl View for ChangeBatch {
    type V = BatchView;

    open spec fn view(&self) -> BatchView {
        BatchView { txn_id: self.txn_id.0, coll: self.coll@, events: event_views(self.events@) }
    }
}

/// The contents of a list of batches.
pub open spec fn batch_views(s: Seq<ChangeBatch>) -> Seq<BatchView> {
    Seq::new(s.len(), |i: int| s[i]@)
}

} // verus!
