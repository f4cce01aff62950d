//! A verified core for a small vector database: identifiers and log
//! positions, the frame codec, the typed payload store with its filter
//! compiler, the write-ahead log, transactional collections with undo, and
//! the decision logic of the vector indexes.

pub mod announcements;
pub mod api;
pub mod bitmap;
pub mod change;
pub mod clock;
pub mod coarse;
pub mod codec;
pub mod collection;
pub mod columns;
pub mod consistency;
pub mod contents;
pub mod doc_guarantees;
pub mod doc_reversal;
pub mod document;
pub mod draft;
pub mod encoding;
pub mod error;
pub mod fields;
pub mod filter;
pub mod filter_guarantees;
pub mod flat;
pub mod grouping;
pub mod guarantees;
pub mod hit;
pub mod ids;
pub mod ivf;
pub mod ivf_pq;
pub mod kmeans;
pub mod live;
pub mod log_guarantees;
pub mod lsh;
pub mod lsn;
pub mod message_guarantees;
pub mod messages;
pub mod model;
pub mod opq;
pub mod order;
pub mod params;
pub mod payload;
pub mod postings;
pub mod pq;
pub mod probe_guarantees;
pub mod quantiser_guarantees;
pub mod read_guarantees;
pub mod recovery;
pub mod registry_guarantees;
pub mod reopening;
pub mod replication;
pub mod request;
pub mod response;
pub mod reversal;
pub mod schema_guarantees;
pub mod scoring;
pub mod select;
pub mod shortlist;
pub mod snapshot;
pub mod state;
pub mod store;
pub mod text;
pub mod txn_index;
pub mod undo;
pub mod undo_guarantees;
pub mod wal;
pub mod wire_guarantees;
pub mod write_guarantees;
