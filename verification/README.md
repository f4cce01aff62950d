# mara

A small vector database whose core is verified with Verus.

`src/` is the verified library. Nothing in it does I/O or floating-point
arithmetic: vectors and scores are held as bit patterns, files as lists of
lines, the clock as a number.

| Part | Modules |
| --- | --- |
| Identifiers, text, positions | `ids`, `text`, `lsn`, `model`, `error`, `messages` |
| Messages and frames | `request`, `response`, `store`, `codec` |
| Payload fields and filters | `fields`, `filter`, `columns`, `postings`, `payload`, `select` |
| The write-ahead log | `encoding`, `wal`, `recovery`, `replication` |
| Collections and documents | `state`, `draft`, `collection`, `document`, `change`, `api` |
| Transactions, undo, checkpoints | `txn_index`, `undo`, `snapshot` |
| Vector indexes | `coarse`, `flat`, `ivf`, `ivf_pq`, `pq`, `opq`, `kmeans`, `lsh`, `live`, `scoring`, `grouping`, `shortlist`, `hit`, `params`, `order` |
| What holds of them together | `consistency`, `guarantees`, `doc_guarantees`, `reversal`, `doc_reversal`, `reopening`, `announcements` |
| Outside calls | `bitmap`, `encoding`, `ids`, `clock` |

A durable write has three steps: the library plans its records, the caller
appends them to the log, and the library applies them and announces the
changes. A search has two: the library names the candidates, the caller
scores them, and the library ranks them.

`app/` holds the rest: files, sockets, serialised forms, and arithmetic on
floats. `tests/` runs the library, with the log kept in memory.
