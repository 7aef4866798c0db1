//! Decoding, transforming and re-encoding of the on-disk formats of an
//! embedded relational database: the main database file and its write-ahead
//! log (WAL), together with the algorithms that reconcile the two.
//!
//! Raw bytes are parsed into typed structures (`db::decode`, `wal::decode`),
//! a WAL is applied onto a database (`backfill::backfill`) or turned into a
//! fresh one (`backfill::to_db`), and the typed structures are re-emitted as
//! bytes (`db::encode`, `wal::encode`) with the format's two-word checksum
//! threaded through the emission. A B-tree page decoder reads the schema
//! table far enough to map table names to root pages.

pub mod error;
pub mod bytes;
pub mod types;
pub mod db;
pub mod wal;
pub mod backfill;
pub mod btree;
pub mod schema;
pub mod sql;
pub mod opcode;
