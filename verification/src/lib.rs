//! A read-only query engine over SQLite database files.
//!
//! The engine decodes the on-disk format (varints, records, B-tree pages),
//! walks table and index trees, and runs a small subset of `SELECT`. It
//! works on the bytes of a file; reading the file is left to the caller.
//!
//! Every executable function carries a contract over plain values: byte
//! sequences, texts as sequences of characters, and the views of the decoded
//! types. The modules `utils`, `encode` and `laws` also state what holds
//! across functions: that decoding undoes encoding, that a scan loses no row,
//! that a count is the length of a scan, and that an index gives the rows
//! that a scan gives.

pub mod btree;
pub mod db;
pub mod encode;
pub mod error;
pub mod laws;
pub mod output;
pub mod page;
pub mod plan;
pub mod query;
pub mod record;
pub mod schema;
pub mod sql;
pub mod text;
pub mod utils;
