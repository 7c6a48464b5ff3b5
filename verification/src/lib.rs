//! A key-value separated log-structured merge store.
//!
//! The store composes an LSM index with a value log: small values live
//! inline in the index, large values are moved out of line at flush time
//! and the index keeps a compact handle instead.  Point lookups and range
//! scans resolve either representation transparently, and multi-version
//! concurrency is driven by caller-supplied sequence numbers.

pub mod api;
pub mod blob;
pub mod codec;
pub mod error;
pub mod index;
pub mod keys;
pub mod range;
pub mod vlog;

pub use api::AbstractTree;
pub use blob::BlobTree;
