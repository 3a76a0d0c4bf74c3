//! Synchronization engine for a product-data-management client.
//!
//! The crate keeps a local directory of CAD files consistent with a remote
//! project store.  It holds the decisions of that engine as verified code:
//! how a directory walk becomes a snapshot, how a snapshot is compared with
//! the previous one, what the per-file ledger records, how chunked content is
//! put back together, and in which order a bulk transfer proceeds.
pub mod cache;
pub mod change;
pub mod dal;
pub mod download;
pub mod fingerprint;
pub mod table;
pub mod text;
pub mod upload;
