//! A minimal persistent tabular store: an in-memory schema catalog, an
//! append-only binary row codec, a storage-backend capability, and an
//! executor that turns structured statements into catalog and storage
//! operations.

pub mod catalog;
pub mod executor;
pub mod storage;
pub mod text;
