//! A write-ahead log for storage engines.
//!
//! A state change is appended to a durable, append-only log before it is
//! acknowledged, and the log is the source of truth from which state is rebuilt
//! after a crash.
//!
//! The common case is four calls: build a [`Wal`] over a store, append, sync,
//! iterate. The sequence number of a record is the byte offset at which its frame
//! begins. [`Wal::append`] returns once the store took the bytes, [`Wal::sync`] once
//! they are on stable storage.
//!
//! Every record carries a CRC32C checksum. Recovery walks the log forward and stops
//! at the first record that is incomplete or damaged; what stands before it is kept
//! and the rest is cut off. A length prefix is checked against the maximum record
//! size before a byte of payload is read.
//!
//! The modules, from the bytes up:
//!
//! - [`decimal`]: numerals, in messages and file names.
//! - [`bytes`]: integers as little-endian bytes.
//! - [`checksum`], [`record`], [`stamped`]: the checksum and the frames.
//! - [`image`]: what the bytes of a log mean, and the laws of recovery.
//! - [`store`]: the backend trait and the in-memory store.
//! - [`positioned`]: transfers to and from a file, attempt by attempt.
//! - [`segment`]: how a log is striped across segment files.
//! - [`commit`]: the watermarks and group commit.
//! - [`wal`]: the log itself.
//! - [`concurrent`], [`group`]: the laws of appends and of syncs that happen at once.

pub mod bytes;
pub mod checksum;
pub mod commit;
pub mod concurrent;
pub mod config;
pub mod decimal;
pub mod error;
pub mod group;
pub mod image;
pub mod lsn;
pub mod positioned;
pub mod prelude;
pub mod record;
pub mod segment;
pub mod stamped;
pub mod store;
pub mod wal;

pub use crate::config::{RecoveryPolicy, WalConfig};
pub use crate::error::WalError;
pub use crate::lsn::Lsn;
pub use crate::segment::SegmentedStore;
pub use crate::store::{MemStore, WalStore};
pub use crate::wal::{Record, Wal, WalIter};
