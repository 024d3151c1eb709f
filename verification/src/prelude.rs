//! The common imports for working with a log.

pub use crate::config::WalConfig;
pub use crate::error::WalError;
pub use crate::lsn::Lsn;
pub use crate::store::WalStore;
pub use crate::wal::{Record, Wal};
