//! Log configuration.

use vstd::prelude::*;

verus! {

/// The default maximum record size: 64 MiB.
///
/// Generous enough for any realistic single record, small enough that a corrupt
/// length prefix cannot request a wild allocation.
pub const DEFAULT_MAX_RECORD_SIZE: u32 = 67_108_864;

/// How iteration reacts to a damaged record.
///
/// This governs iteration, not the truncation of a torn tail that opening a log
/// always performs. It matters when a record in the middle of a log that was
/// opened is damaged, by bit rot say, and the log is read back.
#[derive(Debug, Clone, Copy, PartialEq, Eq, Structural)]
#[non_exhaustive]
pub enum RecoveryPolicy {
    /// Yield the first damaged record as a corruption error, then end.
    StopAtFirstError,
    /// Yield each damaged record as a corruption error and resume at the next
    /// record, as long as the damaged record's length prefix still says where
    /// that one begins.
    SkipBadRecords,
}

/// Tunable parameters of a log. A builder: each `with_*` method takes and returns
/// the configuration.
#[derive(Debug, Clone, Copy, PartialEq, Eq, Structural)]
pub struct WalConfig {
    max_record_size: u32,
    recovery_policy: RecoveryPolicy,
}

impl WalConfig {
    /// The largest payload that the log accepts, in bytes.
    pub closed spec fn max_size(self) -> u32 {
        self.max_record_size
    }

    /// How iteration reacts to damage.
    pub closed spec fn policy(self) -> RecoveryPolicy {
        self.recovery_policy
    }

    /// The defaults: records of up to 64 MiB, and iteration that stops at the
    /// first damaged record.
    #[must_use]
    pub fn new() -> (config: Self)
        ensures
            config.max_size() == 64 * 1024 * 1024,
            config.policy() == RecoveryPolicy::StopAtFirstError,
    {
        WalConfig {
            max_record_size: DEFAULT_MAX_RECORD_SIZE,
            recovery_policy: RecoveryPolicy::StopAtFirstError,
        }
    }

    /// Set the largest record the log will accept, in bytes.
    #[must_use]
    pub fn with_max_record_size(self, bytes: u32) -> (config: Self)
        ensures
            config.max_size() == bytes,
            config.policy() == self.policy(),
    {
        WalConfig { max_record_size: bytes, recovery_policy: self.recovery_policy }
    }

    /// The configured maximum record size, in bytes.
    #[must_use]
    pub fn max_record_size(self) -> (bytes: u32)
        ensures
            bytes == self.max_size(),
    {
        self.max_record_size
    }

    /// Set how iteration reacts to a damaged record.
    #[must_use]
    pub fn with_recovery_policy(self, policy: RecoveryPolicy) -> (config: Self)
        ensures
            config.policy() == policy,
            config.max_size() == self.max_size(),
    {
        WalConfig { max_record_size: self.max_record_size, recovery_policy: policy }
    }

    /// The configured recovery policy.
    #[must_use]
    pub fn recovery_policy(self) -> (policy: RecoveryPolicy)
        ensures
            policy == self.policy(),
    {
        self.recovery_policy
    }
}

impl Default for WalConfig {
    fn default() -> (config: Self)
        ensures
            config.max_size() == 64 * 1024 * 1024,
            config.policy() == RecoveryPolicy::StopAtFirstError,
    {
        Self::new()
    }
}

/// Two configurations are the same exactly if their parts are.
pub proof fn config_is_its_parts(a: WalConfig, b: WalConfig)
    ensures
        a == b <==> a.max_size() == b.max_size() && a.policy() == b.policy(),
{
}

} // verus!
