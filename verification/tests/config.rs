use wal_db::{RecoveryPolicy, WalConfig};

#[test]
fn test_default_max_record_size_is_64_mib() {
    assert_eq!(WalConfig::new().max_record_size(), 64 * 1024 * 1024);
    assert_eq!(WalConfig::default().max_record_size(), 64 * 1024 * 1024);
}

#[test]
fn test_with_max_record_size_overrides_default() {
    let config = WalConfig::new().with_max_record_size(123);
    assert_eq!(config.max_record_size(), 123);
}

#[test]
fn test_config_is_copy_and_eq() {
    let a = WalConfig::new().with_max_record_size(10);
    let b = a;
    assert_eq!(a, b);
}

#[test]
fn recovery_policy_is_set_and_read() {
    assert_eq!(
        WalConfig::new().recovery_policy(),
        RecoveryPolicy::StopAtFirstError
    );
    let config = WalConfig::new().with_recovery_policy(RecoveryPolicy::SkipBadRecords);
    assert_eq!(config.recovery_policy(), RecoveryPolicy::SkipBadRecords);
    assert_eq!(config.max_record_size(), 64 * 1024 * 1024);
}

#[test]
fn configurations_are_equal_when_their_parts_are() {
    assert_eq!(WalConfig::default(), WalConfig::new());
    assert_eq!(
        WalConfig::new().with_max_record_size(10).with_recovery_policy(RecoveryPolicy::SkipBadRecords),
        WalConfig::new().with_recovery_policy(RecoveryPolicy::SkipBadRecords).with_max_record_size(10)
    );
    assert_ne!(WalConfig::new().with_max_record_size(10), WalConfig::new());
    assert_ne!(
        WalConfig::new().with_recovery_policy(RecoveryPolicy::SkipBadRecords),
        WalConfig::new()
    );
}
