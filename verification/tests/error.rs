use std::io;
use wal_db::error::push_io_message;
use wal_db::WalError;

#[test]
fn test_io_error_exposes_source() {
    let inner = io::Error::new(io::ErrorKind::PermissionDenied, "denied");
    let err = WalError::io("open log file", inner);
    let io_source = err.source().expect("io error has a source");
    assert_eq!(io_source.kind(), io::ErrorKind::PermissionDenied);
}

#[test]
fn test_record_too_large_has_no_source() {
    let err = WalError::RecordTooLarge {
        len: 4096,
        max: 1024,
    };
    assert!(err.source().is_none());
}

#[test]
fn test_corruption_is_fatal_others_are_not() {
    assert!(WalError::corruption(128, "checksum mismatch").is_fatal());
    assert!(!WalError::RecordTooLarge { len: 1, max: 0 }.is_fatal());
    let io = WalError::io("x", io::Error::from(io::ErrorKind::Other));
    assert!(!io.is_fatal());
    assert!(!WalError::encoding("bad".to_string()).is_fatal());
}

#[test]
fn test_kind_matches_variant() {
    assert_eq!(WalError::corruption(0, "x").kind(), "Corruption");
    assert_eq!(
        WalError::RecordTooLarge { len: 1, max: 0 }.kind(),
        "RecordTooLarge"
    );
    assert_eq!(WalError::encoding("x".to_string()).kind(), "Encoding");
    assert_eq!(
        WalError::from(io::Error::from(io::ErrorKind::Other)).kind(),
        "Io"
    );
}

#[test]
fn test_display_is_actionable() {
    let err = WalError::RecordTooLarge {
        len: 4096,
        max: 1024,
    };
    assert_eq!(
        err.to_string(),
        "record of 4096 bytes exceeds the maximum of 1024 bytes"
    );
}

#[test]
fn every_variant_displays_its_fields() {
    assert_eq!(
        WalError::corruption(128, "checksum mismatch").to_string(),
        "log corruption at byte offset 128: checksum mismatch"
    );
    assert_eq!(
        WalError::encoding("unexpected end".to_string()).to_string(),
        "typed record codec error: unexpected end"
    );
    let err = WalError::io(
        "opening the log file",
        io::Error::new(io::ErrorKind::Other, "no such device"),
    );
    assert_eq!(
        err.to_string(),
        "i/o error while opening the log file: no such device"
    );
}

#[test]
fn bare_io_errors_get_a_generic_context() {
    let err = WalError::from(io::Error::new(io::ErrorKind::Other, "boom"));
    assert_eq!(
        err.to_string(),
        "i/o error while performing a log i/o operation: boom"
    );
    assert_eq!(err.caption(), "write-ahead log error");
}

#[test]
fn io_message_is_appended() {
    let mut out = "warning: ".to_string();
    push_io_message(&mut out, "x", "y");
    assert_eq!(out, "warning: i/o error while x: y");
}
