use wal_db::{MemStore, WalStore};

#[test]
fn test_memstore_append_advances_len() {
    let mut store = MemStore::new();
    assert_eq!(store.len().unwrap(), 0);
    store.append(b"abc").unwrap();
    assert_eq!(store.len().unwrap(), 3);
    store.append(b"de").unwrap();
    assert_eq!(store.len().unwrap(), 5);
}

#[test]
fn test_memstore_read_at_returns_requested_bytes() {
    let mut store = MemStore::new();
    store.append(b"0123456789").unwrap();
    let mut buf = [0u8; 4];
    let n = store.read_at(2, &mut buf).unwrap();
    assert_eq!(n, 4);
    assert_eq!(&buf, b"2345");
}

#[test]
fn test_memstore_read_past_end_is_short() {
    let mut store = MemStore::new();
    store.append(b"abc").unwrap();
    let mut buf = [0u8; 8];
    let n = store.read_at(1, &mut buf).unwrap();
    assert_eq!(n, 2); // only "bc" remained
    assert_eq!(&buf[..2], b"bc");
}

#[test]
fn test_memstore_read_at_or_past_eof_is_zero() {
    let mut store = MemStore::new();
    store.append(b"abc").unwrap();
    let mut buf = [0u8; 4];
    assert_eq!(store.read_at(3, &mut buf).unwrap(), 0);
    assert_eq!(store.read_at(99, &mut buf).unwrap(), 0);
}

#[test]
fn test_memstore_truncate_shrinks() {
    let mut store = MemStore::new();
    store.append(b"0123456789").unwrap();
    store.truncate(4).unwrap();
    assert_eq!(store.len().unwrap(), 4);
    let mut buf = [0u8; 8];
    assert_eq!(store.read_at(0, &mut buf).unwrap(), 4);
    assert_eq!(&buf[..4], b"0123");
}

#[test]
fn memstore_write_past_the_end_fills_the_gap_with_zeros() {
    let mut store = MemStore::from_bytes(b"ab".to_vec());
    store.write_at(4, b"xy").unwrap();
    assert_eq!(store.snapshot(), b"ab\0\0xy".to_vec());
    store.write_at(1, b"ZZZ").unwrap();
    assert_eq!(store.snapshot(), b"aZZZxy".to_vec());
    store.write_at(5, b"end").unwrap();
    assert_eq!(store.snapshot(), b"aZZZxend".to_vec());
}

#[test]
fn memstore_rejects_what_no_allocation_can_hold() {
    let mut store = MemStore::new();
    assert!(store.write_at(u64::MAX, b"x").is_err());
    assert_eq!(store.len().unwrap(), 0);
}

#[test]
fn memstore_truncate_past_the_end_changes_nothing() {
    let mut store = MemStore::with_capacity(16);
    assert!(store.is_empty().unwrap());
    store.append(b"abc").unwrap();
    store.truncate(100).unwrap();
    assert_eq!(store.snapshot(), b"abc".to_vec());
    assert!(!store.is_empty().unwrap());
}

#[test]
fn memstore_keeps_its_front() {
    let mut store = MemStore::from_bytes(b"0123456789".to_vec());
    assert_eq!(store.head().unwrap(), 0);
    assert_eq!(store.truncate_before(5).unwrap(), 0);
    store.sync().unwrap();
    let copy = store.clone();
    assert_eq!(copy.snapshot(), b"0123456789".to_vec());
    assert_eq!(MemStore::default().snapshot(), Vec::<u8>::new());
}
