//! Boundary and edge cases: exact size limits, empty records, large records,
//! and byte-exact round-trips.

use wal_db::{MemStore, Wal, WalConfig, WalError};

fn drain(wal: &Wal<MemStore>) -> Vec<Vec<u8>> {
    let mut iter = wal.iter().unwrap();
    let mut out = Vec::new();
    while let Some(item) = iter.next() {
        out.push(item.unwrap().into_data());
    }
    out
}

#[test]
fn record_exactly_at_the_limit_is_accepted_one_over_is_rejected() {
    let config = WalConfig::new().with_max_record_size(64);
    let mut wal = Wal::with_store_and_config(MemStore::new(), config).unwrap();

    // Exactly the limit: accepted.
    let at_limit = vec![0xABu8; 64];
    assert!(wal.append(&at_limit).is_ok());

    // One byte over: rejected, log unchanged.
    let over = vec![0xABu8; 65];
    let err = wal.append(&over).unwrap_err();
    assert!(matches!(err, WalError::RecordTooLarge { len: 65, max: 64 }));

    // The accepted record is still the only one, intact.
    assert_eq!(drain(&wal), vec![at_limit]);
}

#[test]
fn a_record_at_the_maximum_size_round_trips_through_recovery() {
    let big = vec![0x5Au8; 4096];
    let image = {
        let config = WalConfig::new().with_max_record_size(4096);
        let mut wal = Wal::with_store_and_config(MemStore::new(), config).unwrap();
        let _ = wal.append(&big).unwrap();
        wal.sync().unwrap();
        wal.into_store().snapshot()
    };

    let config = WalConfig::new().with_max_record_size(4096);
    let wal = Wal::with_store_and_config(MemStore::from_bytes(image), config).unwrap();
    assert_eq!(drain(&wal), vec![big]);
}

#[test]
fn many_empty_records_round_trip() {
    let mut wal = Wal::with_store(MemStore::new()).unwrap();
    for _ in 0..1_000 {
        let _ = wal.append(b"").unwrap();
    }
    let records = drain(&wal);
    assert_eq!(records.len(), 1_000);
    assert!(records.iter().all(Vec::is_empty));
}

#[test]
fn alternating_empty_and_full_records_keep_their_order() {
    let expected: Vec<Vec<u8>> = (0..100u32)
        .map(|i| {
            if i % 2 == 0 {
                Vec::new()
            } else {
                format!("record {i}").into_bytes()
            }
        })
        .collect();

    let image = {
        let mut wal = Wal::with_store(MemStore::new()).unwrap();
        for record in &expected {
            let _ = wal.append(record).unwrap();
        }
        wal.sync().unwrap();
        wal.into_store().snapshot()
    };

    let wal = Wal::with_store(MemStore::from_bytes(image)).unwrap();
    assert_eq!(drain(&wal), expected);
}

#[test]
fn the_on_disk_image_is_byte_for_byte_stable() {
    // The same records written twice must produce identical bytes.
    fn image(records: &[&[u8]]) -> Vec<u8> {
        let mut wal = Wal::with_store(MemStore::new()).unwrap();
        for record in records {
            let _ = wal.append(record).unwrap();
        }
        wal.sync().unwrap();
        wal.into_store().snapshot()
    }

    let records: &[&[u8]] = &[b"one", b"", b"three", &[0xFF; 200]];
    assert_eq!(image(records), image(records));
}

#[test]
fn len_and_is_empty_track_the_log() {
    let mut wal = Wal::with_store(MemStore::new()).unwrap();
    assert!(wal.is_empty());
    assert_eq!(wal.len(), 0);

    let _ = wal.append(b"abc").unwrap(); // 8 + 3
    assert!(!wal.is_empty());
    assert_eq!(wal.len(), 11);

    let _ = wal.append(b"").unwrap(); // 8 + 0
    assert_eq!(wal.len(), 19);
}
