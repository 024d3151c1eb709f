//! Adversarial recovery inputs.
//!
//! Recovery must read all and only the intact records and never trust a length or
//! a checksum it has not verified.

use wal_db::{MemStore, RecoveryPolicy, Wal, WalConfig};

/// The bytes of a log that holds `records`.
fn build_log(records: &[&[u8]]) -> Vec<u8> {
    let mut wal = Wal::with_store(MemStore::new()).unwrap();
    for record in records {
        let _ = wal.append(record).unwrap();
    }
    wal.sync().unwrap();
    wal.into_store().snapshot()
}

fn open(bytes: &[u8]) -> Wal<MemStore> {
    Wal::with_store(MemStore::from_bytes(bytes.to_vec())).unwrap()
}

fn drain(wal: &Wal<MemStore>) -> Vec<Vec<u8>> {
    let mut iter = wal.iter().unwrap();
    let mut out = Vec::new();
    while let Some(item) = iter.next() {
        out.push(item.unwrap().into_data());
    }
    out
}

#[test]
fn garbage_prefix_recovers_nothing() {
    let wal = open(b"this is not a wal-db record at all, just text");
    assert_eq!(drain(&wal).len(), 0);
    // The torn (here, entirely invalid) content is truncated away on open.
    assert_eq!(wal.len(), 0);
}

#[test]
fn implausible_length_is_rejected_without_allocating() {
    // An 8-byte "header": a checksum, then a length of 0xFFFF_FFFF (~4 GiB). With
    // a small max record size, recovery must reject it on the length check.
    let bytes = vec![0u8, 0, 0, 0, 0xFF, 0xFF, 0xFF, 0xFF];
    let config = WalConfig::new().with_max_record_size(1024);
    let wal = Wal::with_store_and_config(MemStore::from_bytes(bytes), config).unwrap();
    assert_eq!(drain(&wal).len(), 0);
    assert_eq!(wal.len(), 0);
}

#[test]
fn all_zeros_recovers_nothing() {
    // A block of zeros parses as a zero-length record with checksum 0, which does
    // not match the checksum of an empty record, so recovery stops at it.
    let wal = open(&vec![0u8; 4096]);
    assert_eq!(drain(&wal).len(), 0);
}

#[test]
fn valid_records_then_garbage_tail_keeps_the_valid_ones() {
    let mut bytes = build_log(&[b"first", b"second", b"third"]);
    let clean_len = bytes.len() as u64;
    bytes.extend_from_slice(b"\xDE\xAD\xBE\xEF garbage tail");

    let wal = open(&bytes);
    assert_eq!(
        drain(&wal),
        vec![b"first".to_vec(), b"second".to_vec(), b"third".to_vec()]
    );
    // The garbage tail was truncated back to the last good record.
    assert_eq!(wal.len(), clean_len);
}

#[test]
fn corrupt_middle_record_truncates_from_there() {
    let mut bytes = build_log(&[b"alpha", b"bravo", b"charlie"]);
    // Flip a byte inside the second record's payload. Record 1 is 8 + 5 = 13
    // bytes, so record 2's payload begins at 13 + 8 = 21.
    bytes[21] ^= 0xFF;

    let wal = open(&bytes);
    assert_eq!(drain(&wal), vec![b"alpha".to_vec()]);
    assert_eq!(wal.len(), 13);
}

#[test]
fn truncated_mid_payload_drops_the_partial_record() {
    let bytes = build_log(&[b"complete", b"incomplete"]);
    // Record 1 is 8 + 8 = 16, record 2's header ends at 16 + 8 = 24, so 28 is four
    // bytes into its payload.
    assert_eq!(drain(&open(&bytes[..28])).len(), 1);
}

#[test]
fn truncated_mid_header_drops_the_partial_record() {
    let mut bytes = build_log(&[b"whole"]);
    // Half a header after the good record.
    bytes.extend_from_slice(&[0xAB; 4]);

    let wal = open(&bytes);
    assert_eq!(drain(&wal).len(), 1);
    assert_eq!(wal.len(), 13); // 8 + 5, the one good record
}

/// A small generator of bytes that repeat from run to run.
struct Bytes(u64);

impl Bytes {
    fn next(&mut self) -> u8 {
        self.0 ^= self.0 << 13;
        self.0 ^= self.0 >> 7;
        self.0 ^= self.0 << 17;
        (self.0 >> 24) as u8
    }
}

#[test]
fn arbitrary_bytes_never_break_recovery() {
    let mut source = Bytes(0x9E37_79B9_7F4A_7C15);
    for round in 0..300usize {
        let mut data: Vec<u8> = Vec::new();
        if round % 2 == 0 {
            // A log with some of its bytes replaced.
            data = build_log(&[b"alpha", b"", b"charlie", &[7u8; 40]]);
            for _ in 0..(round % 5) {
                let at = source.next() as usize % data.len();
                data[at] = source.next();
            }
        } else {
            for _ in 0..(source.next() as usize) {
                data.push(source.next());
            }
        }
        for policy in [
            RecoveryPolicy::StopAtFirstError,
            RecoveryPolicy::SkipBadRecords,
        ] {
            let config = WalConfig::new()
                .with_max_record_size(1 << 16)
                .with_recovery_policy(policy);
            let store = MemStore::from_bytes(data.clone());
            let wal = Wal::with_store_and_config(store, config).unwrap();
            assert!(wal.len() <= data.len() as u64);
            // What was recovered is a prefix of the input.
            let kept = wal.store().snapshot();
            assert_eq!(&kept[..], &data[..kept.len()]);
            let mut iter = wal.iter().unwrap();
            let mut end = 0u64;
            while let Some(item) = iter.next() {
                let record = item.unwrap();
                assert_eq!(record.lsn().get(), end);
                end += 8 + record.len() as u64;
            }
            assert_eq!(end, wal.len());
        }
    }
}
