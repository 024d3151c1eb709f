//! Single-writer round-trip: append, sync, close, reopen, read back.

use wal_db::{Lsn, MemStore, Wal};

/// The framed size of a record: an 8-byte header plus the payload.
fn framed(payload_len: usize) -> u64 {
    (8 + payload_len) as u64
}

fn open(bytes: Vec<u8>) -> Wal<MemStore> {
    Wal::with_store(MemStore::from_bytes(bytes)).unwrap()
}

fn drain(wal: &Wal<MemStore>) -> Vec<Vec<u8>> {
    let mut iter = wal.iter().unwrap();
    let mut out = Vec::new();
    while let Some(item) = iter.next() {
        out.push(item.unwrap().into_data());
    }
    out
}

#[test]
fn append_sync_reopen_reads_back_all_records() {
    let records: Vec<Vec<u8>> = (0..1_000u32)
        .map(|i| format!("record number {i}").into_bytes())
        .collect();

    let mut expected_offset = 0u64;
    let image = {
        let mut wal = Wal::with_store(MemStore::new()).unwrap();
        for record in &records {
            // The LSN is the record's byte offset; offsets advance by framed size.
            let lsn = wal.append(record).unwrap();
            assert_eq!(lsn.get(), expected_offset);
            expected_offset += framed(record.len());
        }
        wal.sync().unwrap();
        wal.into_store().snapshot()
    };

    let mut wal = open(image);
    assert_eq!(drain(&wal), records);
    assert_eq!(wal.len(), expected_offset);
    // Appends resume at the recovered end with no gap.
    assert_eq!(wal.append(b"one more").unwrap().get(), expected_offset);
}

#[test]
fn mixed_sizes_including_empty_round_trip() {
    let records: Vec<Vec<u8>> = vec![
        Vec::new(),
        b"x".to_vec(),
        vec![0u8; 4096],
        b"a medium record".to_vec(),
        vec![0xFF; 1],
        Vec::new(),
    ];

    let image = {
        let mut wal = Wal::with_store(MemStore::new()).unwrap();
        for record in &records {
            let _ = wal.append(record).unwrap();
        }
        wal.sync().unwrap();
        wal.into_store().snapshot()
    };
    assert_eq!(drain(&open(image)), records);
}

#[test]
fn reopening_a_fresh_path_is_empty() {
    let wal = open(Vec::new());
    assert!(wal.is_empty());
    assert_eq!(drain(&wal).len(), 0);
}

#[test]
fn records_survive_multiple_reopen_cycles() {
    let mut image = Vec::new();
    for batch in 0..5 {
        let mut wal = open(image);
        for _ in 0..10 {
            let _ = wal.append(format!("batch {batch}").as_bytes()).unwrap();
        }
        wal.sync().unwrap();
        image = wal.into_store().snapshot();
    }
    assert_eq!(drain(&open(image)).len(), 50);
}

#[test]
fn truncation_at_any_offset_recovers_a_clean_prefix() {
    let records: Vec<Vec<u8>> = vec![
        b"alpha".to_vec(),
        Vec::new(),
        vec![0x11; 33],
        b"z".to_vec(),
        vec![0xFE; 63],
        Vec::new(),
    ];
    let mut wal = Wal::with_store(MemStore::new()).unwrap();
    for record in &records {
        wal.append(record).unwrap();
    }
    let full = wal.into_store().snapshot();

    for cut in 0..=full.len() {
        let mut wal = open(full[..cut].to_vec());
        let recovered = drain(&wal);
        // What survived is a prefix of what was written.
        assert!(recovered.len() <= records.len());
        assert_eq!(&recovered[..], &records[..recovered.len()]);
        // Every record that was not cut into survived.
        let mut whole = 0;
        let mut end = 0;
        while whole < records.len() && end + 8 + records[whole].len() <= cut {
            end += 8 + records[whole].len();
            whole += 1;
        }
        assert_eq!(recovered.len(), whole);
        // The next append continues at the recovered byte offset with no gap.
        let expected_tail: u64 = recovered.iter().map(|r| framed(r.len())).sum();
        assert_eq!(wal.append(b"sentinel").unwrap().get(), expected_tail);
    }
}

#[test]
fn a_crash_behind_the_synced_bytes_loses_nothing() {
    let mut wal = Wal::with_store(MemStore::new()).unwrap();
    wal.append(b"kept").unwrap();
    wal.append(b"kept too").unwrap();
    wal.sync().unwrap();
    let synced = wal.len() as usize;
    wal.append(b"not synced").unwrap();
    let full = wal.into_store().snapshot();
    // Whatever a crash leaves behind the synced bytes, they are read back.
    for tail in [&b""[..], &b"\0\0\0\0\0\0\0\0\0\0"[..], &full[synced..synced + 9], &[0xFF; 30]] {
        let mut crashed = full[..synced].to_vec();
        crashed.extend_from_slice(tail);
        assert_eq!(
            drain(&open(crashed)),
            vec![b"kept".to_vec(), b"kept too".to_vec()]
        );
    }
}

#[test]
fn truncate_after_persists_across_reopen() {
    let image = {
        let mut wal = Wal::with_store(MemStore::new()).unwrap();
        let _ = wal.append(b"alpha").unwrap();
        let keep = wal.append(b"bravo").unwrap();
        let _ = wal.append(b"charlie").unwrap();
        let _ = wal.append(b"delta").unwrap();
        wal.truncate_after(keep).unwrap();
        wal.into_store().snapshot()
    };

    // The truncation was made durable, so reopening sees only the kept records.
    let mut wal = open(image);
    assert_eq!(drain(&wal), vec![b"alpha".to_vec(), b"bravo".to_vec()]);

    // And appends continue cleanly from the truncated end.
    let _ = wal.append(b"echo").unwrap();
    assert_eq!(drain(&wal).len(), 3);
}

#[test]
fn iter_from_on_file_backed_log() {
    let mut wal = Wal::with_store(MemStore::new()).unwrap();
    let _ = wal.append(b"x").unwrap();
    let y = wal.append(b"y").unwrap();
    let _ = wal.append(b"z").unwrap();

    let mut got = Vec::new();
    let mut iter = wal.iter_from(y).unwrap();
    while let Some(item) = iter.next() {
        got.push(item.unwrap().into_data());
    }
    assert_eq!(got, vec![b"y".to_vec(), b"z".to_vec()]);
}

#[test]
fn truncate_before_on_a_single_file_is_a_noop() {
    let mut wal = Wal::with_store(MemStore::new()).unwrap();
    let _ = wal.append(b"a").unwrap();
    let b = wal.append(b"b").unwrap();
    let _ = wal.append(b"c").unwrap();

    // One flat store cannot reclaim a prefix without moving the surviving bytes,
    // so it is left unchanged and the head stays at 0.
    let head: Lsn = wal.truncate_before(b).unwrap();
    assert_eq!(head.get(), 0);
    assert_eq!(drain(&wal).len(), 3);
}
