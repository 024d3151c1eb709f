//! Writes that complete out of order.

use wal_db::commit::Commit;
use wal_db::record::{encode, framed_len};
use wal_db::{MemStore, RecoveryPolicy, Wal, WalConfig, WalStore};

fn orders(n: usize) -> Vec<Vec<usize>> {
    if n == 0 {
        return vec![Vec::new()];
    }
    let mut out = Vec::new();
    for order in orders(n - 1) {
        for at in 0..n {
            let mut longer = order.clone();
            longer.insert(at, n - 1);
            out.push(longer);
        }
    }
    out
}

#[test]
fn every_completion_order_yields_the_same_log() {
    let payloads: [&[u8]; 4] = [b"first", b"", b"third one", b"4"];
    let mut sequential = Wal::with_store(MemStore::new()).unwrap();
    for payload in payloads {
        sequential.append(payload).unwrap();
    }
    let expected = sequential.into_store().snapshot();

    for order in orders(payloads.len()) {
        // Reserve in turn, complete in the given order.
        let mut ranges = Vec::new();
        let mut tail = 0u64;
        for payload in payloads {
            let end = tail + framed_len(payload.len() as u32);
            ranges.push((tail, end));
            tail = end;
        }
        let mut store = MemStore::new();
        let mut commit = Commit::new(0);
        let mut frame = Vec::new();
        for (done, i) in order.iter().enumerate() {
            encode(&mut frame, payloads[*i]);
            store.write_at(ranges[*i].0, &frame).unwrap();
            commit.mark_written(ranges[*i].0, ranges[*i].1);
            // The watermark is the end of the leading run of completed writes.
            let mut run = 0;
            while run < payloads.len() && order[..=done].contains(&run) {
                run += 1;
            }
            let watermark = if run == 0 { 0 } else { ranges[run - 1].1 };
            assert_eq!(commit.committed(), watermark);
        }
        assert_eq!(store.snapshot(), expected);
        assert_eq!(commit.committed(), tail);
    }
}

#[test]
fn disjoint_writes_commute() {
    let mut a = MemStore::from_bytes(b"....".to_vec());
    let mut b = a.clone();
    a.write_at(2, b"xxx").unwrap();
    a.write_at(7, b"yy").unwrap();
    b.write_at(7, b"yy").unwrap();
    b.write_at(2, b"xxx").unwrap();
    assert_eq!(a.snapshot(), b.snapshot());
    assert_eq!(a.snapshot(), b"..xxx\0\0yy".to_vec());
}

#[test]
fn skipping_yields_what_stopping_yields_and_more() {
    let mut wal = Wal::with_store(MemStore::new()).unwrap();
    for payload in [&b"a"[..], &b"b"[..], &b"c"[..], &b"d"[..]] {
        wal.append(payload).unwrap();
    }
    let mut results = Vec::new();
    for policy in [
        RecoveryPolicy::StopAtFirstError,
        RecoveryPolicy::SkipBadRecords,
    ] {
        let config = WalConfig::new().with_recovery_policy(policy);
        let store = wal.store().clone();
        let mut wal = Wal::with_store_and_config(store, config).unwrap();
        // The payload of the second record, at 9 + 8.
        wal.store_mut().write_at(17, b"?").unwrap();
        let mut seen = Vec::new();
        let mut iter = wal.iter().unwrap();
        while let Some(item) = iter.next() {
            seen.push(match item {
                Ok(record) => record.into_data(),
                Err(error) => error.to_string().into_bytes(),
            });
        }
        results.push(seen);
    }
    let report = b"log corruption at byte offset 9: checksum mismatch".to_vec();
    assert_eq!(results[0], vec![b"a".to_vec(), report.clone()]);
    assert_eq!(
        results[1],
        vec![b"a".to_vec(), report, b"c".to_vec(), b"d".to_vec()]
    );
}

#[test]
fn appends_at_once_go_behind_what_the_log_holds() {
    let mut wal = Wal::with_store(MemStore::new()).unwrap();
    wal.append(b"there before").unwrap();
    let before = wal.into_store();
    let base = before.len().unwrap();
    let payloads: [&[u8]; 3] = [b"x", b"yy", b"zzz"];
    for order in orders(payloads.len()) {
        let mut ranges = Vec::new();
        let mut tail = base;
        for payload in payloads {
            let end = tail + framed_len(payload.len() as u32);
            ranges.push((tail, end));
            tail = end;
        }
        let mut store = before.clone();
        let mut commit = Commit::new(base);
        let mut frame = Vec::new();
        for i in order {
            encode(&mut frame, payloads[i]);
            store.write_at(ranges[i].0, &frame).unwrap();
            commit.mark_written(ranges[i].0, ranges[i].1);
        }
        assert_eq!(commit.committed(), tail);
        let wal = Wal::with_store(store).unwrap();
        let read = wal.iter().unwrap().collect().unwrap();
        assert_eq!(read.len(), 4);
        assert_eq!(read[0].data(), b"there before");
        for (i, payload) in payloads.iter().enumerate() {
            assert_eq!(read[i + 1].lsn().get(), ranges[i].0);
            assert_eq!(read[i + 1].data(), *payload);
        }
    }
}
