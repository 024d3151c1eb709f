use wal_db::record::HEADER_LEN;
use wal_db::wal::{
    check_len, cut_point, read_slot, recover, reserved_end, settle, step, ReadSlot, Step,
};
use wal_db::{Lsn, MemStore, Record, RecoveryPolicy, Wal, WalConfig, WalError, WalStore};

fn drain(wal: &Wal<MemStore>) -> Vec<Vec<u8>> {
    let mut iter = wal.iter().unwrap();
    let mut out = Vec::new();
    while let Some(item) = iter.next() {
        out.push(item.unwrap().into_data());
    }
    out
}

fn records(wal: &Wal<MemStore>) -> Vec<Record> {
    let mut iter = wal.iter().unwrap();
    let mut out = Vec::new();
    while let Some(item) = iter.next() {
        out.push(item.unwrap());
    }
    out
}

#[test]
fn test_append_assigns_byte_offset_lsns() {
    let mut wal = Wal::with_store(MemStore::new()).unwrap();
    let a = wal.append(b"abc").unwrap(); // 8 header + 3 = 11 bytes
    let b = wal.append(b"de").unwrap();
    assert_eq!(a.get(), 0);
    assert_eq!(b.get(), 11);
}

#[test]
fn test_iter_reads_back_all_records_in_order() {
    let mut wal = Wal::with_store(MemStore::new()).unwrap();
    wal.append(b"one").unwrap();
    wal.append(b"two").unwrap();
    wal.append(b"three").unwrap();
    assert_eq!(
        drain(&wal),
        vec![b"one".to_vec(), b"two".to_vec(), b"three".to_vec()]
    );
}

#[test]
fn test_empty_log_iterates_to_nothing() {
    let wal = Wal::with_store(MemStore::new()).unwrap();
    assert!(wal.is_empty());
    assert_eq!(drain(&wal).len(), 0);
}

#[test]
fn test_empty_record_roundtrips() {
    let mut wal = Wal::with_store(MemStore::new()).unwrap();
    wal.append(b"").unwrap();
    assert_eq!(drain(&wal), vec![Vec::<u8>::new()]);
}

#[test]
fn test_record_too_large_is_rejected() {
    let config = WalConfig::new().with_max_record_size(4);
    let mut wal = Wal::with_store_and_config(MemStore::new(), config).unwrap();
    wal.append(b"ok").unwrap();
    let err = wal.append(b"too long").unwrap_err();
    assert!(matches!(err, WalError::RecordTooLarge { len: 8, max: 4 }));
    // The rejected append did not advance the log.
    assert_eq!(drain(&wal), vec![b"ok".to_vec()]);
}

#[test]
fn test_reopen_recovers_records() {
    let mut wal = Wal::with_store(MemStore::new()).unwrap();
    wal.append(b"first").unwrap();
    wal.append(b"second").unwrap();
    wal.sync().unwrap();
    let image = wal.store().snapshot();

    let mut reopened = Wal::with_store(MemStore::from_bytes(image)).unwrap();
    assert_eq!(
        drain(&reopened),
        vec![b"first".to_vec(), b"second".to_vec()]
    );
    // The next append continues at the recovered end: two records of
    // (8 + 5) and (8 + 6) bytes leave the tail at 27.
    assert_eq!(reopened.append(b"third").unwrap().get(), 27);
}

#[test]
fn test_recovery_truncates_torn_tail() {
    let mut wal = Wal::with_store(MemStore::new()).unwrap();
    wal.append(b"good record").unwrap();
    let clean_len = wal.len();
    // Append raw garbage directly to the store: a torn tail.
    wal.store_mut().write_at(clean_len, &[0xAB; 5]).unwrap();

    let reopened = Wal::with_store(MemStore::from_bytes(wal.store().snapshot())).unwrap();
    assert_eq!(drain(&reopened), vec![b"good record".to_vec()]);
    assert_eq!(reopened.len(), clean_len);
}

#[test]
fn test_corrupt_record_surfaces_error_then_stops() {
    let mut wal = Wal::with_store(MemStore::new()).unwrap();
    wal.append(b"intact").unwrap();
    let second = wal.append(b"victim").unwrap();
    // Flip a byte inside the second record's payload (offset + header).
    let payload_offset = second.get() + HEADER_LEN as u64;
    let mut byte = [0u8; 1];
    wal.store().read_at(payload_offset, &mut byte).unwrap();
    byte[0] ^= 0xFF;
    wal.store_mut().write_at(payload_offset, &byte).unwrap();

    let mut iter = wal.iter().unwrap();
    assert_eq!(iter.next().unwrap().unwrap().data(), b"intact");
    assert!(matches!(
        iter.next().unwrap(),
        Err(WalError::Corruption {
            offset: 14,
            reason: "checksum mismatch"
        })
    ));
    assert!(iter.next().is_none());
}

#[test]
fn test_append_and_sync_is_durable() {
    let mut wal = Wal::with_store(MemStore::new()).unwrap();
    wal.append_and_sync(b"committed").unwrap();
    assert_eq!(drain(&wal), vec![b"committed".to_vec()]);
}

#[test]
fn append_and_sync_rejects_what_append_rejects() {
    let config = WalConfig::new().with_max_record_size(2);
    let mut wal = Wal::with_store_and_config(MemStore::new(), config).unwrap();
    let err = wal.append_and_sync(b"abc").unwrap_err();
    assert!(matches!(err, WalError::RecordTooLarge { len: 3, max: 2 }));
    assert_eq!(wal.append_and_sync(b"ab").unwrap().get(), 0);
    assert_eq!(wal.append_and_sync(b"").unwrap().get(), 10);
}

fn three_records(policy: RecoveryPolicy) -> Wal<MemStore> {
    let config = WalConfig::new()
        .with_max_record_size(64)
        .with_recovery_policy(policy);
    let mut wal = Wal::with_store_and_config(MemStore::new(), config).unwrap();
    wal.append(b"alpha").unwrap(); // 0..13
    wal.append(b"bravo").unwrap(); // 13..26
    wal.append(b"charlie").unwrap(); // 26..41
    wal
}

#[test]
fn skipping_resumes_behind_a_damaged_record() {
    let mut wal = three_records(RecoveryPolicy::SkipBadRecords);
    wal.store_mut().write_at(21, b"B").unwrap();
    let mut iter = wal.iter().unwrap();
    assert_eq!(iter.next().unwrap().unwrap().data(), b"alpha");
    assert!(matches!(
        iter.next().unwrap(),
        Err(WalError::Corruption {
            offset: 13,
            reason: "checksum mismatch"
        })
    ));
    let third = iter.next().unwrap().unwrap();
    assert_eq!(third.data(), b"charlie");
    assert_eq!(third.lsn().get(), 26);
    assert!(iter.next().is_none());
}

#[test]
fn stopping_ends_at_a_damaged_record() {
    let mut wal = three_records(RecoveryPolicy::StopAtFirstError);
    wal.store_mut().write_at(21, b"B").unwrap();
    let mut iter = wal.iter().unwrap();
    assert_eq!(iter.next().unwrap().unwrap().data(), b"alpha");
    assert!(iter.next().unwrap().is_err());
    assert!(iter.next().is_none());
    assert!(iter.next().is_none());
}

#[test]
fn an_implausible_length_ends_iteration_under_either_policy() {
    for policy in [
        RecoveryPolicy::StopAtFirstError,
        RecoveryPolicy::SkipBadRecords,
    ] {
        let mut wal = three_records(policy);
        // The length prefix of the second record.
        wal.store_mut()
            .write_at(17, &[0xFF, 0xFF, 0xFF, 0xFF])
            .unwrap();
        let mut iter = wal.iter().unwrap();
        assert_eq!(iter.next().unwrap().unwrap().data(), b"alpha");
        assert!(matches!(
            iter.next().unwrap(),
            Err(WalError::Corruption {
                offset: 13,
                reason: "record length exceeds the maximum"
            })
        ));
        assert!(iter.next().is_none());
    }
}

#[test]
fn the_iterator_walks_what_was_there_when_it_was_made() {
    let wal = three_records(RecoveryPolicy::StopAtFirstError);
    let all = records(&wal);
    assert_eq!(all.len(), 3);
    // Each record begins where the one before it ends.
    assert_eq!(all[0].lsn().get(), 0);
    for i in 1..3 {
        assert_eq!(
            all[i].lsn().get(),
            all[i - 1].lsn().get() + 8 + all[i - 1].len() as u64
        );
    }
    assert_eq!(wal.len(), all[2].lsn().get() + 8 + all[2].len() as u64);
    assert!(!all[0].is_empty());
    assert_eq!(all[0].clone(), all[0]);
}

#[test]
fn truncating_behind_no_record_is_refused() {
    let mut wal = three_records(RecoveryPolicy::StopAtFirstError);
    let before = wal.store().snapshot();
    for at in [1, 12, 14, 41, 1000, u64::MAX] {
        let err = wal.truncate_after(Lsn::new(at)).unwrap_err();
        assert!(matches!(err, WalError::Corruption { offset, .. } if offset == at));
    }
    assert_eq!(wal.store().snapshot(), before);
    assert_eq!(wal.len(), 41);
    // Behind the last record there is nothing to drop.
    wal.truncate_after(Lsn::new(26)).unwrap();
    assert_eq!(wal.len(), 41);
}

#[test]
fn iterating_from_past_the_end_yields_nothing() {
    let wal = three_records(RecoveryPolicy::StopAtFirstError);
    assert!(wal.iter_from(Lsn::new(41)).unwrap().next().is_none());
    assert!(wal.iter_from(Lsn::new(u64::MAX)).unwrap().next().is_none());
}

#[test]
fn recovery_is_idempotent() {
    let wal = three_records(RecoveryPolicy::StopAtFirstError);
    let mut bytes = wal.into_store().snapshot();
    bytes.extend_from_slice(b"half a rec");
    let mut store = MemStore::from_bytes(bytes);
    assert_eq!(recover(&mut store, 64).unwrap(), 41);
    assert_eq!(store.len().unwrap(), 41);
    let once = store.snapshot();
    assert_eq!(recover(&mut store, 64).unwrap(), 41);
    assert_eq!(store.snapshot(), once);
    // A smaller limit makes the longer record implausible.
    assert_eq!(recover(&mut store, 6).unwrap(), 26);
    assert_eq!(store.len().unwrap(), 26);
}

#[test]
fn slots_are_classified() {
    let wal = three_records(RecoveryPolicy::StopAtFirstError);
    let mut store = wal.into_store();
    assert!(matches!(
        read_slot(&store, 0, 64).unwrap(),
        ReadSlot::Intact { payload, next: 13 } if payload == b"alpha"
    ));
    assert!(matches!(
        read_slot(&store, 0, 4).unwrap(),
        ReadSlot::TooLong
    ));
    assert!(matches!(
        read_slot(&store, 40, 64).unwrap(),
        ReadSlot::ShortHeader
    ));
    store.truncate(40).unwrap();
    assert!(matches!(
        read_slot(&store, 26, 64).unwrap(),
        ReadSlot::ShortPayload
    ));
    store.write_at(8, b"A").unwrap();
    assert!(matches!(
        read_slot(&store, 0, 64).unwrap(),
        ReadSlot::Damaged { next: 13 }
    ));
}

#[test]
fn steps_follow_the_policy() {
    let stop = RecoveryPolicy::StopAtFirstError;
    let skip = RecoveryPolicy::SkipBadRecords;
    assert!(matches!(step(skip, 5, ReadSlot::ShortHeader), Step::End));
    assert!(matches!(step(skip, 5, ReadSlot::ShortPayload), Step::End));
    assert!(matches!(
        step(skip, 5, ReadSlot::TooLong),
        Step::Report {
            error: WalError::Corruption { offset: 5, .. },
            resume: None
        }
    ));
    assert!(matches!(
        step(skip, 5, ReadSlot::Overflow),
        Step::Report {
            error: WalError::Corruption {
                offset: 5,
                reason: "record offset overflow"
            },
            resume: None
        }
    ));
    assert!(matches!(
        step(skip, 5, settle(vec![1], 14, false)),
        Step::Report {
            resume: Some(14),
            ..
        }
    ));
    assert!(matches!(
        step(stop, 5, settle(vec![1], 14, false)),
        Step::Report { resume: None, .. }
    ));
    assert!(matches!(
        step(stop, 5, settle(vec![1], 14, true)),
        Step::Yield { record, next: 14 } if record.data() == [1] && record.lsn().get() == 5
    ));
}

#[test]
fn reservations_are_checked() {
    assert_eq!(check_len(5, 5).unwrap(), 13);
    assert!(matches!(
        check_len(6, 5),
        Err(WalError::RecordTooLarge { len: 6, max: 5 })
    ));
    assert_eq!(reserved_end(10, 13).unwrap(), 23);
    assert_eq!(reserved_end(u64::MAX - 8, 8).unwrap(), u64::MAX);
    let err = reserved_end(u64::MAX - 8, 9).unwrap_err();
    assert_eq!(
        err.to_string(),
        "i/o error while reserving a record offset: log size exceeds u64"
    );
}

#[test]
fn bytes_on_disk_are_the_frames_in_order() {
    let wal = three_records(RecoveryPolicy::StopAtFirstError);
    let mut expected = Vec::new();
    for payload in [&b"alpha"[..], &b"bravo"[..], &b"charlie"[..]] {
        let mut frame = Vec::new();
        wal_db::record::encode(&mut frame, payload);
        expected.extend_from_slice(&frame);
    }
    assert_eq!(wal.store().snapshot(), expected);
}

#[test]
fn syncing_an_empty_log_is_fine() {
    let mut wal = Wal::with_store(MemStore::new()).unwrap();
    wal.sync().unwrap();
    wal.sync().unwrap();
    assert_eq!(wal.len(), 0);
}

#[test]
fn cut_points_lie_behind_intact_records() {
    assert_eq!(cut_point(5, 20, settle(vec![1], 14, true)).unwrap(), 14);
    assert_eq!(cut_point(5, 14, settle(vec![1], 14, true)).unwrap(), 14);
    for slot in [
        settle(vec![1], 14, false),
        settle(vec![1], 21, true),
        ReadSlot::ShortHeader,
        ReadSlot::TooLong,
    ] {
        let err = cut_point(5, 20, slot).unwrap_err();
        assert_eq!(
            err.to_string(),
            "log corruption at byte offset 5: no intact record at this offset"
        );
    }
}

#[test]
fn collecting_gives_every_record_in_order() {
    let mut wal = Wal::with_store(MemStore::new()).unwrap();
    assert!(wal.iter().unwrap().collect().unwrap().is_empty());
    let mut expected = Vec::new();
    for i in 0..20usize {
        let payload = vec![i as u8; i * 7 % 11];
        expected.push((wal.append(&payload).unwrap(), payload));
    }
    let read: Vec<(Lsn, Vec<u8>)> = wal
        .iter()
        .unwrap()
        .collect()
        .unwrap()
        .into_iter()
        .map(|record| (record.lsn(), record.into_data()))
        .collect();
    assert_eq!(read, expected);
    let read = wal.iter_from(expected[5].0).unwrap().collect().unwrap();
    assert_eq!(read.len(), 15);
    assert_eq!(read[0].lsn(), expected[5].0);
}

#[test]
fn collecting_stops_at_damage() {
    let mut wal = three_records(RecoveryPolicy::StopAtFirstError);
    // The payload of the second record.
    wal.store_mut().write_at(21, b"B").unwrap();
    let error = wal.iter().unwrap().collect().unwrap_err();
    assert!(matches!(error, WalError::Corruption { offset: 13, .. }));
    assert_eq!(wal.iter_from(Lsn::new(26)).unwrap().collect().unwrap().len(), 1);
}

#[test]
fn a_finished_iterator_stays_finished() {
    let mut wal = Wal::with_store(MemStore::new()).unwrap();
    wal.append(b"a").unwrap();
    wal.append(b"b").unwrap();
    let mut iter = wal.iter().unwrap();
    assert!(iter.next().unwrap().is_ok());
    assert!(iter.next().unwrap().is_ok());
    assert!(iter.next().is_none());
    assert!(iter.next().is_none());
    // After damage under the stopping policy, too.
    wal.store_mut().write_at(8, b"?").unwrap();
    let mut iter = wal.iter().unwrap();
    assert!(iter.next().unwrap().is_err());
    assert!(iter.next().is_none());
    assert!(iter.next().is_none());
}

#[test]
fn a_changed_byte_in_a_payload_is_always_noticed() {
    let mut wal = Wal::with_store(MemStore::new()).unwrap();
    wal.append(b"payload").unwrap();
    let image = wal.into_store().snapshot();
    for at in HEADER_LEN..image.len() {
        for flip in 1..=255u8 {
            let mut changed = image.clone();
            changed[at] ^= flip;
            let wal = Wal::with_store(MemStore::from_bytes(changed)).unwrap();
            assert!(wal.is_empty());
        }
    }
}
