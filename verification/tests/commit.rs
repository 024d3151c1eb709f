use wal_db::commit::{Commit, SyncStep};
use wal_db::{MemStore, WalError};

#[test]
fn test_in_order_completion_advances_committed() {
    let mut commit = Commit::new(0);
    commit.mark_written(0, 10);
    assert_eq!(commit.committed(), 10);
    commit.mark_written(10, 25);
    assert_eq!(commit.committed(), 25);
}

#[test]
fn test_out_of_order_completion_holds_until_gap_fills() {
    let mut commit = Commit::new(0);
    // The [10, 25) write finishes before [0, 10): committed must not jump.
    commit.mark_written(10, 25);
    assert_eq!(commit.committed(), 0);
    // Filling the gap merges both regions at once.
    commit.mark_written(0, 10);
    assert_eq!(commit.committed(), 25);
}

#[test]
fn test_sync_to_covered_target_is_durable() {
    let mut store = MemStore::new();
    let mut commit = Commit::new(0);
    commit.mark_written(0, 32);
    commit.sync_to(&mut store, 32).unwrap();
    // A second sync to the same target is already satisfied.
    commit.sync_to(&mut store, 32).unwrap();
    assert_eq!(commit.durable(), 32);
}

#[test]
fn test_sync_past_poison_errors() {
    let mut store = MemStore::new();
    let mut commit = Commit::new(0);
    commit.mark_written(0, 10);
    commit.mark_failed(10);
    // Below the poison is fine.
    commit.sync_to(&mut store, 10).unwrap();
    // At or past it is an error.
    let err = commit.sync_to(&mut store, 11).unwrap_err();
    assert!(matches!(err, WalError::Corruption { .. }));
    assert_eq!(
        err.to_string(),
        "log corruption at byte offset 10: a record write failed; the log is truncated at this offset"
    );
}

#[test]
fn completion_order_does_not_change_the_outcome() {
    let regions = [(0u64, 8u64), (8, 20), (20, 21), (21, 40)];
    let orders: [[usize; 4]; 6] = [
        [0, 1, 2, 3],
        [3, 2, 1, 0],
        [2, 0, 3, 1],
        [1, 3, 0, 2],
        [3, 0, 1, 2],
        [0, 3, 2, 1],
    ];
    for order in orders {
        let mut commit = Commit::new(0);
        for i in order {
            commit.mark_written(regions[i].0, regions[i].1);
        }
        assert_eq!(commit.committed(), 40);
    }
}

#[test]
fn only_one_thread_leads_and_its_flush_serves_the_others() {
    let mut commit = Commit::new(0);
    commit.mark_written(0, 10);
    assert_eq!(commit.poll(10), SyncStep::Lead { flush_to: 10 });
    // Another syncer has to wait while the leader flushes.
    assert_eq!(commit.poll(5), SyncStep::Wait);
    commit.enter_wait();
    // A record written meanwhile wakes the waiter but is not covered.
    assert!(commit.mark_written(10, 20));
    commit.finish(10, true);
    commit.leave_wait();
    assert_eq!(commit.poll(5), SyncStep::Durable);
    assert_eq!(commit.poll(20), SyncStep::Lead { flush_to: 20 });
    commit.finish(20, false);
    assert_eq!(commit.durable(), 10);
    // The failed flush left the target undone; a later one can lead again.
    assert_eq!(commit.poll(20), SyncStep::Lead { flush_to: 20 });
}

#[test]
fn a_gap_makes_a_syncer_wait() {
    let mut commit = Commit::new(0);
    assert!(!commit.mark_written(10, 20));
    assert_eq!(commit.poll(20), SyncStep::Wait);
    assert!(!commit.mark_failed(0));
    assert_eq!(commit.poll(20), SyncStep::Refused { poison: 0 });
}

#[test]
fn the_lowest_failure_counts() {
    let mut commit = Commit::new(0);
    commit.mark_failed(30);
    commit.mark_failed(10);
    commit.mark_failed(20);
    assert_eq!(commit.poll(11), SyncStep::Refused { poison: 10 });
}

#[test]
fn rewinding_forgets_what_was_given_up() {
    let mut commit = Commit::new(0);
    commit.mark_written(0, 50);
    commit.mark_failed(50);
    commit.mark_written(60, 70);
    commit.rewind(20);
    assert_eq!(commit.committed(), 20);
    assert_eq!(commit.durable(), 0);
    commit.mark_written(20, 60);
    assert_eq!(commit.committed(), 60);
    assert_eq!(commit.poll(60), SyncStep::Lead { flush_to: 60 });
}

#[test]
fn outcomes_of_writes_are_handed_on() {
    let mut commit = Commit::new(0);
    let (result, wake) = commit.conclude(0, 10, Ok(()));
    assert_eq!(result.unwrap().get(), 0);
    assert!(!wake);
    assert_eq!(commit.committed(), 10);
    commit.enter_wait();
    let (result, wake) = commit.conclude(10, 30, Err(WalError::corruption(7, "made up")));
    assert!(matches!(
        result,
        Err(WalError::Corruption {
            offset: 7,
            reason: "made up"
        })
    ));
    assert!(wake);
    assert_eq!(commit.committed(), 10);
    assert_eq!(commit.poll(11), SyncStep::Refused { poison: 10 });
}

#[test]
fn outcomes_of_flushes_are_handed_on() {
    let mut commit = Commit::new(0);
    commit.mark_written(0, 10);
    assert_eq!(commit.poll(10), SyncStep::Lead { flush_to: 10 });
    let failed = commit.conclude_flush(10, Err(WalError::corruption(3, "made up")));
    assert!(matches!(failed, Err(WalError::Corruption { offset: 3, .. })));
    assert_eq!(commit.durable(), 0);
    assert_eq!(commit.poll(10), SyncStep::Lead { flush_to: 10 });
    assert!(commit.conclude_flush(10, Ok(())).is_ok());
    assert_eq!(commit.durable(), 10);
}

#[test]
fn two_syncs_at_once_take_one_or_two_flushes() {
    // The second thread's write completes before the first one's flush begins.
    let mut commit = Commit::new(0);
    commit.mark_written(0, 10);
    commit.mark_written(10, 20);
    assert_eq!(commit.poll(10), SyncStep::Lead { flush_to: 20 });
    assert_eq!(commit.poll(20), SyncStep::Wait);
    commit.finish(20, true);
    assert_eq!(commit.poll(10), SyncStep::Durable);
    assert_eq!(commit.poll(20), SyncStep::Durable);

    // It completes while the flush is under way, which may not cover it.
    let mut commit = Commit::new(0);
    commit.mark_written(0, 10);
    assert_eq!(commit.poll(10), SyncStep::Lead { flush_to: 10 });
    commit.mark_written(10, 20);
    assert_eq!(commit.poll(20), SyncStep::Wait);
    commit.finish(10, true);
    assert_eq!(commit.poll(10), SyncStep::Durable);
    assert_eq!(commit.poll(20), SyncStep::Lead { flush_to: 20 });
    commit.finish(20, true);
    assert_eq!(commit.poll(20), SyncStep::Durable);

    // A flush that failed makes nothing durable, and another thread may lead.
    let mut commit = Commit::new(0);
    commit.mark_written(0, 10);
    assert_eq!(commit.poll(10), SyncStep::Lead { flush_to: 10 });
    commit.finish(10, false);
    assert_eq!(commit.durable(), 0);
    assert_eq!(commit.poll(10), SyncStep::Lead { flush_to: 10 });
}
