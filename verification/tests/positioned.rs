use wal_db::positioned::{advance_offset, Next, Outcome, Progress};

#[test]
fn a_write_goes_on_until_every_byte_is_moved() {
    let mut progress = Progress::new(100, 10);
    assert_eq!(progress.position(), 100);
    assert_eq!(progress.after_write(Outcome::Moved(4)), Next::Again);
    assert_eq!(progress.position(), 104);
    assert_eq!(progress.done(), 4);
    assert_eq!(progress.after_write(Outcome::Interrupted), Next::Again);
    assert_eq!(progress.done(), 4);
    assert_eq!(progress.after_write(Outcome::Moved(6)), Next::Complete);
    assert!(progress.is_complete());
}

#[test]
fn a_write_that_moves_nothing_is_stuck() {
    let mut progress = Progress::new(0, 3);
    assert_eq!(progress.after_write(Outcome::Moved(0)), Next::Stuck);
    assert_eq!(progress.after_write(Outcome::Failed), Next::Failed);
    assert!(!progress.is_complete());
}

#[test]
fn a_read_that_moves_nothing_has_reached_the_end() {
    let mut progress = Progress::new(7, 5);
    assert_eq!(progress.after_read(Outcome::Moved(2)), Next::Again);
    assert_eq!(progress.after_read(Outcome::Interrupted), Next::Again);
    assert_eq!(progress.after_read(Outcome::Moved(0)), Next::Complete);
    assert_eq!(progress.done(), 2);
    assert_eq!(progress.after_read(Outcome::Moved(3)), Next::Complete);
    assert!(progress.is_complete());
    let mut progress = Progress::new(7, 5);
    assert_eq!(progress.after_read(Outcome::Failed), Next::Failed);
    assert!(Progress::new(7, 0).is_complete());
}

#[test]
fn offsets_that_do_not_fit_are_an_error() {
    assert_eq!(advance_offset(5, 7).unwrap(), 12);
    let err = advance_offset(u64::MAX, 1).unwrap_err();
    assert_eq!(
        err.to_string(),
        "i/o error while advancing the write position: log size exceeds u64"
    );
}
