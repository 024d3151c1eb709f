//! Positioned transfers to and from one file.
//!
//! A positioned read or write can move fewer bytes than it was asked to, or be
//! interrupted before it moved any. A [`Progress`] says what to do after each
//! attempt until the transfer is over. It touches no file: whoever does makes the
//! attempts and reports what came of them.

use crate::error::{is_own_io, WalError};
use vstd::prelude::*;

verus! {

/// What came of one attempt to move bytes.
#[derive(Debug, Clone, Copy, PartialEq, Eq, Structural)]
pub enum Outcome {
    /// This many bytes were moved.
    Moved(usize),
    /// The attempt was interrupted before it moved anything.
    Interrupted,
    /// The attempt failed.
    Failed,
}

/// What to do after an attempt.
#[derive(Debug, Clone, Copy, PartialEq, Eq, Structural)]
pub enum Next {
    /// Try again, with what is left.
    Again,
    /// The transfer is over.
    Complete,
    /// Give up: a write moved nothing, so that trying again would go on forever.
    Stuck,
    /// Give up: the attempt failed.
    Failed,
}

/// A transfer between a buffer and a file.
#[derive(Debug)]
pub struct Progress {
    offset: u64,
    total: usize,
    done: usize,
}

impl Progress {
    /// Where in the file the transfer began.
    pub closed spec fn begin(&self) -> u64 {
        self.offset
    }

    /// How many bytes are to be moved.
    pub closed spec fn total(&self) -> usize {
        self.total
    }

    /// How many bytes have been moved.
    pub closed spec fn moved(&self) -> usize {
        self.done
    }

    /// No more was moved than was asked for, and the range can be addressed.
    pub open spec fn wf(&self) -> bool {
        self.moved() <= self.total() && self.begin() + self.total() <= u64::MAX
    }

    /// Begin to move `total` bytes at `offset`.
    pub fn new(offset: u64, total: usize) -> (progress: Self)
        requires
            offset + total <= u64::MAX,
        ensures
            progress.wf(),
            progress.begin() == offset,
            progress.total() == total,
            progress.moved() == 0,
    {
        Progress { offset, total, done: 0 }
    }

    /// Where in the file the next attempt begins.
    pub fn position(&self) -> (position: u64)
        requires
            self.wf(),
        ensures
            position == self.begin() + self.moved(),
    {
        self.offset + self.done as u64
    }

    /// How many bytes have been moved: where in the buffer the next attempt begins.
    pub fn done(&self) -> (done: usize)
        ensures
            done == self.moved(),
    {
        self.done
    }

    /// Whether everything was moved.
    pub fn is_complete(&self) -> (complete: bool)
        ensures
            complete == (self.moved() == self.total()),
    {
        self.done == self.total
    }

    /// What to do after an attempt to write what is left. A write has to move every
    /// byte, so one that moves none is an error.
    pub fn after_write(&mut self, outcome: Outcome) -> (next: Next)
        requires
            old(self).wf(),
            old(self).moved() < old(self).total(),
            outcome matches Outcome::Moved(n) ==> n <= old(self).total() - old(self).moved(),
        ensures
            final(self).wf(),
            final(self).begin() == old(self).begin(),
            final(self).total() == old(self).total(),
            final(self).moved() == old(self).moved() + (match outcome {
                Outcome::Moved(n) => n as int,
                _ => 0,
            }),
            next == (match outcome {
                Outcome::Moved(n) => if n == 0 {
                    Next::Stuck
                } else if old(self).moved() + n == old(self).total() {
                    Next::Complete
                } else {
                    Next::Again
                },
                Outcome::Interrupted => Next::Again,
                Outcome::Failed => Next::Failed,
            }),
    {
        match outcome {
            Outcome::Moved(n) => {
                if n == 0 {
                    return Next::Stuck;
                }
                self.done += n;
                if self.done == self.total {
                    Next::Complete
                } else {
                    Next::Again
                }
            },
            Outcome::Interrupted => Next::Again,
            Outcome::Failed => Next::Failed,
        }
    }

    /// What to do after an attempt to read what is left. A read that moves nothing
    /// has reached the end of the file, and the transfer is over.
    pub fn after_read(&mut self, outcome: Outcome) -> (next: Next)
        requires
            old(self).wf(),
            old(self).moved() < old(self).total(),
            outcome matches Outcome::Moved(n) ==> n <= old(self).total() - old(self).moved(),
        ensures
            final(self).wf(),
            final(self).begin() == old(self).begin(),
            final(self).total() == old(self).total(),
            final(self).moved() == old(self).moved() + (match outcome {
                Outcome::Moved(n) => n as int,
                _ => 0,
            }),
            next == (match outcome {
                Outcome::Moved(n) => if n == 0 || old(self).moved() + n == old(self).total() {
                    Next::Complete
                } else {
                    Next::Again
                },
                Outcome::Interrupted => Next::Again,
                Outcome::Failed => Next::Failed,
            }),
    {
        match outcome {
            Outcome::Moved(n) => {
                self.done += n;
                if n == 0 || self.done == self.total {
                    Next::Complete
                } else {
                    Next::Again
                }
            },
            Outcome::Interrupted => Next::Again,
            Outcome::Failed => Next::Failed,
        }
    }
}

/// Where the next append to a file lands, after `len` bytes were appended at
/// `write_offset`.
pub fn advance_offset(write_offset: u64, len: usize) -> (result: Result<u64, WalError>)
    ensures
        match result {
            Ok(next) => next == write_offset + len,
            Err(error) => {
                &&& write_offset + len > u64::MAX
                &&& is_own_io(error, "advancing the write position", "log size exceeds u64")
            },
        },
{
    match write_offset.checked_add(len as u64) {
        Some(next) => Ok(next),
        None => Err(WalError::other("advancing the write position", "log size exceeds u64")),
    }
}

} // verus!
