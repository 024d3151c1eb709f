//! The log itself: [`Wal`], its recovery iterator [`WalIter`], and the [`Record`]
//! that iteration yields.

use crate::commit::{Commit, Watermarks, TRUNCATED};
use crate::config::{RecoveryPolicy, WalConfig};
use crate::error::{is_own_io, WalError};
use crate::image::{
    as_items, entries, entries_are_back_to_back, frame_extends_whole, frame_is_intact, intact_end,
    intact_run_is_whole, intact_run_passes_whole, items, log_of, record_splits_whole, rest_is_whole,
    slot_at, whole, whole_image_is_kept, whole_is_local, whole_is_local_from,
    whole_iterates_cleanly, whole_joins, whole_lies_within, Entry, Fault, Item, Slot,
};
use crate::lsn::Lsn;
use crate::record::{
    encode, frame, frame_has_its_size, framed_len, framed_size, parse_header, verify, HEADER_LEN,
};
use crate::store::{clamped, holds, least, overwrite, readable, same_below, WalStore};
use vstd::prelude::*;

verus! {

/// Why a record whose length prefix is too large is rejected.
pub const TOO_LONG: &'static str = "record length exceeds the maximum";

/// Why a record whose checksum does not match is rejected.
pub const MISMATCH: &'static str = "checksum mismatch";

/// Why a record that would end past the largest offset is rejected.
pub const OVERFLOW: &'static str = "record offset overflow";

/// Why a log cannot be cut behind an offset.
pub const NO_RECORD: &'static str = "no intact record at this offset";

/// One record read back during iteration: its sequence number and its payload.
#[derive(Debug, PartialEq, Eq)]
pub struct Record {
    lsn: Lsn,
    data: Vec<u8>,
}

impl View for Record {
    type V = Entry;

    closed spec fn view(&self) -> Entry {
        Entry { lsn: self.lsn.offset() as int, data: self.data@ }
    }
}

impl Record {
    /// The sequence number this record was assigned: its byte offset in the log.
    pub fn lsn(&self) -> (lsn: Lsn)
        ensures
            lsn.offset() == self@.lsn,
    {
        self.lsn
    }

    /// The record's payload bytes.
    #[must_use]
    pub fn data(&self) -> (data: &[u8])
        ensures
            data@ == self@.data,
    {
        self.data.as_slice()
    }

    /// The payload length in bytes.
    #[must_use]
    pub fn len(&self) -> (len: usize)
        ensures
            len == self@.data.len(),
    {
        self.data.len()
    }

    /// Whether the record's payload is empty.
    #[must_use]
    pub fn is_empty(&self) -> (empty: bool)
        ensures
            empty == (self@.data.len() == 0),
    {
        self.data.len() == 0
    }

    /// Consume the record and take its payload without copying.
    #[must_use]
    pub fn into_data(self) -> (data: Vec<u8>)
        ensures
            data@ == self@.data,
    {
        self.data
    }
}

impl Clone for Record {
    fn clone(&self) -> (copy: Self)
        ensures
            copy@ == self@,
    {
        let data = self.data.clone();
        assert(data@ =~= self.data@);
        Record { lsn: self.lsn, data }
    }
}

/// What was read at one offset of a store.
#[derive(Debug)]
pub enum ReadSlot {
    /// The store ended within the header.
    ShortHeader,
    /// The declared length exceeds the maximum; the payload was not read.
    TooLong,
    /// The store ended within the payload.
    ShortPayload,
    /// The record would end past the largest offset. No store that keeps its contract
    /// holds one.
    Overflow,
    /// The checksum does not match; the next record would begin at `next`.
    Damaged { next: u64 },
    /// An intact record; the next one begins at `next`.
    Intact { payload: Vec<u8>, next: u64 },
}

impl View for ReadSlot {
    type V = Slot;

    open spec fn view(&self) -> Slot {
        match *self {
            ReadSlot::ShortHeader => Slot::ShortHeader,
            ReadSlot::TooLong => Slot::TooLong,
            ReadSlot::ShortPayload => Slot::ShortPayload,
            ReadSlot::Overflow => Slot::ShortPayload,
            ReadSlot::Damaged { next } => Slot::Damaged { next: next as int },
            ReadSlot::Intact { payload, next } => Slot::Intact {
                payload: payload@,
                next: next as int,
            },
        }
    }
}

/// What was read stands for what is there, field by field. A record that would end past
/// the largest offset stands for one that is torn.
pub proof fn what_was_read_is_what_is_there(slot: ReadSlot)
    ensures
        slot is ShortHeader <==> slot@ is ShortHeader,
        slot is TooLong <==> slot@ is TooLong,
        slot is ShortPayload || slot is Overflow <==> slot@ is ShortPayload,
        slot is Damaged <==> slot@ is Damaged,
        slot is Intact <==> slot@ is Intact,
        slot matches ReadSlot::Damaged { next } ==> slot@ == (Slot::Damaged { next: next as int }),
        slot matches ReadSlot::Intact { payload, next } ==> slot@ == (Slot::Intact {
            payload: payload@,
            next: next as int,
        }),
{
}

/// What a record that was read in full is, given whether its checksum matches.
pub fn settle(payload: Vec<u8>, next: u64, intact: bool) -> (slot: ReadSlot)
    ensures
        slot == (if intact {
            ReadSlot::Intact { payload, next }
        } else {
            ReadSlot::Damaged { next }
        }),
{
    if intact {
        ReadSlot::Intact { payload, next }
    } else {
        ReadSlot::Damaged { next }
    }
}

/// Read the slot of `store` at `offset`. The declared length is checked against
/// `max` before any of the payload is read or room is made for it.
pub fn read_slot<S: WalStore>(store: &S, offset: u64, max: u32) -> (result: Result<
    ReadSlot,
    WalError,
>)
    requires
        store.state().wf(),
        store.state().start <= offset,
    ensures
        result matches Ok(slot) ==> {
            &&& store.state().settled || slot_at(store.state().image, offset as int, max) is Intact
                || slot_at(store.state().image, offset as int, max) is Damaged || slot_at(
                store.state().image,
                offset as int,
                max,
            ) is TooLong ==> slot@ == slot_at(store.state().image, offset as int, max)
            &&& slot matches ReadSlot::Intact { payload, next } ==> {
                &&& next == offset + framed_size(payload@.len())
                &&& payload@.len() <= max
                &&& next <= store.state().image.len() ==> slot@ == slot_at(
                    store.state().image,
                    offset as int,
                    max,
                )
            }
            &&& slot matches ReadSlot::Damaged { next } ==> next >= offset + HEADER_LEN
            &&& !(slot is Overflow)
        },
        result matches Err(error) ==> S::read_error(error),
        S::reliable() ==> result is Ok,
{
    let ghost image = store.state().image;
    let ghost at = offset as int;
    let mut header: [u8; HEADER_LEN] = [0u8; HEADER_LEN];
    let read = store.read_at(offset, &mut header);
    let got: usize = match read {
        Ok(n) => n,
        Err(error) => {
            return Err(error);
        },
    };
    if got < HEADER_LEN {
        return Ok(ReadSlot::ShortHeader);
    }
    proof {
        if at + 8 <= image.len() {
            assert(header@ =~= image.subrange(at, at + 8));
        }
    }
    let parsed = parse_header(&header);
    if parsed.len > max {
        return Ok(ReadSlot::TooLong);
    }
    let payload_start: u64 = match offset.checked_add(HEADER_LEN as u64) {
        Some(start) => start,
        None => {
            return Ok(ReadSlot::Overflow);
        },
    };
    let mut payload: Vec<u8> = vec![0u8; parsed.len as usize];
    let read = store.read_at(payload_start, payload.as_mut_slice());
    let got: usize = match read {
        Ok(n) => n,
        Err(error) => {
            return Err(error);
        },
    };
    if got < payload.len() {
        return Ok(ReadSlot::ShortPayload);
    }
    let next: u64 = match payload_start.checked_add(parsed.len as u64) {
        Some(next) => next,
        None => {
            return Ok(ReadSlot::Overflow);
        },
    };
    proof {
        if next <= image.len() {
            assert(payload@ =~= image.subrange(at + 8, next as int));
            assert(header@.subrange(4, 8) =~= image.subrange(at + 4, at + 8));
        }
    }
    let intact = verify(&header, payload.as_slice(), parsed.crc);
    Ok(settle(payload, next, intact))
}

/// Scan a store from its head, returning the end of the last intact record and
/// truncating any torn tail beyond it. A store without one is left alone, and so is a
/// store that cannot be read.
pub fn recover<S: WalStore>(store: &mut S, max_record_size: u32) -> (result: Result<u64, WalError>)
    requires
        old(store).state().wf(),
        old(store).state().settled,
    ensures
        final(store).state().wf(),
        final(store).state().start == old(store).state().start,
        ({
            let end = intact_end(old(store).state().image, old(store).state().start, max_record_size);
            &&& old(store).state().start <= end
            &&& end <= old(store).state().image.len() || end == old(store).state().start
            &&& final(store).state().flushed >= least(old(store).state().flushed, end)
            &&& match result {
                Ok(n) => {
                    &&& n == end
                    &&& final(store).state().settled
                    &&& final(store).state().image == old(store).state().image.take(
                        least(end, old(store).state().image.len() as int),
                    )
                },
                Err(error) => {
                    &&& same_below(
                        final(store).state().image,
                        old(store).state().image,
                        least(end, old(store).state().image.len() as int),
                    )
                    &&& S::write_error(error) || S::read_error(error) && *final(store) == *old(
                        store,
                    )
                },
            }
            &&& end >= old(store).state().image.len() ==> *final(store) == *old(store)
        }),
        final(store).state().flushes == old(store).state().flushes,
        S::reliable() ==> result is Ok,
{
    proof {
        intact_run_is_whole(store.state().image, store.state().start, max_record_size);
    }
    let ghost image = store.state().image;
    let ghost head = store.state().start;
    let ghost end = intact_end(image, head, max_record_size);
    let physical: u64 = match store.len() {
        Ok(n) => n,
        Err(error) => {
            return Err(error);
        },
    };
    let mut offset: u64 = match store.head() {
        Ok(head) => head,
        Err(error) => {
            return Err(error);
        },
    };
    while offset < physical
        invariant
            *store == *old(store),
            store.state().wf(),
            store.state().settled,
            image == store.state().image,
            head == store.state().start,
            head <= offset,
            offset <= image.len() || offset == head,
            physical == image.len(),
            physical <= u64::MAX,
            end == intact_end(image, head, max_record_size),
            end == intact_end(image, offset as int, max_record_size),
            head <= end,
            end <= image.len() || end == head,
            old(store).state().flushed >= least(old(store).state().flushed, end),
        ensures
            offset == end,
        decreases image.len() - offset,
    {
        let slot = match read_slot(store, offset, max_record_size) {
            Ok(slot) => slot,
            Err(error) => {
                return Err(error);
            },
        };
        match slot {
            ReadSlot::Intact { next, .. } => {
                offset = next;
            },
            _ => {
                break ;
            },
        }
    }
    if offset < physical {
        match store.truncate(offset) {
            Ok(()) => {},
            Err(error) => {
                return Err(error);
            },
        }
    }
    assert(store.state().image =~= image.take(least(end, image.len() as int)));
    Ok(offset)
}

/// Where a log is cut behind the record that was read at `at`: at its end, if it is
/// intact and ends within the readable records.
pub fn cut_point(at: u64, committed: u64, slot: ReadSlot) -> (result: Result<u64, WalError>)
    ensures
        result == (match slot {
            ReadSlot::Intact { next, .. } => if next <= committed {
                Ok::<u64, WalError>(next)
            } else {
                Err::<u64, WalError>(WalError::Corruption { offset: at, reason: NO_RECORD })
            },
            _ => Err::<u64, WalError>(WalError::Corruption { offset: at, reason: NO_RECORD }),
        }),
{
    match slot {
        ReadSlot::Intact { next, .. } => if next <= committed {
            Ok(next)
        } else {
            Err(WalError::corruption(at, NO_RECORD))
        },
        _ => Err(WalError::corruption(at, NO_RECORD)),
    }
}

/// The framed size of a record of `len` bytes, unless it is larger than `max`.
pub fn check_len(len: usize, max: u32) -> (result: Result<u64, WalError>)
    ensures
        result == (if len <= max {
            Ok::<u64, WalError>(framed_size(len as nat) as u64)
        } else {
            Err::<u64, WalError>(WalError::RecordTooLarge { len, max })
        }),
        len <= max ==> framed_size(len as nat) <= u64::MAX,
{
    if len > max as usize {
        return Err(WalError::RecordTooLarge { len, max });
    }
    Ok(framed_len(len as u32))
}

/// Where a byte range of `frame_len` bytes that was reserved at `start` ends, unless
/// that is past the largest offset.
pub fn reserved_end(start: u64, frame_len: u64) -> (result: Result<u64, WalError>)
    ensures
        match result {
            Ok(end) => end == start + frame_len,
            Err(error) => {
                &&& start + frame_len > u64::MAX
                &&& is_own_io(error, "reserving a record offset", "log size exceeds u64")
            },
        },
{
    match start.checked_add(frame_len) {
        Some(end) => Ok(end),
        None => Err(WalError::other("reserving a record offset", "log size exceeds u64")),
    }
}

/// A durable, append-only log over a store.
///
/// The calls that cover almost every use are [`with_store`](Wal::with_store),
/// [`append`](Wal::append), [`sync`](Wal::sync), and [`iter`](Wal::iter).
///
/// An append reserves its byte range at the end of the log, frames the record and
/// writes it; the start of the range is the record's sequence number. `append`
/// returns once the store took the bytes, `sync` once they are on stable storage.
pub struct Wal<S> {
    /// Next byte offset to reserve.
    tail: u64,
    store: S,
    max_record_size: u32,
    recovery_policy: RecoveryPolicy,
    commit: Commit,
    /// Scratch space for framing, reused from append to append.
    frame: Vec<u8>,
}

impl<S: WalStore> Wal<S> {
    /// The offset at which the next append lands.
    pub closed spec fn end(&self) -> u64 {
        self.tail
    }

    /// The store that holds the bytes.
    pub closed spec fn backing(&self) -> S {
        self.store
    }

    /// The largest payload that the log accepts, in bytes.
    pub closed spec fn limit(&self) -> u32 {
        self.max_record_size
    }

    /// How iteration reacts to damage.
    pub closed spec fn policy(&self) -> RecoveryPolicy {
        self.recovery_policy
    }

    /// What is written and what is durable.
    pub closed spec fn marks(&self) -> Watermarks {
        self.commit@
    }

    /// The bytes of the log.
    pub open spec fn image(&self) -> Seq<u8> {
        self.backing().state().image
    }

    /// The lowest offset still present.
    pub open spec fn start(&self) -> int {
        self.backing().state().start
    }

    /// Where the readable records end.
    pub open spec fn committed(&self) -> int {
        self.marks().committed as int
    }

    /// The records of the log, in append order.
    pub open spec fn records(&self) -> Seq<Entry> {
        entries(self.image(), self.start(), self.committed(), self.limit())
    }

    /// Whether the store ends before its head, and nothing was written since it was
    /// opened: the first append lands at the head.
    pub open spec fn is_ahead(&self) -> bool {
        self.committed() == self.start() && self.marks().durable == self.start()
    }

    /// Every write up to the end completed, or the first that failed begins where
    /// the readable records end.
    pub open spec fn wf(&self) -> bool {
        &&& self.backing().state().wf()
        &&& self.marks().wf()
        &&& !self.marks().syncing
        &&& self.start() <= self.committed()
        &&& self.committed() <= self.image().len() || self.is_ahead()
        &&& match self.marks().poison {
            None => {
                &&& self.backing().state().settled
                &&& self.committed() == self.end()
                &&& self.marks().pending == Map::<u64, u64>::empty()
            },
            Some(p) => {
                &&& p == self.committed()
                &&& p < self.end()
                &&& forall|s: u64| #[trigger]
                    self.marks().pending.contains_key(s) ==> self.marks().pending[s] <= self.end()
            },
        }
    }

    /// Whether no byte of the readable records was damaged behind the log's back.
    pub open spec fn clean(&self) -> bool {
        whole(self.image(), self.start(), self.committed(), self.limit())
    }

    /// Whether what counts as durable, from the head on, was flushed.
    pub open spec fn backed(&self) -> bool {
        self.marks().durable <= self.backing().state().flushed || self.marks().durable
            <= self.start()
    }

    /// Whether a record of `len` bytes still ends at an offset that can be written
    /// down.
    pub open spec fn has_room(&self, len: nat) -> bool {
        self.end() + framed_size(len) <= u64::MAX
    }

    /// Build a log over a store, using the default configuration.
    pub fn with_store(store: S) -> (result: Result<Self, WalError>)
        requires
            store.state().wf(),
            store.state().settled,
        ensures
            result matches Ok(wal) ==> {
                let end = intact_end(store.state().image, store.state().start, wal.limit());
                &&& wal.wf()
                &&& wal.clean()
                &&& wal.end() == end
                &&& wal.marks() == Watermarks::fresh(wal.end())
                &&& wal.image() == store.state().image.take(
                    least(end, store.state().image.len() as int),
                )
                &&& wal.start() == store.state().start
                &&& wal.limit() == 64 * 1024 * 1024
                &&& wal.policy() == RecoveryPolicy::StopAtFirstError
                &&& wal.records() == entries(
                    store.state().image,
                    store.state().start,
                    end,
                    wal.limit(),
                )
                &&& store.state().flushed >= end ==> wal.backed()
                &&& end >= store.state().image.len() ==> wal.backing() == store
                &&& wal.backing().state().flushes == store.state().flushes
            },
            result matches Err(error) ==> S::read_error(error) || S::write_error(error),
            S::reliable() ==> result is Ok,
    {
        Self::with_store_and_config(store, WalConfig::new())
    }

    /// Build a log over a store with an explicit configuration.
    ///
    /// The contents are scanned from the head. The scan stops at the first record
    /// that is incomplete or fails its checksum, and the store is truncated there,
    /// so that the next append lands on a clean boundary.
    pub fn with_store_and_config(store: S, config: WalConfig) -> (result: Result<Self, WalError>)
        requires
            store.state().wf(),
            store.state().settled,
        ensures
            result matches Ok(wal) ==> {
                let end = intact_end(store.state().image, store.state().start, config.max_size());
                &&& wal.wf()
                &&& wal.clean()
                &&& wal.end() == end
                &&& wal.marks() == Watermarks::fresh(wal.end())
                &&& wal.image() == store.state().image.take(
                    least(end, store.state().image.len() as int),
                )
                &&& wal.start() == store.state().start
                &&& wal.limit() == config.max_size()
                &&& wal.policy() == config.policy()
                &&& wal.records() == entries(
                    store.state().image,
                    store.state().start,
                    end,
                    wal.limit(),
                )
                &&& store.state().flushed >= end ==> wal.backed()
                &&& end >= store.state().image.len() ==> wal.backing() == store
                &&& wal.backing().state().flushes == store.state().flushes
            },
            result matches Err(error) ==> S::read_error(error) || S::write_error(error),
            S::reliable() ==> result is Ok,
    {
        let ghost before = store.state().image;
        let ghost head = store.state().start;
        let max = config.max_record_size();
        proof {
            intact_run_is_whole(before, head, max);
        }
        let mut store = store;
        let recovered: u64 = match recover(&mut store, max) {
            Ok(n) => n,
            Err(error) => {
                return Err(error);
            },
        };
        proof {
            if recovered <= before.len() {
                whole_is_local(before, store.state().image, head, recovered as int, max);
            }
        }
        Ok(
            Wal {
                tail: recovered,
                store,
                max_record_size: max,
                recovery_policy: config.recovery_policy(),
                commit: Commit::new(recovered),
                frame: Vec::new(),
            },
        )
    }

    /// The logical size of the log in bytes, including record framing: the offset
    /// at which the next append lands.
    #[must_use]
    pub fn len(&self) -> (len: u64)
        ensures
            len == self.end(),
    {
        self.tail
    }

    /// Whether nothing was ever appended to the log.
    #[must_use]
    pub fn is_empty(&self) -> (empty: bool)
        ensures
            empty == (self.end() == 0),
    {
        self.len() == 0
    }

    /// The store that holds the bytes.
    #[must_use]
    pub fn store(&self) -> (store: &S)
        ensures
            *store == self.backing(),
    {
        &self.store
    }

    /// Take the store out of the log.
    #[must_use]
    pub fn into_store(self) -> (store: S)
        ensures
            store == self.backing(),
    {
        self.store
    }

    /// The store, to be changed behind the log's back.
    pub fn store_mut(&mut self) -> (store: &mut S)
        ensures
            *store == old(self).backing(),
            final(self).backing() == *final(store),
            final(self).end() == old(self).end(),
            final(self).marks() == old(self).marks(),
            final(self).limit() == old(self).limit(),
            final(self).policy() == old(self).policy(),
    {
        &mut self.store
    }

    /// Frame `record` into the scratch space and write it at `start`.
    fn frame_and_write(&mut self, start: u64, record: &[u8]) -> (result: Result<(), WalError>)
        requires
            old(self).backing().state().wf(),
            record@.len() <= u32::MAX,
        ensures
            final(self).end() == old(self).end(),
            final(self).marks() == old(self).marks(),
            final(self).limit() == old(self).limit(),
            final(self).policy() == old(self).policy(),
            final(self).backing().state().wf(),
            final(self).start() == old(self).start(),
            final(self).backing().state().flushed >= least(old(self).backing().state().flushed, start as int),
            same_below(
                final(self).image(),
                old(self).image(),
                least(start as int, old(self).image().len() as int),
            ),
            result is Ok && old(self).backing().state().settled ==> {
                &&& final(self).backing().state().settled
                &&& final(self).image() == overwrite(
                    old(self).image(),
                    start as int,
                    frame(record@),
                )
            },
            result is Ok ==> holds(final(self).image(), start as int, frame(record@)),
            final(self).backing().state().flushes == old(self).backing().state().flushes,
            result matches Err(error) ==> S::write_error(error),
            S::reliable() && start + framed_size(record@.len()) <= S::room() ==> result is Ok,
    {
        proof {
            frame_has_its_size(record@);
        }
        encode(&mut self.frame, record);
        self.store.write_at(start, self.frame.as_slice())
    }

    /// Append `record` to the log and return the sequence number it was assigned,
    /// the byte offset at which it begins.
    ///
    /// A record larger than the configured maximum is rejected and the log is
    /// unchanged. A write that fails leaves a permanent gap: the log is readable
    /// and durable only up to it, and later syncs covering it report that.
    pub fn append(&mut self, record: &[u8]) -> (result: Result<Lsn, WalError>)
        requires
            old(self).wf(),
        ensures
            final(self).limit() == old(self).limit(),
            final(self).policy() == old(self).policy(),
            final(self).start() == old(self).start(),
            final(self).backing().state().flushes == old(self).backing().state().flushes,
            record@.len() > old(self).limit() ==> {
                &&& result == Err::<Lsn, WalError>(
                    WalError::RecordTooLarge { len: record@.len() as usize, max: old(self).limit() },
                )
                &&& *final(self) == *old(self)
            },
            record@.len() <= old(self).limit() && !old(self).has_room(record@.len()) ==> {
                &&& result matches Err(error) && is_own_io(
                    error,
                    "reserving a record offset",
                    "log size exceeds u64",
                )
                &&& final(self).backing() == old(self).backing()
                &&& final(self).end() == old(self).end() + framed_size(record@.len()) - u64::MAX
                    - 1
                &&& final(self).marks() == old(self).marks().failed_at(old(self).end())
            },
            record@.len() <= old(self).limit() && old(self).has_room(record@.len()) ==> {
                let start = old(self).end();
                let end = (start + framed_size(record@.len())) as u64;
                let in_order = old(self).marks().poison is None;
                &&& final(self).wf()
                &&& final(self).end() == end
                &&& same_below(
                    final(self).image(),
                    old(self).image(),
                    least(start as int, old(self).image().len() as int),
                )
                &&& old(self).backed() ==> final(self).backed()
                &&& S::reliable() && end <= S::room() ==> result is Ok
                &&& match result {
                    Ok(lsn) => {
                        &&& lsn.offset() == start
                        &&& final(self).marks() == old(self).marks().with_region(start, end)
                        &&& holds(final(self).image(), start as int, frame(record@))
                        &&& old(self).backing().state().settled ==> {
                            &&& final(self).backing().state().settled
                            &&& final(self).image() == overwrite(
                                old(self).image(),
                                start as int,
                                frame(record@),
                            )
                        }
                        &&& in_order ==> final(self).committed() == end
                    },
                    Err(error) => {
                        &&& S::write_error(error)
                        &&& final(self).marks() == old(self).marks().failed_at(start)
                    },
                }
                &&& old(self).clean() ==> {
                    &&& final(self).clean()
                    &&& final(self).records() == (if result is Ok && in_order {
                        old(self).records().push(Entry { lsn: start as int, data: record@ })
                    } else {
                        old(self).records()
                    })
                }
            },
    {
        let frame_len: u64 = match check_len(record.len(), self.max_record_size) {
            Ok(frame_len) => frame_len,
            Err(error) => {
                return Err(error);
            },
        };
        // Reserve the byte range. Its start is the sequence number.
        let start: u64 = self.tail;
        self.tail = start.wrapping_add(frame_len);
        let end: u64 = match reserved_end(start, frame_len) {
            Ok(end) => end,
            Err(error) => {
                let _ = self.commit.mark_failed(start);
                return Err(error);
            },
        };
        proof {
            frame_has_its_size(record@);
            assert(old(self).marks().is_free(start, end)) by {
                assert forall|p: int| start <= p < end implies !#[trigger] old(self).marks().covers(
                    p,
                ) by {}
            }
        }
        let written = self.frame_and_write(start, record);
        let ghost ok = written is Ok;
        let (result, _) = self.commit.conclude(start, end, written);
        proof {
            if old(self).marks().poison is None {
                assert(!old(self).marks().pending.contains_key(end));
            }
            keeps_records(*old(self), *self, record@, ok);
        }
        result
    }

    /// Make every record appended before this call durable.
    ///
    /// If an earlier append failed, what follows it cannot be made durable, and the
    /// call is refused. Otherwise, unless everything is durable already, the store
    /// is flushed once.
    pub fn sync(&mut self) -> (result: Result<(), WalError>)
        requires
            old(self).wf(),
        ensures
            final(self).wf(),
            final(self).limit() == old(self).limit(),
            final(self).policy() == old(self).policy(),
            final(self).end() == old(self).end(),
            final(self).start() == old(self).start(),
            final(self).image() == old(self).image(),
            final(self).records() == old(self).records(),
            final(self).backing().state().flushed >= old(self).backing().state().flushed,
            old(self).backed() ==> final(self).backed(),
            match old(self).marks().poison {
                Some(p) => {
                    &&& result == Err::<(), WalError>(
                        WalError::Corruption { offset: p, reason: TRUNCATED },
                    )
                    &&& *final(self) == *old(self)
                },
                None => if old(self).marks().durable == old(self).end() {
                    &&& result is Ok
                    &&& *final(self) == *old(self)
                } else {
                    &&& final(self).marks() == old(self).marks().finished(
                        old(self).end(),
                        result is Ok,
                    )
                    &&& result is Ok ==> {
                        &&& final(self).backing().state().flushed == old(self).image().len()
                        &&& final(self).backed()
                    }
                    &&& final(self).backing().state().flushes
                        <= old(self).backing().state().flushes + 1
                    &&& result matches Err(error) ==> S::flush_error(error)
                    &&& S::reliable() ==> result is Ok
                },
            },
            result is Ok ==> final(self).marks().durable == final(self).end(),
    {
        let target: u64 = self.tail;
        if target == 0 {
            return Ok(());
        }
        self.commit.sync_to(&mut self.store, target)
    }

    /// Append `record` and make it durable in one call, returning its sequence
    /// number.
    pub fn append_and_sync(&mut self, record: &[u8]) -> (result: Result<Lsn, WalError>)
        requires
            old(self).wf(),
        ensures
            final(self).limit() == old(self).limit(),
            final(self).policy() == old(self).policy(),
            final(self).start() == old(self).start(),
            record@.len() > old(self).limit() ==> {
                &&& result == Err::<Lsn, WalError>(
                    WalError::RecordTooLarge { len: record@.len() as usize, max: old(self).limit() },
                )
                &&& *final(self) == *old(self)
            },
            record@.len() <= old(self).limit() && !old(self).has_room(record@.len()) ==> {
                &&& result matches Err(error) && is_own_io(
                    error,
                    "reserving a record offset",
                    "log size exceeds u64",
                )
                &&& final(self).backing() == old(self).backing()
                &&& final(self).end() == old(self).end() + framed_size(record@.len()) - u64::MAX
                    - 1
                &&& final(self).marks() == old(self).marks().failed_at(old(self).end())
            },
            record@.len() <= old(self).limit() && old(self).has_room(record@.len()) ==> {
                let start = old(self).end();
                let end = (start + framed_size(record@.len())) as u64;
                let written = old(self).marks().with_region(start, end);
                &&& final(self).wf()
                &&& final(self).end() == end
                &&& same_below(
                    final(self).image(),
                    old(self).image(),
                    least(start as int, old(self).image().len() as int),
                )
                &&& old(self).backed() ==> final(self).backed()
                &&& S::reliable() && end <= S::room() ==> match old(self).marks().poison {
                    None => result is Ok,
                    Some(p) => {
                        &&& result == Err::<Lsn, WalError>(
                            WalError::Corruption { offset: p, reason: TRUNCATED },
                        )
                        &&& final(self).marks() == written
                        &&& holds(final(self).image(), start as int, frame(record@))
                        &&& old(self).backing().state().settled ==> final(self).image()
                            == overwrite(old(self).image(), start as int, frame(record@))
                    },
                }
                &&& final(self).backing().state().flushes <= old(self).backing().state().flushes
                    + 1
                &&& match result {
                    Ok(lsn) => {
                        &&& lsn.offset() == start
                        &&& old(self).marks().poison is None
                        &&& final(self).image() == overwrite(
                            old(self).image(),
                            start as int,
                            frame(record@),
                        )
                        &&& final(self).marks() == written.finished(end, true)
                        &&& final(self).marks().durable == end
                        &&& final(self).backing().state().flushed == final(self).image().len()
                        &&& final(self).backed()
                    },
                    Err(error) => {
                        ||| {
                            &&& S::write_error(error)
                            &&& final(self).marks() == old(self).marks().failed_at(start)
                            &&& final(self).backing().state().flushes
                                == old(self).backing().state().flushes
                        }
                        ||| {
                            &&& final(self).marks() == written
                            &&& holds(final(self).image(), start as int, frame(record@))
                            &&& old(self).backing().state().settled ==> final(self).image()
                                == overwrite(old(self).image(), start as int, frame(record@))
                            &&& match old(self).marks().poison {
                                Some(p) => {
                                    &&& error == (WalError::Corruption {
                                        offset: p,
                                        reason: TRUNCATED,
                                    })
                                    &&& final(self).backing().state().flushes
                                        == old(self).backing().state().flushes
                                },
                                None => S::flush_error(error),
                            }
                        }
                    },
                }
                &&& old(self).clean() ==> {
                    &&& final(self).clean()
                    &&& final(self).records() == (if final(self).committed() == end {
                        old(self).records().push(Entry { lsn: start as int, data: record@ })
                    } else {
                        old(self).records()
                    })
                }
            },
    {
        let lsn = match self.append(record) {
            Ok(lsn) => lsn,
            Err(error) => {
                return Err(error);
            },
        };
        let end: u64 = lsn.get() + framed_len(record.len() as u32);
        match self.commit.sync_to(&mut self.store, end) {
            Ok(()) => Ok(lsn),
            Err(error) => Err(error),
        }
    }

    /// Iterate over the log from its head, yielding each record in append order.
    ///
    /// The iterator walks the records that are readable when it is made.
    pub fn iter(&self) -> (result: Result<WalIter<'_, S>, WalError>)
        requires
            self.wf(),
        ensures
            result matches Ok(iter) ==> {
                &&& iter.wf()
                &&& *iter.log() == *self
                &&& self.backing().state().settled || self.clean() ==> iter.faithful()
                &&& iter.remaining() == items(
                    self.image(),
                    self.start(),
                    self.committed(),
                    self.limit(),
                    self.policy(),
                )
                &&& self.clean() ==> iter.remaining() == as_items(self.records())
            },
            result matches Err(error) ==> S::read_error(error),
            S::reliable() ==> result is Ok,
    {
        proof {
            if self.clean() {
                whole_iterates_cleanly(
                    self.image(),
                    self.start(),
                    self.committed(),
                    self.limit(),
                    self.policy(),
                );
            }
        }
        match self.store.head() {
            Ok(head) => Ok(
                WalIter { wal: self, offset: head, end: self.commit.committed(), done: false },
            ),
            Err(error) => Err(error),
        }
    }

    /// Iterate over the log from the record at `lsn` on, without scanning what
    /// stands before it. What was dropped from the front is not yielded.
    pub fn iter_from(&self, lsn: Lsn) -> (result: Result<WalIter<'_, S>, WalError>)
        requires
            self.wf(),
        ensures
            result matches Ok(iter) ==> {
                let from = if lsn.offset() < self.start() {
                    self.start()
                } else {
                    lsn.offset() as int
                };
                &&& iter.wf()
                &&& *iter.log() == *self
                &&& self.backing().state().settled ==> iter.faithful()
                &&& iter.remaining() == items(
                    self.image(),
                    from,
                    self.committed(),
                    self.limit(),
                    self.policy(),
                )
                &&& self.clean() ==> forall|i: int|
                    0 <= i < self.records().len() && (#[trigger] self.records()[i]).lsn
                        == lsn.offset() ==> {
                        &&& iter.faithful()
                        &&& iter.remaining() == as_items(self.records().skip(i))
                    }
            },
            result matches Err(error) ==> S::read_error(error),
            S::reliable() ==> result is Ok,
    {
        let head: u64 = match self.store.head() {
            Ok(head) => head,
            Err(error) => {
                return Err(error);
            },
        };
        let from: u64 = if lsn.get() < head {
            head
        } else {
            lsn.get()
        };
        let iter = WalIter { wal: self, offset: from, end: self.commit.committed(), done: false };
        proof {
            if self.clean() {
                assert forall|i: int|
                    0 <= i < self.records().len() && (#[trigger] self.records()[i]).lsn
                        == lsn.offset() implies iter.faithful() && iter.remaining() == as_items(
                    self.records().skip(i),
                ) by {
                    record_splits_whole(
                        self.image(),
                        self.start(),
                        self.committed(),
                        self.limit(),
                        i,
                    );
                    whole_iterates_cleanly(
                        self.image(),
                        from as int,
                        self.committed(),
                        self.limit(),
                        self.policy(),
                    );
                }
            }
        }
        Ok(iter)
    }

    /// Drop every record after the one at `lsn`, and make that durable.
    ///
    /// The record itself is kept and appends go on behind it. If no intact record
    /// stands at `lsn`, the call is refused and the log is unchanged. A log on which
    /// the truncation of the store failed has to be opened again.
    pub fn truncate_after(&mut self, lsn: Lsn) -> (result: Result<(), WalError>)
        requires
            old(self).wf(),
        ensures
            final(self).limit() == old(self).limit(),
            final(self).policy() == old(self).policy(),
            final(self).start() == old(self).start(),
            ({
                let at = lsn.offset() as int;
                let kept = if old(self).start() <= at < old(self).committed() {
                    match slot_at(old(self).image(), at, old(self).limit()) {
                        Slot::Intact { next, .. } => if next <= old(self).committed() {
                            Some(next)
                        } else {
                            None
                        },
                        _ => None,
                    }
                } else {
                    None
                };
                match kept {
                    Some(next) => {
                        &&& same_below(final(self).image(), old(self).image(), next)
                        &&& S::reliable() ==> result is Ok
                        &&& result matches Err(error) ==> {
                            ||| S::read_error(error) && *final(self) == *old(self)
                            ||| {
                                &&& S::write_error(error)
                                &&& final(self).end() == old(self).end()
                                &&& final(self).marks() == old(self).marks()
                            }
                            ||| {
                                &&& S::flush_error(error)
                                &&& final(self).end() == next
                                &&& final(self).image() == old(self).image().take(next)
                                &&& final(self).marks() == old(self).marks().rewound(next as u64)
                            }
                        }
                        &&& result is Ok ==> {
                            &&& final(self).wf()
                            &&& final(self).end() == next
                            &&& final(self).image() == old(self).image().take(next)
                            &&& final(self).marks() == (Watermarks {
                                durable: next as u64,
                                ..old(self).marks().rewound(next as u64)
                            })
                            &&& final(self).backed()
                        }
                    },
                    None => {
                        &&& *final(self) == *old(self)
                        &&& result matches Err(error) && (error == (WalError::Corruption {
                            offset: lsn.offset(),
                            reason: NO_RECORD,
                        }) || !S::reliable() && S::read_error(error))
                    },
                }
            }),
            old(self).clean() ==> forall|i: int|
                0 <= i < old(self).records().len() && (#[trigger] old(self).records()[i]).lsn
                    == lsn.offset() ==> {
                    &&& S::reliable() ==> result is Ok
                    &&& result is Ok ==> {
                        &&& final(self).wf()
                        &&& final(self).clean()
                        &&& final(self).backed()
                        &&& final(self).end() == lsn.offset() + framed_size(
                            old(self).records()[i].data.len(),
                        )
                        &&& final(self).records() == old(self).records().take(i + 1)
                    }
                },
    {
        proof {
            if self.clean() {
                assert forall|i: int|
                    0 <= i < self.records().len() && (#[trigger] self.records()[i]).lsn
                        == lsn.offset() implies slot_at(
                    self.image(),
                    lsn.offset() as int,
                    self.limit(),
                ) == (Slot::Intact {
                    payload: self.records()[i].data,
                    next: lsn.offset() + framed_size(self.records()[i].data.len()),
                }) && self.start() <= lsn.offset() < self.committed() && lsn.offset() + framed_size(
                    self.records()[i].data.len(),
                ) <= self.committed() by {
                    record_splits_whole(
                        self.image(),
                        self.start(),
                        self.committed(),
                        self.limit(),
                        i,
                    );
                }
            }
        }
        let at: u64 = lsn.get();
        let head: u64 = match self.store.head() {
            Ok(head) => head,
            Err(error) => {
                return Err(error);
            },
        };
        let committed: u64 = self.commit.committed();
        if at < head || at >= committed {
            return Err(WalError::corruption(at, NO_RECORD));
        }
        let slot = match read_slot(&self.store, at, self.max_record_size) {
            Ok(slot) => slot,
            Err(error) => {
                return Err(error);
            },
        };
        let next: u64 = match cut_point(at, committed, slot) {
            Ok(next) => next,
            Err(error) => {
                return Err(error);
            },
        };
        match self.store.truncate(next) {
            Ok(()) => {},
            Err(error) => {
                return Err(error);
            },
        }
        self.tail = next;
        self.commit.rewind(next);
        match self.store.sync() {
            Ok(()) => {},
            Err(error) => {
                return Err(error);
            },
        }
        self.commit.finish(next, true);
        proof {
            if old(self).clean() {
                cut_at_a_record(*old(self), *self, at as int, next as int);
            }
        }
        Ok(())
    }

    /// Give up the records before the one at `lsn`, as far as the store can, and
    /// return where the log now begins.
    ///
    /// Nothing from `lsn` on is given up. A log on which this failed has to be
    /// opened again.
    pub fn truncate_before(&mut self, lsn: Lsn) -> (result: Result<Lsn, WalError>)
        requires
            old(self).wf(),
            old(self).start() <= old(self).image().len(),
        ensures
            final(self).limit() == old(self).limit(),
            final(self).policy() == old(self).policy(),
            final(self).end() == old(self).end(),
            final(self).marks() == old(self).marks(),
            result matches Ok(head) ==> {
                let low = clamped(lsn.offset() as int, old(self).start(), old(self).committed());
                &&& final(self).wf()
                &&& head.offset() == final(self).start()
                &&& final(self).start() == low || !S::drops() && final(self).start() == old(
                    self,
                ).start()
                &&& final(self).image().len() == old(self).image().len()
                &&& forall|i: int|
                    final(self).start() <= i < old(self).image().len()
                        ==> #[trigger] final(self).image()[i] == old(self).image()[i]
                &&& old(self).backed() ==> final(self).backed()
                &&& old(self).clean() ==> forall|i: int|
                    0 <= i < old(self).records().len() && (
                    #[trigger] old(self).records()[i]).lsn == lsn.offset() ==> {
                        &&& final(self).clean()
                        &&& final(self).records() == (if final(self).start() == lsn.offset() {
                            old(self).records().skip(i)
                        } else {
                            old(self).records()
                        })
                    }
            },
            result matches Err(error) ==> S::write_error(error),
            S::reliable() ==> result is Ok,
    {
        let committed: u64 = self.commit.committed();
        let offset: u64 = if lsn.get() < committed {
            lsn.get()
        } else {
            committed
        };
        match self.store.truncate_before(offset) {
            Ok(head) => {
                proof {
                    if old(self).clean() {
                        assert forall|i: int|
                            0 <= i < old(self).records().len() && (
                            #[trigger] old(self).records()[i]).lsn == lsn.offset() implies {
                            &&& self.clean()
                            &&& self.records() == (if self.start() == lsn.offset() {
                                old(self).records().skip(i)
                            } else {
                                old(self).records()
                            })
                        } by {
                            record_splits_whole(
                                old(self).image(),
                                old(self).start(),
                                old(self).committed(),
                                old(self).limit(),
                                i,
                            );
                            dropped_up_to_a_record(*old(self), *self, i);
                        }
                    }
                }
                Ok(Lsn::new(head))
            },
            Err(error) => Err(error),
        }
    }
}

/// What an append does to the records of a clean log: one that completes in order
/// adds its record, any other leaves them alone.
proof fn keeps_records<S: WalStore>(before: Wal<S>, after: Wal<S>, payload: Seq<u8>, written: bool)
    requires
        before.wf(),
        after.start() == before.start(),
        after.limit() == before.limit(),
        payload.len() <= before.limit(),
        same_below(
            after.image(),
            before.image(),
            least(before.end() as int, before.image().len() as int),
        ),
        ({
            let in_order = written && before.marks().poison is None;
            &&& in_order ==> after.image() == overwrite(
                before.image(),
                before.end() as int,
                frame(payload),
            )
            &&& after.committed() == (if in_order {
                before.end() + framed_size(payload.len())
            } else {
                before.committed()
            })
        }),
    ensures
        before.clean() ==> {
            &&& after.clean()
            &&& after.records() == (if written && before.marks().poison is None {
                before.records().push(Entry { lsn: before.end() as int, data: payload })
            } else {
                before.records()
            })
        },
{
    if before.clean() && before.committed() > before.image().len() {
        if written && before.marks().poison is None {
            frame_has_its_size(payload);
            let end = before.end() as int;
            let next = end + framed_size(payload.len());
            assert(after.image().subrange(end, end + frame(payload).len()) =~= frame(payload));
            frame_is_intact(after.image(), end, payload, before.limit());
            assert(whole(after.image(), next, next, before.limit()));
            assert(entries(after.image(), next, next, before.limit()) =~= Seq::<Entry>::empty());
            assert(after.records() =~= before.records().push(Entry { lsn: end, data: payload }));
        } else {
            assert(after.records() =~= before.records());
        }
    } else if before.clean() {
        whole_lies_within(before.image(), before.start(), before.committed(), before.limit());
        if written && before.marks().poison is None {
            frame_has_its_size(payload);
            let end = before.end() as int;
            assert(after.image().subrange(end, end + frame(payload).len()) =~= frame(payload));
            frame_extends_whole(
                before.image(),
                after.image(),
                before.start(),
                end,
                payload,
                before.limit(),
            );
        } else {
            whole_is_local(
                before.image(),
                after.image(),
                before.start(),
                before.committed(),
                before.limit(),
            );
        }
    }
}

/// Cutting a clean log behind one of its records keeps the records up to it.
proof fn cut_at_a_record<S: WalStore>(before: Wal<S>, after: Wal<S>, at: int, next: int)
    requires
        before.wf(),
        before.clean(),
        before.start() <= at,
        after.start() == before.start(),
        after.limit() == before.limit(),
        after.committed() == next,
        after.image() == before.image().take(next),
        next <= before.committed(),
        slot_at(before.image(), at, before.limit()) matches Slot::Intact { next: n, .. } && n
            == next,
    ensures
        forall|i: int|
            0 <= i < before.records().len() && (#[trigger] before.records()[i]).lsn == at ==> {
                &&& after.clean()
                &&& after.records() == before.records().take(i + 1)
            },
{
    assert forall|i: int|
        0 <= i < before.records().len() && (#[trigger] before.records()[i]).lsn == at implies {
        &&& after.clean()
        &&& after.records() == before.records().take(i + 1)
    } by {
        record_splits_whole(
            before.image(),
            before.start(),
            before.committed(),
            before.limit(),
            i,
        );
        whole_is_local(before.image(), after.image(), before.start(), next, before.limit());
    }
}

/// Giving up the front of a clean log up to one of its records keeps the records
/// from it on.
proof fn dropped_up_to_a_record<S: WalStore>(before: Wal<S>, after: Wal<S>, i: int)
    requires
        before.wf(),
        before.clean(),
        after.limit() == before.limit(),
        after.committed() == before.committed(),
        after.image().len() == before.image().len(),
        0 <= i < before.records().len(),
        after.start() == before.start() || after.start() == before.records()[i].lsn,
        forall|j: int|
            after.start() <= j < before.image().len() ==> #[trigger] after.image()[j]
                == before.image()[j],
    ensures
        after.clean(),
        after.records() == (if after.start() == before.records()[i].lsn {
            before.records().skip(i)
        } else {
            before.records()
        }),
{
    record_splits_whole(before.image(), before.start(), before.committed(), before.limit(), i);
    whole_is_local_from(
        before.image(),
        after.image(),
        after.start(),
        before.committed(),
        before.limit(),
    );
}

/// The iterator over a log.
///
/// Walks the records that were readable when it was made. How it reacts to a
/// damaged record is the log's recovery policy.
pub struct WalIter<'a, S> {
    wal: &'a Wal<S>,
    offset: u64,
    end: u64,
    done: bool,
}

/// What one slot means to an iteration.
#[derive(Debug)]
pub enum Step {
    /// There is nothing more to yield.
    End,
    /// Yield `record` and go on at `next`.
    Yield { record: Record, next: u64 },
    /// Yield `error`, and go on at `resume` if it is given.
    Report { error: WalError, resume: Option<u64> },
}

/// Decide what the slot read at `offset` means to an iteration.
pub fn step(policy: RecoveryPolicy, offset: u64, slot: ReadSlot) -> (step: Step)
    ensures
        match slot {
            ReadSlot::ShortHeader => step is End,
            ReadSlot::ShortPayload => step is End,
            ReadSlot::TooLong => step == (Step::Report {
                error: WalError::Corruption { offset, reason: TOO_LONG },
                resume: None,
            }),
            ReadSlot::Overflow => step == (Step::Report {
                error: WalError::Corruption { offset, reason: OVERFLOW },
                resume: None,
            }),
            ReadSlot::Damaged { next } => step == (Step::Report {
                error: WalError::Corruption { offset, reason: MISMATCH },
                resume: if policy == RecoveryPolicy::SkipBadRecords {
                    Some(next)
                } else {
                    None
                },
            }),
            ReadSlot::Intact { payload, next } => step matches Step::Yield { record, next: n } && n
                == next && record@ == (Entry { lsn: offset as int, data: payload@ }),
        },
{
    match slot {
        ReadSlot::ShortHeader => Step::End,
        ReadSlot::ShortPayload => Step::End,
        ReadSlot::TooLong => Step::Report {
            error: WalError::corruption(offset, TOO_LONG),
            resume: None,
        },
        ReadSlot::Overflow => Step::Report {
            error: WalError::corruption(offset, OVERFLOW),
            resume: None,
        },
        ReadSlot::Damaged { next } => Step::Report {
            error: WalError::corruption(offset, MISMATCH),
            resume: match policy {
                RecoveryPolicy::SkipBadRecords => Some(next),
                RecoveryPolicy::StopAtFirstError => None,
            },
        },
        ReadSlot::Intact { payload, next } => Step::Yield {
            record: Record { lsn: Lsn::new(offset), data: payload },
            next,
        },
    }
}

/// The reason given for a damaged record.
pub open spec fn reason_of(fault: Fault) -> &'static str {
    match fault {
        Fault::TooLong => TOO_LONG,
        Fault::Mismatch => MISMATCH,
    }
}

/// Each kind of damage is reported with its own reason.
pub proof fn damage_is_reported_with_its_reason(fault: Fault)
    ensures
        fault is TooLong ==> reason_of(fault) == TOO_LONG,
        fault is Mismatch ==> reason_of(fault) == MISMATCH,
{
}

impl<'a, S: WalStore> WalIter<'a, S> {
    /// The log that is iterated over.
    pub closed spec fn log(&self) -> &'a Wal<S> {
        self.wal
    }

    /// Where the next item begins.
    pub closed spec fn at(&self) -> u64 {
        self.offset
    }

    /// Where the records ended when the iterator was made.
    pub closed spec fn upto(&self) -> u64 {
        self.end
    }

    /// Whether the iteration is over.
    pub closed spec fn is_done(&self) -> bool {
        self.done
    }

    /// The items that are still to come.
    pub open spec fn remaining(&self) -> Seq<Item> {
        if self.is_done() {
            Seq::empty()
        } else {
            items(
                self.log().image(),
                self.at() as int,
                self.upto() as int,
                self.log().limit(),
                self.log().policy(),
            )
        }
    }

    /// Whether the iterator stands within a usable store.
    pub open spec fn wf(&self) -> bool {
        self.log().backing().state().wf() && self.log().start() <= self.at()
    }

    /// Whether nothing is read that a failed write could have left behind: the
    /// store ends where its bytes end, or only intact records are left to read.
    pub open spec fn faithful(&self) -> bool {
        ||| self.is_done()
        ||| self.log().backing().state().settled
        ||| self.at() >= self.upto()
        ||| whole(
            self.log().image(),
            self.at() as int,
            self.upto() as int,
            self.log().limit(),
        )
    }

    /// Yield the next item: a record, or the error that stands for a damaged one.
    pub fn next(&mut self) -> (item: Option<Result<Record, WalError>>)
        requires
            old(self).wf(),
        ensures
            final(self).wf(),
            final(self).log() == old(self).log(),
            old(self).faithful() ==> {
                let rest = old(self).remaining();
                &&& final(self).faithful()
                &&& match item {
                    None => rest.len() == 0 && final(self).remaining().len() == 0,
                    Some(Ok(record)) => {
                        &&& rest.len() > 0
                        &&& rest[0] == Item::Record(record@)
                        &&& final(self).remaining() == rest.skip(1)
                    },
                    Some(Err(error)) => {
                        ||| {
                            &&& rest.len() > 0
                            &&& rest[0] matches Item::Damage { offset, fault } && error == (
                            WalError::Corruption { offset: offset as u64, reason: reason_of(fault) })
                            &&& final(self).remaining() == rest.skip(1)
                        }
                        ||| {
                            &&& !S::reliable()
                            &&& S::read_error(error)
                            &&& final(self).is_done()
                        }
                    },
                }
            },
            old(self).is_done() || old(self).at() >= old(self).upto() ==> item is None
                && *final(self) == *old(self),
            !old(self).is_done() && old(self).at() < old(self).upto() ==> {
                let at = old(self).at();
                let slot = slot_at(old(self).log().image(), at as int, old(self).log().limit());
                let unread = item matches Some(Err(error)) && !S::reliable() && S::read_error(error)
                    && final(self).is_done();
                &&& slot matches Slot::Intact { payload, next } ==> unread || {
                    &&& item matches Some(Ok(record)) && record@.lsn == at && record@.data
                        == payload
                    &&& final(self).at() == next
                    &&& !final(self).is_done()
                }
                &&& slot matches Slot::Damaged { next } ==> unread || {
                    &&& item == Some(
                        Err::<Record, WalError>(
                            WalError::Corruption { offset: at, reason: MISMATCH },
                        ),
                    )
                    &&& old(self).log().policy() == RecoveryPolicy::StopAtFirstError
                        ==> final(self).is_done()
                    &&& old(self).log().policy() == RecoveryPolicy::SkipBadRecords
                        ==> final(self).at() == next && !final(self).is_done()
                }
                &&& slot is TooLong ==> unread || {
                    &&& item == Some(
                        Err::<Record, WalError>(
                            WalError::Corruption { offset: at, reason: TOO_LONG },
                        ),
                    )
                    &&& final(self).is_done()
                }
                &&& (slot is ShortHeader || slot is ShortPayload) && old(
                    self,
                ).log().backing().state().settled ==> unread || item is None
            },
            item is None ==> final(self).is_done() || final(self).at() >= final(self).upto(),
            item matches Some(Ok(_)) ==> final(self).at() > old(self).at(),
            final(self).upto() == old(self).upto(),
            item matches Some(Err(_)) ==> final(self).is_done() || old(self).log().policy()
                == RecoveryPolicy::SkipBadRecords,
    {
        if self.done || self.offset >= self.end {
            return None;
        }
        let slot = match read_slot(&self.wal.store, self.offset, self.wal.max_record_size) {
            Ok(slot) => slot,
            Err(error) => {
                self.done = true;
                return Some(Err(error));
            },
        };
        let ghost rest = self.remaining();
        match step(self.wal.recovery_policy, self.offset, slot) {
            Step::End => {
                self.done = true;
                None
            },
            Step::Yield { record, next } => {
                self.offset = next;
                assert(old(self).faithful() ==> self.remaining() =~= rest.skip(1));
                Some(Ok(record))
            },
            Step::Report { error, resume } => {
                match resume {
                    Some(next) => {
                        self.offset = next;
                    },
                    None => {
                        self.done = true;
                    },
                }
                assert(old(self).faithful() ==> self.remaining() =~= rest.skip(1));
                Some(Err(error))
            },
        }
    }

    /// Read to the end: every record that is still to come, or the first error.
    pub fn collect(self) -> (result: Result<Vec<Record>, WalError>)
        requires
            self.wf(),
        ensures
            self.faithful() ==> match result {
                Ok(records) => self.remaining() == as_items(views(records@)),
                Err(error) => {
                    ||| first_damage(self.remaining()) matches Some((offset, fault)) && error == (
                    WalError::Corruption { offset: offset as u64, reason: reason_of(fault) })
                    ||| !S::reliable() && S::read_error(error)
                },
            },
    {
        let ghost all = self.remaining();
        let ghost faithful = self.faithful();
        let mut iter = self;
        let mut records: Vec<Record> = Vec::new();
        assert(all =~= as_items(views(records@)) + iter.remaining());
        loop
            invariant
                iter.wf(),
                all == self.remaining(),
                faithful == self.faithful(),
                faithful ==> iter.faithful(),
                faithful ==> all == as_items(views(records@)) + iter.remaining(),
            ensures
                faithful ==> all == as_items(views(records@)),
            decreases u64::MAX - iter.at(),
        {
            let ghost before = iter.remaining();
            let ghost read = records@;
            match iter.next() {
                None => {
                    assert(faithful ==> all =~= as_items(views(records@)));
                    break ;
                },
                Some(Ok(record)) => {
                    records.push(record);
                    assert(faithful ==> all =~= as_items(views(records@)) + iter.remaining()) by {
                        assert(views(records@) =~= views(read).push(record@));
                        assert(as_items(views(records@)) =~= as_items(views(read)).push(
                            Item::Record(record@),
                        ));
                        if faithful {
                            assert(before =~= seq![before[0]] + before.skip(1));
                        }
                    }
                },
                Some(Err(error)) => {
                    proof {
                        if faithful && before.len() > 0 {
                            first_damage_is_behind_records(views(read), before);
                        }
                    }
                    return Err(error);
                },
            }
        }
        Ok(records)
    }
}

/// What the records stand for.
pub open spec fn views(records: Seq<Record>) -> Seq<Entry> {
    records.map_values(|record: Record| record@)
}

/// The first damaged record among `items`: its offset and what is wrong with it.
pub open spec fn first_damage(items: Seq<Item>) -> Option<(int, Fault)>
    decreases items.len(),
{
    if items.len() == 0 {
        None
    } else {
        match items[0] {
            Item::Damage { offset, fault } => Some((offset, fault)),
            Item::Record(_) => first_damage(items.skip(1)),
        }
    }
}

/// Intact records do not hide the damage behind them.
pub proof fn first_damage_is_behind_records(records: Seq<Entry>, rest: Seq<Item>)
    ensures
        first_damage(as_items(records) + rest) == first_damage(rest),
    decreases records.len(),
{
    let all = as_items(records) + rest;
    if records.len() == 0 {
        assert(all =~= rest);
    } else {
        first_damage_is_behind_records(records.skip(1), rest);
        assert(all.skip(1) =~= as_items(records.skip(1)) + rest);
    }
}

/// Opening the bytes of a clean log again recovers every record, and appends go on
/// where they left off.
pub proof fn reopening_recovers_every_record<S: WalStore>(wal: Wal<S>)
    requires
        wal.wf(),
        wal.clean(),
        wal.image().len() == wal.committed(),
    ensures
        intact_end(wal.image(), wal.start(), wal.limit()) == wal.committed(),
        entries(
            wal.image(),
            wal.start(),
            intact_end(wal.image(), wal.start(), wal.limit()),
            wal.limit(),
        ) == wal.records(),
{
    whole_image_is_kept(wal.image(), wal.start(), wal.limit());
}

/// A crash loses no record that was flushed. Whatever the store holds afterwards
/// behind the flushed bytes, recovery yields every record that ends within them,
/// unchanged and in its place.
pub proof fn flushed_records_survive_a_crash<S: WalStore>(wal: Wal<S>, crashed: Seq<u8>, i: int)
    requires
        wal.wf(),
        wal.clean(),
        same_below(crashed, wal.image(), wal.backing().state().flushed),
        wal.start() <= crashed.len(),
        0 <= i < wal.records().len(),
        wal.records()[i].lsn + framed_size(wal.records()[i].data.len()) <= wal.backing().state().flushed,
    ensures
        ({
            let kept = intact_end(crashed, wal.start(), wal.limit());
            let recovered = entries(crashed, wal.start(), kept, wal.limit());
            i < recovered.len() && recovered[i] == wal.records()[i]
        }),
{
    let head = wal.start();
    let max = wal.limit();
    record_splits_whole(wal.image(), head, wal.committed(), max, i);
    let next = wal.records()[i].lsn + framed_size(wal.records()[i].data.len());
    whole_is_local(wal.image(), crashed, head, next, max);
    intact_run_is_whole(crashed, head, max);
    intact_run_passes_whole(crashed, head, next, max);
    let kept = intact_end(crashed, head, max);
    whole_lies_within(crashed, head, next, max);
    intact_run_is_whole(crashed, next, max);
    rest_is_whole(crashed, head, next, kept, max);
    whole_joins(crashed, head, next, kept, max);
    let first = entries(crashed, head, next, max);
    assert(first == wal.records().take(i + 1));
    assert(first[i] == wal.records()[i]);
}

/// Everything in a clean log survives a crash once a sync of it succeeded and what
/// counts as durable was flushed.
pub proof fn synced_log_survives_a_crash<S: WalStore>(wal: Wal<S>, crashed: Seq<u8>)
    requires
        wal.wf(),
        wal.clean(),
        wal.backed(),
        wal.marks().durable == wal.end(),
        same_below(crashed, wal.image(), wal.backing().state().flushed),
    ensures
        ({
            let kept = intact_end(crashed, wal.start(), wal.limit());
            let recovered = entries(crashed, wal.start(), kept, wal.limit());
            &&& wal.records().len() <= recovered.len()
            &&& wal.records() == recovered.take(wal.records().len() as int)
        }),
{
    entries_are_back_to_back(wal.image(), wal.start(), wal.committed(), wal.limit());
    let kept = intact_end(crashed, wal.start(), wal.limit());
    let recovered = entries(crashed, wal.start(), kept, wal.limit());
    assert forall|i: int| 0 <= i < wal.records().len() implies i < recovered.len()
        && #[trigger] wal.records()[i] == recovered[i] by {
        record_splits_whole(wal.image(), wal.start(), wal.committed(), wal.limit(), i);
        flushed_records_survive_a_crash(wal, crashed, i);
    }
    if wal.records().len() > 0 {
        assert(wal.records()[wal.records().len() - 1] == recovered[wal.records().len() - 1]);
    }
    assert(wal.records() =~= recovered.take(wal.records().len() as int));
}

/// The bytes of a log are a function of its records alone: appending to a log that
/// holds the frames of `payloads` leaves one that holds the frames of `payloads`
/// and of the new record.
pub proof fn image_is_the_frames(payloads: Seq<Seq<u8>>, payload: Seq<u8>)
    ensures
        overwrite(log_of(payloads), log_of(payloads).len() as int, frame(payload)) == log_of(
            payloads.push(payload),
        ),
{
    let longer = payloads.push(payload);
    assert(longer.drop_last() =~= payloads);
    assert(overwrite(log_of(payloads), log_of(payloads).len() as int, frame(payload))
        =~= log_of(payloads) + frame(payload));
}

/// A log is its store and its marks: its bytes and its head are the store's, its readable
/// records those of the bytes from the head to the watermark. It is clean if those bytes
/// are nothing but intact records; it takes a record whose frame ends at an offset that
/// can be written down.
pub proof fn a_log_is_its_store_and_its_marks<S: WalStore>(wal: Wal<S>, len: nat)
    ensures
        wal.image() == wal.backing().state().image,
        wal.start() == wal.backing().state().start,
        wal.committed() == wal.marks().committed,
        wal.records() == entries(wal.image(), wal.start(), wal.committed(), wal.limit()),
        wal.clean() <==> whole(wal.image(), wal.start(), wal.committed(), wal.limit()),
        wal.backed() <==> wal.marks().durable <= wal.backing().state().flushed
            || wal.marks().durable <= wal.start(),
        wal.has_room(len) <==> wal.end() + 8 + len <= u64::MAX,
{
}

/// A log is in order if its store and its marks are, and every write up to its end
/// completed, or the first that failed begins where the readable records end.
pub proof fn a_log_is_in_order_up_to_its_first_failure<S: WalStore>(wal: Wal<S>)
    requires
        wal.backing().state().wf(),
        wal.marks().wf(),
        !wal.marks().syncing,
        wal.start() <= wal.committed(),
        wal.committed() <= wal.image().len() || wal.committed() == wal.start()
            && wal.marks().durable == wal.start(),
    ensures
        wal.marks().poison is None && wal.backing().state().settled && wal.committed() == wal.end()
            && wal.marks().pending == Map::<u64, u64>::empty() ==> wal.wf(),
        wal.marks().poison == Some(wal.marks().committed) && wal.committed() < wal.end() && (forall|
            s: u64,
        | #[trigger]
            wal.marks().pending.contains_key(s) ==> wal.marks().pending[s] <= wal.end())
            ==> wal.wf(),
{
}

/// An iterator still has to yield what iteration from its place to its end yields, or
/// nothing once it is over. What it reads is what the log holds, unless a failed write
/// left something behind the bytes of the store and the iterator gets there.
pub proof fn an_iterator_yields_what_is_ahead<S: WalStore>(iter: WalIter<'_, S>)
    ensures
        iter.is_done() ==> iter.remaining().len() == 0,
        !iter.is_done() ==> iter.remaining() == items(
            iter.log().image(),
            iter.at() as int,
            iter.upto() as int,
            iter.log().limit(),
            iter.log().policy(),
        ),
        iter.log().backing().state().settled ==> iter.faithful(),
        iter.is_done() || iter.at() >= iter.upto() ==> iter.faithful(),
        whole(iter.log().image(), iter.at() as int, iter.upto() as int, iter.log().limit())
            ==> iter.faithful(),
        iter.wf() <==> iter.log().backing().state().wf() && iter.log().start() <= iter.at(),
{
}

/// Records stand for their entries, one for one.
pub proof fn views_are_one_for_one(records: Seq<Record>, i: int)
    requires
        0 <= i < records.len(),
    ensures
        views(records).len() == records.len(),
        views(records)[i] == records[i]@,
{
}

/// There is no damage exactly if every item is an intact record; otherwise the first is
/// that of the first item that is not.
pub proof fn the_first_damage_comes_first(items: Seq<Item>, k: int)
    ensures
        first_damage(items) is None <==> forall|i: int|
            0 <= i < items.len() ==> #[trigger] items[i] is Record,
        0 <= k < items.len() && items[k] is Damage && (forall|i: int|
            0 <= i < k ==> #[trigger] items[i] is Record) ==> first_damage(items) == Some(
            (items[k]->offset, items[k]->fault),
        ),
    decreases items.len(),
{
    if items.len() > 0 {
        let rest = items.skip(1);
        the_first_damage_comes_first(rest, k - 1);
        assert forall|i: int| 0 <= i < rest.len() implies #[trigger] rest[i] == items[i + 1] by {}
        assert forall|i: int| 0 < i < items.len() implies #[trigger] items[i] == rest[i - 1] by {}
    }
}

} // verus!
