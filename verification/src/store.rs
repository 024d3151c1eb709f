//! Storage backends.
//!
//! A log frames records and hands out offsets; the bytes themselves live behind
//! the [`WalStore`] trait. [`MemStore`] keeps them in memory.

use crate::error::{is_own_io, WalError};
use vstd::prelude::*;

verus! {

/// `image` after `bytes` were written at `offset`: it grows if need be, and a gap
/// before `offset` is filled with zeros.
pub open spec fn overwrite(image: Seq<u8>, offset: int, bytes: Seq<u8>) -> Seq<u8> {
    let end = offset + bytes.len();
    let len = if end > image.len() {
        end
    } else {
        image.len() as int
    };
    Seq::new(
        len as nat,
        |i: int|
            if offset <= i < end {
                bytes[i - offset]
            } else if i < image.len() {
                image[i]
            } else {
                0u8
            },
    )
}

/// The smaller of two numbers.
pub open spec fn least(a: int, b: int) -> int {
    if a <= b {
        a
    } else {
        b
    }
}

/// `offset`, moved up to `low` or down to `high` if it lies outside of them.
pub open spec fn clamped(offset: int, low: int, high: int) -> int {
    if offset < low {
        low
    } else if offset > high {
        high
    } else {
        offset
    }
}

/// How many bytes a read of `want` bytes at `offset` finds in a store of `len`
/// bytes.
pub open spec fn readable(len: int, offset: int, want: int) -> int {
    if offset >= len {
        0
    } else {
        least(len - offset, want)
    }
}

/// Whether `image` holds `bytes` at `offset`.
pub open spec fn holds(image: Seq<u8>, offset: int, bytes: Seq<u8>) -> bool {
    &&& offset + bytes.len() <= image.len()
    &&& image.subrange(offset, offset + bytes.len()) == bytes
}

/// Whether `a` and `b` both reach up to `end` and hold the same bytes below it.
pub open spec fn same_below(a: Seq<u8>, b: Seq<u8>, end: int) -> bool {
    &&& end <= a.len()
    &&& end <= b.len()
    &&& forall|i: int| 0 <= i < end ==> a[i] == b[i]
}

/// A write leaves its bytes where they were written and every other byte alone; the
/// store reaches as far as the write does, and no further than it or the store did.
/// What lies between the old end and the write is zero.
pub proof fn a_write_changes_its_own_bytes(image: Seq<u8>, offset: int, bytes: Seq<u8>)
    requires
        0 <= offset,
    ensures
        overwrite(image, offset, bytes).len() >= image.len(),
        overwrite(image, offset, bytes).len() >= offset + bytes.len(),
        overwrite(image, offset, bytes).len() == image.len() || overwrite(
            image,
            offset,
            bytes,
        ).len() == offset + bytes.len(),
        overwrite(image, offset, bytes).subrange(offset, offset + bytes.len()) == bytes,
        forall|i: int|
            0 <= i < image.len() && !(offset <= i < offset + bytes.len()) ==> #[trigger] overwrite(
                image,
                offset,
                bytes,
            )[i] == image[i],
        forall|i: int|
            image.len() <= i < offset ==> #[trigger] overwrite(image, offset, bytes)[i] == 0,
{
    assert(overwrite(image, offset, bytes).subrange(offset, offset + bytes.len()) =~= bytes);
}

/// The smaller of two numbers is one of them and exceeds neither.
pub proof fn the_least_is_one_of_the_two(a: int, b: int)
    ensures
        least(a, b) <= a,
        least(a, b) <= b,
        least(a, b) == a || least(a, b) == b,
{
}

/// An offset that lies within the bounds stays, and one outside of them moves to the
/// nearer bound.
pub proof fn what_lies_within_is_not_moved(offset: int, low: int, high: int)
    requires
        low <= high,
    ensures
        low <= offset <= high ==> clamped(offset, low, high) == offset,
        offset <= low ==> clamped(offset, low, high) == low,
        offset >= high ==> clamped(offset, low, high) == high,
{
}

/// A read gives all it asks for, or all there is: it is short only where the store ends.
pub proof fn a_read_is_short_only_at_the_end(len: int, offset: int, want: int)
    requires
        0 <= len,
        0 <= offset,
        0 <= want,
    ensures
        0 <= readable(len, offset, want) <= want,
        offset <= len ==> offset + readable(len, offset, want) <= len,
        offset >= len ==> readable(len, offset, want) == 0,
        readable(len, offset, want) < want ==> offset + readable(len, offset, want) >= len,
{
}

/// A store holds bytes at an offset if it holds each of them in its place.
pub proof fn bytes_are_held_one_by_one(image: Seq<u8>, offset: int, bytes: Seq<u8>)
    requires
        0 <= offset,
    ensures
        holds(image, offset, bytes) <==> offset + bytes.len() <= image.len() && forall|i: int|
            0 <= i < bytes.len() ==> image[offset + i] == #[trigger] bytes[i],
{
    if offset + bytes.len() <= image.len() {
        let part = image.subrange(offset, offset + bytes.len());
        if holds(image, offset, bytes) {
            assert forall|i: int| 0 <= i < bytes.len() implies image[offset + i]
                == #[trigger] bytes[i] by {
                assert(part[i] == bytes[i]);
            }
        } else if forall|i: int| 0 <= i < bytes.len() ==> image[offset + i] == #[trigger] bytes[i] {
            assert(part =~= bytes);
        }
    }
}

/// Stores are the same below an offset if they begin with the same bytes up to it.
pub proof fn same_below_is_a_common_prefix(a: Seq<u8>, b: Seq<u8>, end: int)
    requires
        0 <= end,
    ensures
        same_below(a, b, end) <==> end <= a.len() && end <= b.len() && a.take(end) == b.take(end),
{
    if end <= a.len() && end <= b.len() {
        if same_below(a, b, end) {
            assert(a.take(end) =~= b.take(end));
        } else if a.take(end) == b.take(end) {
            assert forall|i: int| 0 <= i < end implies a[i] == b[i] by {
                assert(a.take(end)[i] == b.take(end)[i]);
            }
        }
    }
}

/// What a store holds.
#[verifier::ext_equal]
pub struct StoreState {
    /// The bytes of the store. Those below `start` are gone and can hold anything.
    pub image: Seq<u8>,
    /// The lowest offset still present.
    pub start: int,
    /// The offset below which every byte was covered by a flush that succeeded.
    pub flushed: int,
    /// How often the store was flushed to stable storage.
    pub flushes: nat,
    /// Whether the store ends exactly where its bytes end. A write or truncation
    /// that failed halfway can leave stray bytes behind the others, of which
    /// nothing is known.
    pub settled: bool,
    /// Whether what the store keeps for itself is in order.
    pub usable: bool,
}

impl StoreState {
    /// The store is in order, and what was flushed lies within its bytes. A store that
    /// was truncated below its head ends before the head.
    pub open spec fn wf(self) -> bool {
        &&& self.usable
        &&& 0 <= self.start
        &&& 0 <= self.flushed <= self.image.len()
    }
}

/// A byte-addressable store with an explicit durability barrier.
///
/// The log treats a store as a growing array of bytes. It writes framed records
/// at offsets that it hands out, reads from arbitrary offsets during recovery,
/// and occasionally truncates a torn tail. That written bytes have reached stable
/// storage is delegated to [`sync`](WalStore::sync).
pub trait WalStore: Sized {
    /// What the store holds. A store outside of verified code leaves this as it is,
    /// and keeps the contracts in words.
    open spec fn state(&self) -> StoreState {
        StoreState {
            image: Seq::empty(),
            start: 0,
            flushed: 0,
            flushes: 0,
            settled: true,
            usable: true,
        }
    }

    /// Whether operations on a store of this type never fail, as long as what
    /// they write ends at or below [`room`](WalStore::room).
    open spec fn reliable() -> bool {
        false
    }

    /// The largest size up to which a reliable store takes writes.
    open spec fn room() -> int {
        0
    }

    /// Whether a store of this type can give up its front.
    open spec fn drops() -> bool {
        false
    }

    /// Whether `error` is one that reading a store of this type, or its size, gives.
    open spec fn read_error(error: WalError) -> bool {
        true
    }

    /// Whether `error` is one that changing a store of this type gives.
    open spec fn write_error(error: WalError) -> bool {
        true
    }

    /// Whether `error` is one that flushing a store of this type gives.
    open spec fn flush_error(error: WalError) -> bool {
        true
    }

    /// Append `bytes` to the end of the store.
    fn append(&mut self, bytes: &[u8]) -> (result: Result<(), WalError>)
        requires
            old(self).state().wf(),
        ensures
            final(self).state().wf(),
            final(self).state().start == old(self).state().start,
            final(self).state().flushes == old(self).state().flushes,
            result matches Err(error) ==> Self::write_error(error),
            final(self).state().flushed >= old(self).state().flushed,
            same_below(
                final(self).state().image,
                old(self).state().image,
                old(self).state().image.len() as int,
            ),
            result is Ok && old(self).state().settled ==> {
                &&& final(self).state().settled
                &&& final(self).state().image == old(self).state().image + bytes@
            },
            result is Ok ==> exists|at: int|
                old(self).state().image.len() <= at && #[trigger] holds(
                    final(self).state().image,
                    at,
                    bytes@,
                ),
            Self::reliable() && old(self).state().image.len() + bytes@.len() <= Self::room()
                ==> result is Ok,
    ;

    /// Write `bytes` at `offset`, growing the store and filling a gap with zeros
    /// if `offset` is past the current end. Whether it succeeds or fails, the
    /// bytes below `offset` are left alone.
    fn write_at(&mut self, offset: u64, bytes: &[u8]) -> (result: Result<(), WalError>)
        requires
            old(self).state().wf(),
        ensures
            final(self).state().wf(),
            final(self).state().start == old(self).state().start,
            final(self).state().flushes == old(self).state().flushes,
            result matches Err(error) ==> Self::write_error(error),
            final(self).state().flushed >= least(old(self).state().flushed, offset as int),
            same_below(
                final(self).state().image,
                old(self).state().image,
                least(offset as int, old(self).state().image.len() as int),
            ),
            result is Ok && old(self).state().settled ==> {
                &&& final(self).state().settled
                &&& final(self).state().image == overwrite(old(self).state().image, offset as int, bytes@)
            },
            result is Ok ==> holds(final(self).state().image, offset as int, bytes@),
            Self::reliable() && offset + bytes@.len() <= Self::room() ==> result is Ok,
    ;

    /// Read into `buf` starting at byte `offset`, returning the number of bytes
    /// read. Fewer than `buf.len()` means the store ended first. No byte lies at the
    /// largest offset or past it.
    fn read_at(&self, offset: u64, buf: &mut [u8]) -> (result: Result<usize, WalError>)
        requires
            self.state().wf(),
        ensures
            result matches Err(error) ==> Self::read_error(error),
            final(buf)@.len() == old(buf)@.len(),
            result matches Ok(n) ==> n > 0 ==> offset + n <= u64::MAX,
            result matches Ok(n) ==> offset >= self.state().start ==> {
                let known = readable(
                    self.state().image.len() as int,
                    offset as int,
                    old(buf)@.len() as int,
                );
                &&& known <= n <= old(buf)@.len()
                &&& self.state().settled ==> n == known
                &&& forall|i: int|
                    0 <= i < known ==> #[trigger] final(buf)@[i] == self.state().image[offset + i]
            },
            Self::reliable() ==> result is Ok,
    ;

    /// Discard every byte at or after `len`. The head stays where it is.
    fn truncate(&mut self, len: u64) -> (result: Result<(), WalError>)
        requires
            old(self).state().wf(),
        ensures
            final(self).state().wf(),
            final(self).state().start == old(self).state().start,
            final(self).state().flushes == old(self).state().flushes,
            result matches Err(error) ==> Self::write_error(error),
            final(self).state().flushed >= least(old(self).state().flushed, len as int),
            same_below(
                final(self).state().image,
                old(self).state().image,
                least(len as int, old(self).state().image.len() as int),
            ),
            result is Ok && len <= old(self).state().image.len() ==> {
                &&& final(self).state().settled
                &&& final(self).state().image == old(self).state().image.take(len as int)
            },
            Self::reliable() ==> result is Ok,
    ;

    /// Flush every preceding write to stable storage. Returns only once the data
    /// will survive a power loss.
    fn sync(&mut self) -> (result: Result<(), WalError>)
        requires
            old(self).state().wf(),
        ensures
            final(self).state().wf(),
            final(self).state().image == old(self).state().image,
            final(self).state().start == old(self).state().start,
            final(self).state().settled == old(self).state().settled,
            final(self).state().flushed >= old(self).state().flushed,
            old(self).state().flushes <= final(self).state().flushes <= old(self).state().flushes
                + 1,
            result matches Err(error) ==> Self::flush_error(error),
            result is Ok ==> final(self).state().flushed == old(self).state().image.len(),
            Self::reliable() ==> result is Ok,
    ;

    /// The current size of the store in bytes.
    fn len(&self) -> (result: Result<u64, WalError>)
        requires
            self.state().wf(),
        ensures
            result matches Err(error) ==> Self::read_error(error),
            result matches Ok(n) ==> self.state().settled ==> n == self.state().image.len(),
            Self::reliable() ==> result is Ok,
    ;

    /// Whether the store holds no bytes.
    fn is_empty(&self) -> (result: Result<bool, WalError>)
        requires
            self.state().wf(),
        ensures
            result matches Err(error) ==> Self::read_error(error),
            result matches Ok(empty) ==> self.state().settled ==> empty == (self.state().image.len() == 0),
            Self::reliable() ==> result is Ok,
    {
        match self.len() {
            Ok(n) => Ok(n == 0),
            Err(error) => Err(error),
        }
    }

    /// The lowest offset still present. Recovery scans from here.
    fn head(&self) -> (result: Result<u64, WalError>)
        requires
            self.state().wf(),
        ensures
            result matches Err(error) ==> Self::read_error(error),
            result matches Ok(head) ==> head == self.state().start,
            Self::reliable() ==> result is Ok,
    ;

    /// Give up the bytes below `offset`, if the store can, and return the new head.
    /// The bytes from `offset` on are kept. A store on which this failed has to be
    /// opened again.
    fn truncate_before(&mut self, offset: u64) -> (result: Result<u64, WalError>)
        requires
            old(self).state().wf(),
            old(self).state().start <= old(self).state().image.len(),
        ensures
            result matches Err(error) ==> Self::write_error(error),
            result matches Ok(head) ==> {
                let low = clamped(
                    offset as int,
                    old(self).state().start,
                    old(self).state().image.len() as int,
                );
                &&& final(self).state().wf()
                &&& final(self).state().settled == old(self).state().settled
                &&& final(self).state().flushed >= old(self).state().flushed
                &&& final(self).state().image.len() == old(self).state().image.len()
                &&& forall|i: int|
                    final(self).state().start <= i < old(self).state().image.len()
                        ==> #[trigger] final(self).state().image[i] == old(self).state().image[i]
                &&& final(self).state().start == low || !Self::drops() && final(self).state().start
                    == old(self).state().start
                &&& head == final(self).state().start
            },
            Self::reliable() ==> result is Ok,
    ;
}

/// An in-memory store backed by a `Vec<u8>`.
///
/// `sync` has nothing to do, as memory has no separate durable tier, so a
/// `MemStore` is for tests, examples, and measuring the framing path alone.
#[derive(Debug)]
pub struct MemStore {
    data: Vec<u8>,
}

/// The largest size of an in-memory store: no allocation can be larger.
pub const MEM_LIMIT: usize = isize::MAX as usize;

impl MemStore {
    /// The bytes of the store.
    pub closed spec fn bytes(&self) -> Seq<u8> {
        self.data@
    }

    /// Create an empty in-memory store.
    #[must_use]
    pub fn new() -> (store: Self)
        ensures
            store.bytes() == Seq::<u8>::empty(),
    {
        MemStore { data: Vec::new() }
    }

    /// Create an empty store that has room for `capacity` bytes, to avoid
    /// reallocations during a workload of known size.
    #[must_use]
    pub fn with_capacity(capacity: usize) -> (store: Self)
        requires
            capacity <= isize::MAX,
        ensures
            store.bytes() == Seq::<u8>::empty(),
    {
        MemStore { data: Vec::with_capacity(capacity) }
    }

    /// Create a store that holds an existing log image.
    #[must_use]
    pub fn from_bytes(bytes: Vec<u8>) -> (store: Self)
        ensures
            store.bytes() == bytes@,
    {
        MemStore { data: bytes }
    }

    /// A copy of the bytes.
    #[must_use]
    pub fn snapshot(&self) -> (bytes: Vec<u8>)
        ensures
            bytes@ == self.bytes(),
    {
        let bytes = self.data.clone();
        assert(bytes@ =~= self.data@);
        bytes
    }
}

impl Default for MemStore {
    fn default() -> (store: Self)
        ensures
            store.bytes() == Seq::<u8>::empty(),
    {
        Self::new()
    }
}

impl Clone for MemStore {
    fn clone(&self) -> (copy: Self)
        ensures
            copy.bytes() == self.bytes(),
    {
        MemStore { data: self.snapshot() }
    }
}

impl WalStore for MemStore {
    open spec fn state(&self) -> StoreState {
        StoreState {
            image: self.bytes(),
            start: 0,
            flushed: self.bytes().len() as int,
            flushes: 0,
            settled: true,
            usable: true,
        }
    }

    open spec fn reliable() -> bool {
        true
    }

    open spec fn room() -> int {
        isize::MAX as int
    }

    open spec fn drops() -> bool {
        false
    }

    open spec fn read_error(error: WalError) -> bool {
        false
    }

    open spec fn write_error(error: WalError) -> bool {
        is_own_io(error, "appending a record", "the store is full") || is_own_io(
            error,
            "writing a record",
            "the store is full",
        )
    }

    open spec fn flush_error(error: WalError) -> bool {
        false
    }

    fn append(&mut self, bytes: &[u8]) -> (result: Result<(), WalError>)
        ensures
            result is Ok <==> old(self).bytes().len() + bytes@.len() <= isize::MAX,
            result is Err ==> final(self).bytes() == old(self).bytes(),
            result matches Err(error) ==> is_own_io(
                error,
                "appending a record",
                "the store is full",
            ),
    {
        if self.data.len() > MEM_LIMIT || bytes.len() > MEM_LIMIT - self.data.len() {
            return Err(WalError::other("appending a record", "the store is full"));
        }
        self.data.extend_from_slice(bytes);
        assert(self.data@ =~= old(self).data@ + bytes@);
        proof {
            let at = old(self).data@.len() as int;
            assert(self.data@.subrange(at, at + bytes@.len()) =~= bytes@);
            assert(holds(self.state().image, at, bytes@));
        }
        Ok(())
    }

    fn write_at(&mut self, offset: u64, bytes: &[u8]) -> (result: Result<(), WalError>)
        ensures
            result is Ok <==> offset + bytes@.len() <= isize::MAX,
            result is Err ==> final(self).bytes() == old(self).bytes(),
            result matches Err(error) ==> is_own_io(
                error,
                "writing a record",
                "the store is full",
            ),
    {
        if offset > MEM_LIMIT as u64 || bytes.len() > MEM_LIMIT - offset as usize {
            return Err(WalError::other("writing a record", "the store is full"));
        }
        let start: usize = offset as usize;
        let end: usize = start + bytes.len();
        if self.data.len() < end {
            self.data.resize(end, 0u8);
            proof {
                let before = old(self).data@;
                assert forall|i: int| 0 <= i < before.len() implies self.data@[i] == before[i] by {
                    assert(self.data@.subrange(0, before.len() as int)[i] == before[i]);
                }
                assert forall|i: int| before.len() <= i < end implies self.data@[i] == 0 by {
                    assert(cloned::<u8>(0u8, self.data@[i]));
                }
            }
        }
        let ghost grown = self.data@;
        let mut i: usize = 0;
        while i < bytes.len()
            invariant
                i <= bytes@.len(),
                end == start + bytes@.len(),
                end <= grown.len(),
                self.data@.len() == grown.len(),
                forall|j: int| start <= j < start + i ==> self.data@[j] == bytes@[j - start],
                forall|j: int|
                    0 <= j < grown.len() && !(start <= j < start + i) ==> self.data@[j] == grown[j],
            decreases bytes@.len() - i,
        {
            self.data[start + i] = bytes[i];
            i += 1;
        }
        proof {
            let before = old(self).data@;
            let written = overwrite(before, offset as int, bytes@);
            assert(grown.len() == written.len());
            assert(forall|j: int| 0 <= j < before.len() ==> grown[j] == before[j]);
            assert(forall|j: int| before.len() <= j < grown.len() ==> grown[j] == 0);
            assert(start == offset);
            assert forall|j: int| 0 <= j < written.len() implies self.data@[j] == written[j] by {
                if start <= j < end {
                    assert(self.data@[j] == bytes@[j - start]);
                } else {
                    assert(self.data@[j] == grown[j]);
                }
            }
            assert(self.data@ =~= written);
            assert(written.subrange(offset as int, offset + bytes@.len()) =~= bytes@);
        }
        Ok(())
    }

    fn read_at(&self, offset: u64, buf: &mut [u8]) -> (result: Result<usize, WalError>)
        ensures
            result is Ok,
            forall|i: int|
                readable(self.bytes().len() as int, offset as int, old(buf)@.len() as int) <= i
                    < old(buf)@.len() ==> final(buf)@[i] == old(buf)@[i],
    {
        if offset >= self.data.len() as u64 {
            return Ok(0);
        }
        let start: usize = offset as usize;
        let available: usize = self.data.len() - start;
        let n: usize = if available < buf.len() {
            available
        } else {
            buf.len()
        };
        let mut i: usize = 0;
        while i < n
            invariant
                i <= n,
                n <= buf@.len(),
                buf@.len() == old(buf)@.len(),
                start + n <= self.data.len(),
                forall|j: int| 0 <= j < i ==> buf@[j] == self.data@[start + j],
                forall|j: int| i <= j < buf@.len() ==> buf@[j] == old(buf)@[j],
            decreases n - i,
        {
            buf[i] = self.data[start + i];
            i += 1;
        }
        Ok(n)
    }

    fn truncate(&mut self, len: u64) -> (result: Result<(), WalError>)
        ensures
            result is Ok,
            final(self).bytes() == old(self).bytes().take(
                least(len as int, old(self).bytes().len() as int),
            ),
    {
        if len < self.data.len() as u64 {
            self.data.truncate(len as usize);
        }
        assert(self.data@ =~= old(self).data@.take(
            least(len as int, old(self).data@.len() as int),
        ));
        Ok(())
    }

    fn sync(&mut self) -> (result: Result<(), WalError>)
        ensures
            *final(self) == *old(self),
    {
        Ok(())
    }

    fn len(&self) -> (result: Result<u64, WalError>)
        ensures
            result is Ok,
    {
        Ok(self.data.len() as u64)
    }

    fn head(&self) -> (result: Result<u64, WalError>) {
        Ok(0)
    }

    fn truncate_before(&mut self, offset: u64) -> (result: Result<u64, WalError>)
        ensures
            result == Ok::<u64, WalError>(0),
            *final(self) == *old(self),
    {
        let _ = offset;
        Ok(0)
    }
}

/// A store is in order if what it keeps for itself is, and no more counts as flushed than
/// it holds.
pub proof fn a_store_is_in_order_if_its_offsets_are(state: StoreState)
    ensures
        state.wf() <==> state.usable && 0 <= state.start && 0 <= state.flushed
            && state.flushed <= state.image.len(),
{
}

/// An in-memory store is always in order. It holds its bytes from the first on, all of
/// them as durable as they get, up to what an allocation can hold, and neither reading
/// nor flushing it fails.
pub proof fn memory_holds_its_bytes(store: MemStore, error: WalError)
    ensures
        store.state().wf(),
        store.state().image == store.bytes(),
        store.state().start == 0,
        store.state().flushed == store.bytes().len(),
        store.state().settled,
        MemStore::reliable(),
        MemStore::room() == isize::MAX,
        !MemStore::drops(),
        !MemStore::read_error(error),
        !MemStore::flush_error(error),
{
}

/// Writes to disjoint ranges can happen in either order.
pub proof fn disjoint_writes_commute(image: Seq<u8>, a: int, x: Seq<u8>, b: int, y: Seq<u8>)
    requires
        0 <= a,
        0 <= b,
        a + x.len() <= b || b + y.len() <= a,
    ensures
        overwrite(overwrite(image, a, x), b, y) == overwrite(overwrite(image, b, y), a, x),
{
    assert(overwrite(overwrite(image, a, x), b, y) =~= overwrite(overwrite(image, b, y), a, x));
}

} // verus!
