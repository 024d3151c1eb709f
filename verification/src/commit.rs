//! Group-commit coordination.
//!
//! Writers reserve disjoint byte ranges and finish in any order. That leaves two
//! jobs to this module:
//!
//! 1. **The contiguous-written watermark.** A record can only be recovered once
//!    every byte before it is written, because recovery stops at the first gap. So
//!    durability is defined against the highest offset below which there are no
//!    gaps, not against the end of the reservations.
//!
//! 2. **Group commit.** When several threads sync at once, only one of them issues
//!    the flush; the rest wait for it and return.
//!
//! A [`Commit`] is the state behind both, as a machine that is stepped under a
//! lock: [`poll`](Commit::poll) says what a syncing thread has to do next.

use crate::error::WalError;
use crate::lsn::Lsn;
use crate::store::WalStore;
use std::collections::BTreeMap;
use vstd::prelude::*;

verus! {

/// Why a sync is refused once a write below its target failed.
pub const TRUNCATED: &'static str = "a record write failed; the log is truncated at this offset";

/// The state of a [`Commit`].
#[verifier::ext_equal]
pub struct Watermarks {
    /// The offset below which every byte is written.
    pub committed: u64,
    /// The offset below which every byte is on stable storage.
    pub durable: u64,
    /// Completed writes that do not touch `committed` yet, from start to end.
    pub pending: Map<u64, u64>,
    /// Whether a thread is flushing.
    pub syncing: bool,
    /// How many threads wait to be woken.
    pub waiters: usize,
    /// Where the lowest failed write begins.
    pub poison: Option<u64>,
}

/// What a thread that syncs has to do next.
#[derive(Debug, Clone, Copy, PartialEq, Eq, Structural)]
pub enum SyncStep {
    /// Give up: a write below the target failed, at this offset.
    Refused { poison: u64 },
    /// Return: the target is on stable storage.
    Durable,
    /// Flush the store, as the only thread that does, and report the outcome.
    /// Everything below `flush_to` is covered.
    Lead { flush_to: u64 },
    /// Wait to be woken, then ask again.
    Wait,
}

/// Follow pending regions from `at` on for as long as the next one begins where
/// the last one ended: where that leads, and the regions that are left.
pub open spec fn drained(pending: Map<u64, u64>, at: u64) -> (u64, Map<u64, u64>)
    decreases pending.dom().len(),
    when pending.dom().finite()
{
    if pending.contains_key(at) {
        drained(pending.remove(at), pending[at])
    } else {
        (at, pending)
    }
}

/// Whether some pending region holds the byte at `p`.
pub open spec fn in_region(pending: Map<u64, u64>, p: int) -> bool {
    exists|s: u64| #[trigger] pending.contains_key(s) && s <= p < pending[s]
}

/// Whether pending regions hold at least a byte each and no byte twice.
pub open spec fn apart(pending: Map<u64, u64>) -> bool {
    &&& forall|s: u64| #[trigger] pending.contains_key(s) ==> s < pending[s]
    &&& forall|s: u64, t: u64| #[trigger]
        pending.contains_key(s) && #[trigger] pending.contains_key(t) && s < t ==> pending[s] <= t
}

impl Watermarks {
    /// Everything below `recovered` written and durable, nothing else known.
    pub open spec fn fresh(recovered: u64) -> Self {
        Watermarks {
            committed: recovered,
            durable: recovered,
            pending: Map::empty(),
            syncing: false,
            waiters: 0,
            poison: None,
        }
    }

    /// Whether the byte at `p` is known to be written.
    pub open spec fn covers(self, p: int) -> bool {
        p < self.committed || in_region(self.pending, p)
    }

    /// Durable bytes are written, and the pending regions lie apart from each
    /// other and behind a gap.
    pub open spec fn wf(self) -> bool {
        &&& self.durable <= self.committed
        &&& self.pending.dom().finite()
        &&& apart(self.pending)
        &&& forall|s: u64| #[trigger] self.pending.contains_key(s) ==> self.committed < s
    }

    /// Whether `[start, end)` is a region of which no byte is written yet.
    pub open spec fn is_free(self, start: u64, end: u64) -> bool {
        start < end && forall|p: int| start <= p < end ==> !#[trigger] self.covers(p)
    }

    /// After the write of `[start, end)` completed.
    pub open spec fn with_region(self, start: u64, end: u64) -> Self {
        if start == self.committed {
            let (committed, pending) = drained(self.pending, end);
            Watermarks { committed, pending, ..self }
        } else {
            Watermarks { pending: self.pending.insert(start, end), ..self }
        }
    }

    /// After the write reserved at `start` failed.
    pub open spec fn failed_at(self, start: u64) -> Self {
        let poison = match self.poison {
            Some(p) => if p <= start {
                p
            } else {
                start
            },
            None => start,
        };
        Watermarks { poison: Some(poison), ..self }
    }

    /// What a thread that syncs up to `target` has to do.
    pub open spec fn step(self, target: u64) -> SyncStep {
        if self.poison matches Some(p) && target > p {
            SyncStep::Refused { poison: self.poison->0 }
        } else if self.durable >= target {
            SyncStep::Durable
        } else if self.committed >= target && !self.syncing {
            SyncStep::Lead { flush_to: self.committed }
        } else {
            SyncStep::Wait
        }
    }

    /// After a thread that syncs up to `target` asked: a leader is now flushing.
    pub open spec fn polled(self, target: u64) -> Self {
        if self.step(target) is Lead {
            Watermarks { syncing: true, ..self }
        } else {
            self
        }
    }

    /// After everything from `end` on was given up: the failure of a write there
    /// does not matter any more.
    pub open spec fn rewound(self, end: u64) -> Self {
        Watermarks {
            committed: end,
            durable: if self.durable < end {
                self.durable
            } else {
                end
            },
            pending: Map::empty(),
            poison: None,
            ..self
        }
    }

    /// After the leader reported the outcome of its flush.
    pub open spec fn finished(self, flush_to: u64, flushed: bool) -> Self {
        Watermarks {
            syncing: false,
            durable: if flushed && self.durable < flush_to {
                flush_to
            } else {
                self.durable
            },
            ..self
        }
    }
}

/// Following apart regions from `at` on reaches the first byte that none of them
/// holds, and leaves exactly the regions behind it.
proof fn drained_reaches_the_gap(pending: Map<u64, u64>, at: u64)
    requires
        pending.dom().finite(),
        apart(pending),
        forall|s: u64| #[trigger] pending.contains_key(s) ==> at <= s,
    ensures
        ({
            let (end, rest) = drained(pending, at);
            &&& at <= end
            &&& rest.dom().finite()
            &&& apart(rest)
            &&& forall|s: u64| #[trigger] rest.contains_key(s) ==> end < s
            &&& forall|s: u64|
                #![trigger rest.contains_key(s)]
                rest.contains_key(s) <==> pending.contains_key(s) && end <= s
            &&& forall|s: u64| #[trigger] rest.contains_key(s) ==> rest[s] == pending[s]
            &&& forall|s: u64| #[trigger]
                pending.contains_key(s) && s < end ==> pending[s] <= end
            &&& forall|p: int| at <= p < end ==> in_region(pending, p)
        }),
    decreases pending.dom().len(),
{
    if pending.contains_key(at) {
        let less = pending.remove(at);
        let next = pending[at];
        assert forall|s: u64| #[trigger] less.contains_key(s) implies next <= s by {
            assert(pending.contains_key(s));
        }
        assert(apart(less)) by {
            assert forall|s: u64| #[trigger] less.contains_key(s) implies s < less[s] by {
                assert(pending.contains_key(s));
            }
            assert forall|s: u64, t: u64| #[trigger]
                less.contains_key(s) && #[trigger] less.contains_key(t) && s < t implies less[s]
                <= t by {
                assert(pending.contains_key(s) && pending.contains_key(t));
            }
        }
        drained_reaches_the_gap(less, next);
        let (end, rest) = drained(pending, at);
        assert forall|s: u64| #[trigger] rest.contains_key(s) implies rest[s] == pending[s] by {
            assert(less.contains_key(s));
        }
        assert forall|s: u64| #[trigger] pending.contains_key(s) && s < end implies pending[s]
            <= end by {
            if s != at {
                assert(less.contains_key(s));
            }
        }
        assert forall|p: int| at <= p < end implies in_region(pending, p) by {
            if p >= next {
                assert(in_region(less, p));
                let s = choose|s: u64| #[trigger] less.contains_key(s) && s <= p < less[s];
                assert(pending.contains_key(s));
            }
        }
    }
}

/// The watermark is the first unwritten offset: every byte below it is written,
/// and the byte at it is not.
pub proof fn committed_is_the_first_gap(w: Watermarks)
    requires
        w.wf(),
    ensures
        forall|p: int| p < w.committed ==> #[trigger] w.covers(p),
        !w.covers(w.committed as int),
{
}

/// Completing a region adds its bytes to the written ones and no others, and the
/// pending regions that are left are those behind the new watermark.
pub proof fn region_is_added(w: Watermarks, start: u64, end: u64)
    requires
        w.wf(),
        w.is_free(start, end),
    ensures
        ({
            let v = w.with_region(start, end);
            &&& v.wf()
            &&& w.committed <= v.committed
            &&& forall|p: int| #[trigger] v.covers(p) <==> w.covers(p) || start <= p < end
            &&& forall|s: u64|
                #![trigger v.pending.contains_key(s)]
                v.pending.contains_key(s) <==> w.pending.insert(start, end).contains_key(s)
                    && v.committed <= s
            &&& forall|s: u64| #[trigger]
                v.pending.contains_key(s) ==> v.pending[s] == w.pending.insert(start, end)[s]
        }),
{
    let v = w.with_region(start, end);
    assert(!w.covers(start as int));
    assert forall|s: u64| #[trigger] w.pending.contains_key(s) && s < start implies w.pending[s]
        <= start by {
        if w.pending[s] > start {
            assert(in_region(w.pending, start as int));
        }
    }
    assert forall|s: u64| #[trigger] w.pending.contains_key(s) && start <= s implies end <= s by {
        if s < end {
            assert(!w.covers(s as int));
            assert(in_region(w.pending, s as int));
        }
    }
    assert(!w.pending.contains_key(start)) by {
        if w.pending.contains_key(start) {
            assert(in_region(w.pending, start as int));
        }
    }
    if start == w.committed {
        drained_reaches_the_gap(w.pending, end);
        assert forall|p: int| #[trigger] v.covers(p) implies w.covers(p) || start <= p < end by {
            if p < v.committed {
                if p >= end {
                    assert(in_region(w.pending, p));
                }
            } else {
                let s = choose|s: u64| #[trigger] v.pending.contains_key(s) && s <= p
                    < v.pending[s];
                assert(w.pending.contains_key(s));
            }
        }
        assert forall|p: int| w.covers(p) || start <= p < end implies #[trigger] v.covers(p) by {
            if p >= v.committed {
                assert(in_region(w.pending, p));
                let s = choose|s: u64| #[trigger] w.pending.contains_key(s) && s <= p
                    < w.pending[s];
                assert(s >= v.committed);
                assert(v.pending.contains_key(s));
            }
        }
    } else {
        let more = w.pending.insert(start, end);
        assert(start > w.committed);
        assert forall|s: u64, t: u64| #[trigger]
            more.contains_key(s) && #[trigger] more.contains_key(t) && s < t implies more[s] <= t by {
            if s != start {
                assert(w.pending.contains_key(s));
            }
            if t != start {
                assert(w.pending.contains_key(t));
            }
        }
        assert forall|p: int| #[trigger] v.covers(p) implies w.covers(p) || start <= p < end by {
            if p >= v.committed {
                let s = choose|s: u64| #[trigger] more.contains_key(s) && s <= p < more[s];
                if s != start {
                    assert(w.pending.contains_key(s));
                }
            }
        }
        assert forall|p: int| w.covers(p) || start <= p < end implies #[trigger] v.covers(p) by {
            if start <= p < end {
                assert(more.contains_key(start));
            } else if p >= w.committed {
                let s = choose|s: u64| #[trigger] w.pending.contains_key(s) && s <= p
                    < w.pending[s];
                assert(more.contains_key(s));
            }
        }
    }
}

/// The order in which two writes complete does not matter.
pub proof fn completion_order_does_not_matter(w: Watermarks, a: (u64, u64), b: (u64, u64))
    requires
        w.wf(),
        w.is_free(a.0, a.1),
        w.is_free(b.0, b.1),
        a.1 <= b.0 || b.1 <= a.0,
    ensures
        w.with_region(a.0, a.1).with_region(b.0, b.1) == w.with_region(b.0, b.1).with_region(
            a.0,
            a.1,
        ),
{
    let after_a = w.with_region(a.0, a.1);
    let after_b = w.with_region(b.0, b.1);
    region_is_added(w, a.0, a.1);
    region_is_added(w, b.0, b.1);
    assert(after_a.is_free(b.0, b.1)) by {
        assert forall|p: int| b.0 <= p < b.1 implies !#[trigger] after_a.covers(p) by {
            assert(!w.covers(p));
        }
    }
    assert(after_b.is_free(a.0, a.1)) by {
        assert forall|p: int| a.0 <= p < a.1 implies !#[trigger] after_b.covers(p) by {
            assert(!w.covers(p));
        }
    }
    region_is_added(after_a, b.0, b.1);
    region_is_added(after_b, a.0, a.1);
    let ab = after_a.with_region(b.0, b.1);
    let ba = after_b.with_region(a.0, a.1);
    assert forall|p: int| #[trigger] ab.covers(p) <==> ba.covers(p) by {
        assert(after_a.covers(p) <==> w.covers(p) || a.0 <= p < a.1);
        assert(after_b.covers(p) <==> w.covers(p) || b.0 <= p < b.1);
    }
    committed_is_the_first_gap(ab);
    committed_is_the_first_gap(ba);
    assert(ab.committed == ba.committed) by {
        if ab.committed < ba.committed {
            assert(ba.covers(ab.committed as int));
            assert(!ab.covers(ab.committed as int));
        }
        if ba.committed < ab.committed {
            assert(ab.covers(ba.committed as int));
            assert(!ba.covers(ba.committed as int));
        }
    }
    let both = w.pending.insert(a.0, a.1).insert(b.0, b.1);
    assert forall|s: u64| #[trigger] ab.pending.contains_key(s) <==> ba.pending.contains_key(s) by {
        assert(ab.pending.contains_key(s) <==> after_a.pending.insert(b.0, b.1).contains_key(s)
            && ab.committed <= s);
        assert(ba.pending.contains_key(s) <==> after_b.pending.insert(a.0, a.1).contains_key(s)
            && ba.committed <= s);
        assert(after_a.pending.contains_key(s) <==> w.pending.insert(a.0, a.1).contains_key(s)
            && after_a.committed <= s);
        assert(after_b.pending.contains_key(s) <==> w.pending.insert(b.0, b.1).contains_key(s)
            && after_b.committed <= s);
    }
    assert forall|s: u64| #[trigger] ab.pending.contains_key(s) implies ab.pending[s]
        == ba.pending[s] by {
        assert(ba.pending.contains_key(s));
        assert(after_a.pending.contains_key(s) ==> after_a.pending[s] == w.pending.insert(
            a.0,
            a.1,
        )[s]);
        assert(after_b.pending.contains_key(s) ==> after_b.pending[s] == w.pending.insert(
            b.0,
            b.1,
        )[s]);
    }
    assert(ab.pending =~= ba.pending);
}

/// Once every byte below `tail` is written and none at or behind it, the watermark
/// stands at `tail`: no completed record is left behind.
pub proof fn all_writes_are_committed(w: Watermarks, tail: u64)
    requires
        w.wf(),
        forall|p: int| 0 <= p < tail ==> w.covers(p),
        forall|p: int| tail <= p ==> !#[trigger] w.covers(p),
    ensures
        w.committed == tail,
        w.pending == Map::<u64, u64>::empty(),
{
    committed_is_the_first_gap(w);
    if w.committed > tail {
        assert(w.covers(tail as int));
    }
    assert forall|s: u64| !#[trigger] w.pending.contains_key(s) by {
        if w.pending.contains_key(s) {
            assert(in_region(w.pending, s as int));
            assert(w.covers(s as int));
        }
    }
    assert(w.pending =~= Map::empty());
}

/// At most one thread flushes at a time: once one leads, no other is told to.
pub proof fn one_leader_at_a_time(w: Watermarks, leader: u64, other: u64)
    requires
        w.step(leader) is Lead,
    ensures
        !(w.polled(leader).step(other) is Lead),
{
}

/// One flush serves everyone: when the leader's flush succeeded, every thread whose
/// target lay below what was written when it began finds its target durable,
/// whatever was written meanwhile, unless a write below its target failed.
pub proof fn one_flush_serves_everyone(before: Watermarks, now: Watermarks, leader: u64, other: u64)
    requires
        before.step(leader) is Lead,
        other <= before.committed,
    ensures
        ({
            let flush_to = before.step(leader)->flush_to;
            let after = now.finished(flush_to, true);
            after.step(other) is Durable || after.step(other) is Refused
        }),
{
}

/// A thread that syncs flushes at most once: after its own flush succeeded, it is not
/// told to lead again, whatever happened meanwhile.
pub proof fn a_leader_leads_once(before: Watermarks, now: Watermarks, target: u64)
    requires
        before.step(target) is Lead,
    ensures
        !(now.finished(before.step(target)->flush_to, true).step(target) is Lead),
{
}

/// A sync that was satisfied once needs no flush again.
pub proof fn durable_stays_durable(w: Watermarks, target: u64, start: u64, end: u64)
    requires
        w.step(target) is Durable,
    ensures
        w.with_region(start, end).step(target) is Durable,
        w.polled(target) == w,
{
}

/// Once a write failed, no sync beyond it succeeds, whatever completes afterwards.
pub proof fn poison_is_final(w: Watermarks, failed: u64, target: u64, start: u64, end: u64)
    requires
        target > failed,
    ensures
        w.failed_at(failed).step(target) is Refused,
        w.failed_at(failed).with_region(start, end).step(target) is Refused,
        w.failed_at(failed).failed_at(start).step(target) is Refused,
{
}

/// What a thread that syncs is told. It is refused if a write below its target failed,
/// and only then. It is done if its target is durable. It leads if everything below its
/// target is written and nobody flushes, and then its flush covers all that is written.
/// It waits only for a byte below its own target, or for a flush that is under way.
pub proof fn a_thread_is_told_what_is_left_to_do(w: Watermarks, target: u64)
    ensures
        ({
            let refused = w.poison is Some && w.poison->0 < target;
            &&& w.step(target) is Refused <==> refused
            &&& w.step(target) matches SyncStep::Refused { poison } ==> w.poison == Some(poison)
            &&& w.step(target) is Durable <==> !refused && target <= w.durable
            &&& w.step(target) is Lead <==> !refused && w.durable < target && target
                <= w.committed && !w.syncing
            &&& w.step(target) matches SyncStep::Lead { flush_to } ==> flush_to == w.committed
            &&& w.step(target) is Wait <==> !refused && w.durable < target && (w.committed
                < target || w.syncing)
        }),
{
}

/// Nobody waits for a later write: once everything below a target is written and no flush
/// is under way, a thread is told to wait neither now nor after any later write completed
/// or failed.
pub proof fn a_written_target_is_not_waited_for(w: Watermarks, target: u64, start: u64, end: u64)
    requires
        w.wf(),
        target <= w.committed,
        !w.syncing,
        w.is_free(start, end),
    ensures
        !(w.step(target) is Wait),
        !(w.with_region(start, end).step(target) is Wait),
        !(w.failed_at(start).step(target) is Wait),
        w.failed_at(start).step(target) == w.step(target),
{
    region_is_added(w, start, end);
    assert(!w.covers(start as int));
}

/// A thread that asks and is told to lead is flushing from then on; nothing else changes.
pub proof fn asking_only_makes_a_leader(w: Watermarks, target: u64)
    ensures
        w.polled(target).syncing == (w.syncing || w.step(target) is Lead),
        w.polled(target).committed == w.committed,
        w.polled(target).durable == w.durable,
        w.polled(target).pending == w.pending,
        w.polled(target).waiters == w.waiters,
        w.polled(target).poison == w.poison,
{
}

/// A flush that succeeded makes durable what it covered, and takes back nothing; one that
/// failed makes nothing durable. Either way nobody flushes any more.
pub proof fn a_flush_makes_durable_what_it_covered(w: Watermarks, flush_to: u64, flushed: bool)
    ensures
        ({
            let v = w.finished(flush_to, flushed);
            &&& !v.syncing
            &&& v.durable >= w.durable
            &&& flushed ==> v.durable >= flush_to
            &&& v.durable == w.durable || flushed && v.durable == flush_to
            &&& v.committed == w.committed
            &&& v.pending == w.pending
            &&& v.waiters == w.waiters
            &&& v.poison == w.poison
        }),
{
}

/// Of the writes that failed, the lowest counts. Nothing else changes.
pub proof fn the_lowest_failure_counts(w: Watermarks, start: u64)
    ensures
        ({
            let v = w.failed_at(start);
            &&& v.poison matches Some(p) && p <= start && (p == start || w.poison == Some(p))
            &&& w.poison matches Some(q) ==> v.poison->0 <= q
            &&& v.committed == w.committed
            &&& v.durable == w.durable
            &&& v.pending == w.pending
            &&& v.syncing == w.syncing
            &&& v.waiters == w.waiters
        }),
{
}

/// A coordinator begins with everything that was recovered written and durable.
pub proof fn what_was_recovered_is_durable(recovered: u64)
    ensures
        ({
            let w = Watermarks::fresh(recovered);
            &&& w.committed == recovered
            &&& w.durable == recovered
            &&& forall|s: u64| !w.pending.contains_key(s)
            &&& !w.syncing
            &&& w.waiters == 0
            &&& w.poison is None
        }),
{
}

/// Giving up the end of a log forgets the writes there, failed and completed, and leaves
/// durable what was durable below it.
pub proof fn giving_up_the_end_keeps_the_rest(w: Watermarks, end: u64)
    ensures
        ({
            let v = w.rewound(end);
            &&& v.committed == end
            &&& w.durable <= end ==> v.durable == w.durable
            &&& w.durable >= end ==> v.durable == end
            &&& forall|s: u64| !v.pending.contains_key(s)
            &&& v.poison is None
            &&& v.syncing == w.syncing
            &&& v.waiters == w.waiters
        }),
{
}

/// A write that completes behind a gap is held back as it is. One that closes the gap
/// moves the watermark to its end and on over those that begin there, of which none is
/// held back any longer. Nothing else changes.
pub proof fn a_completed_write_is_held_or_counted(w: Watermarks, start: u64, end: u64)
    requires
        w.pending.dom().finite(),
    ensures
        ({
            let v = w.with_region(start, end);
            &&& v.durable == w.durable
            &&& v.syncing == w.syncing
            &&& v.waiters == w.waiters
            &&& v.poison == w.poison
            &&& start != w.committed ==> v.committed == w.committed && v.pending
                == w.pending.insert(start, end)
            &&& start == w.committed ==> {
                &&& !v.pending.contains_key(v.committed)
                &&& forall|s: u64| #[trigger]
                    v.pending.contains_key(s) ==> w.pending.contains_key(s) && v.pending[s]
                        == w.pending[s]
                &&& !w.pending.contains_key(end) ==> v.committed == end && v.pending == w.pending
                &&& w.pending.contains_key(end) ==> (Watermarks {
                    committed: end,
                    pending: w.pending.remove(end),
                    ..w
                }).with_region(end, w.pending[end]) == v
            }
        }),
{
    if start == w.committed {
        draining_leaves_the_rest(w.pending, end);
    }
}

/// What is left after following pending regions was there before, and none of it begins
/// where that led.
proof fn draining_leaves_the_rest(pending: Map<u64, u64>, at: u64)
    requires
        pending.dom().finite(),
    ensures
        ({
            let (end, rest) = drained(pending, at);
            &&& !rest.contains_key(end)
            &&& forall|s: u64| #[trigger]
                rest.contains_key(s) ==> pending.contains_key(s) && rest[s] == pending[s]
        }),
    decreases pending.dom().len(),
{
    if pending.contains_key(at) {
        draining_leaves_the_rest(pending.remove(at), pending[at]);
    }
}

/// A byte is known to be written if it lies below the watermark or in a write that is
/// held back; a range is free if none of its bytes is.
pub proof fn free_ranges_hold_no_written_byte(w: Watermarks, start: u64, end: u64, p: int)
    ensures
        w.covers(p) <==> p < w.committed || exists|s: u64| #[trigger]
            w.pending.contains_key(s) && s <= p && p < w.pending[s],
        w.is_free(start, end) && start <= p < end ==> !w.covers(p),
        w.is_free(start, end) <==> start < end && forall|q: int|
            start <= q < end ==> !#[trigger] w.covers(q),
{
}

/// Watermarks are in order if what is durable is written, and the writes that are held
/// back lie behind the watermark and hold no byte twice.
pub proof fn watermarks_are_in_order(w: Watermarks)
    ensures
        w.wf() <==> {
            &&& w.durable <= w.committed
            &&& w.pending.dom().finite()
            &&& forall|s: u64| #[trigger]
                w.pending.contains_key(s) ==> w.committed < s && s < w.pending[s]
            &&& forall|s: u64, t: u64| #[trigger]
                w.pending.contains_key(s) && #[trigger] w.pending.contains_key(t) && s < t
                    ==> w.pending[s] <= t
        },
{
}

/// The state of a commit coordinator.
#[derive(Debug)]
pub struct State {
    committed: u64,
    durable: u64,
    pending: BTreeMap<u64, u64>,
    syncing: bool,
    waiters: usize,
    poison: Option<u64>,
}

impl View for State {
    type V = Watermarks;

    closed spec fn view(&self) -> Watermarks {
        Watermarks {
            committed: self.committed,
            durable: self.durable,
            pending: self.pending@,
            syncing: self.syncing,
            waiters: self.waiters,
            poison: self.poison,
        }
    }
}

impl State {
    /// Fold a completed region into the watermark, advancing `committed` across any
    /// pending regions that are now contiguous.
    pub fn insert_region(&mut self, start: u64, end: u64)
        ensures
            final(self)@ == old(self)@.with_region(start, end),
            old(self)@.wf() && old(self)@.is_free(start, end) ==> final(self)@.wf(),
    {
        proof {
            if self@.wf() && self@.is_free(start, end) {
                region_is_added(self@, start, end);
            }
        }
        if start == self.committed {
            self.committed = end;
            let ghost before = self.pending@;
            loop
                invariant
                    drained(before, end) == drained(self.pending@, self.committed),
                    before == old(self).pending@,
                    start == old(self).committed,
                    self.durable == old(self).durable,
                    self.syncing == old(self).syncing,
                    self.waiters == old(self).waiters,
                    self.poison == old(self).poison,
                ensures
                    drained(before, end) == (self.committed, self.pending@),
                decreases self.pending@.dom().len(),
            {
                let at = self.committed;
                match self.pending.remove(&at) {
                    Some(next_end) => {
                        self.committed = next_end;
                    },
                    None => {
                        break;
                    },
                }
            }
        } else {
            self.pending.insert(start, end);
        }
    }
}

/// Coordinates the durable watermark and group commit for one log.
#[derive(Debug)]
pub struct Commit {
    state: State,
}

impl View for Commit {
    type V = Watermarks;

    closed spec fn view(&self) -> Watermarks {
        self.state@
    }
}

impl Commit {
    /// Create a coordinator whose watermarks start at `recovered`, the end of the
    /// last intact record found on open.
    pub fn new(recovered: u64) -> (commit: Self)
        ensures
            commit@ == Watermarks::fresh(recovered),
            commit@.wf(),
    {
        let commit = Commit {
            state: State {
                committed: recovered,
                durable: recovered,
                pending: BTreeMap::new(),
                syncing: false,
                waiters: 0,
                poison: None,
            },
        };
        assert(commit@ =~= Watermarks::fresh(recovered));
        commit
    }

    /// Record that the write covering `[start, end)` completed. Returns whether
    /// waiting threads have to be woken.
    pub fn mark_written(&mut self, start: u64, end: u64) -> (wake: bool)
        ensures
            final(self)@ == old(self)@.with_region(start, end),
            old(self)@.wf() && old(self)@.is_free(start, end) ==> final(self)@.wf(),
            wake == (old(self)@.waiters > 0),
    {
        self.state.insert_region(start, end);
        self.state.waiters > 0
    }

    /// Record that the write reserved at `start` failed: nothing at or beyond it
    /// can become durable. Returns whether waiting threads have to be woken.
    pub fn mark_failed(&mut self, start: u64) -> (wake: bool)
        ensures
            final(self)@ == old(self)@.failed_at(start),
            wake == (old(self)@.waiters > 0),
    {
        let lowest: u64 = match self.state.poison {
            Some(p) => if p <= start {
                p
            } else {
                start
            },
            None => start,
        };
        self.state.poison = Some(lowest);
        self.state.waiters > 0
    }

    /// Record what came of writing the record that was reserved at `[start, end)`, and
    /// give what its append returns: its sequence number, or the error of the write.
    /// Also returns whether waiting threads have to be woken.
    pub fn conclude(&mut self, start: u64, end: u64, written: Result<(), WalError>) -> (result: (
        Result<Lsn, WalError>,
        bool,
    ))
        ensures
            match written {
                Ok(()) => {
                    &&& result.0 matches Ok(lsn) && lsn.offset() == start
                    &&& final(self)@ == old(self)@.with_region(start, end)
                },
                Err(error) => {
                    &&& result.0 == Err::<Lsn, WalError>(error)
                    &&& final(self)@ == old(self)@.failed_at(start)
                },
            },
            old(self)@.wf() && old(self)@.is_free(start, end) ==> final(self)@.wf(),
            result.1 == (old(self)@.waiters > 0),
    {
        match written {
            Ok(()) => {
                let wake = self.mark_written(start, end);
                (Ok(Lsn::new(start)), wake)
            },
            Err(error) => {
                let wake = self.mark_failed(start);
                (Err(error), wake)
            },
        }
    }

    /// The contiguous-written watermark: the end of the readable prefix.
    pub fn committed(&self) -> (committed: u64)
        ensures
            committed == self@.committed,
    {
        self.state.committed
    }

    /// The offset below which every byte is on stable storage.
    pub fn durable(&self) -> (durable: u64)
        ensures
            durable == self@.durable,
    {
        self.state.durable
    }

    /// What a thread that wants every byte below `target` durable has to do next.
    pub fn poll(&mut self, target: u64) -> (step: SyncStep)
        ensures
            step == old(self)@.step(target),
            step is Wait ==> target > old(self)@.committed || old(self)@.syncing,
            step is Durable ==> target <= old(self)@.durable,
            step matches SyncStep::Lead { flush_to } ==> target <= flush_to && flush_to
                == old(self)@.committed,
            final(self)@ == old(self)@.polled(target),
            !(step is Lead) ==> *final(self) == *old(self),
    {
        if let Some(poison) = self.state.poison {
            if target > poison {
                return SyncStep::Refused { poison };
            }
        }
        if self.state.durable >= target {
            return SyncStep::Durable;
        }
        if self.state.committed >= target && !self.state.syncing {
            // Flush everything contiguously written, not just up to the target, so
            // that one flush serves later callers too.
            self.state.syncing = true;
            return SyncStep::Lead { flush_to: self.state.committed };
        }
        SyncStep::Wait
    }

    /// Report the outcome of the flush that this thread led. Waiting threads have
    /// to be woken afterwards.
    pub fn finish(&mut self, flush_to: u64, flushed: bool)
        ensures
            final(self)@ == old(self)@.finished(flush_to, flushed),
            old(self)@.wf() && flush_to <= old(self)@.committed ==> final(self)@.wf(),
    {
        self.state.syncing = false;
        if flushed && self.state.durable < flush_to {
            self.state.durable = flush_to;
        }
    }

    /// Report what came of the flush that this thread led, and give it on. Waiting
    /// threads have to be woken afterwards.
    pub fn conclude_flush(&mut self, flush_to: u64, flushed: Result<(), WalError>) -> (result:
        Result<(), WalError>)
        ensures
            result == flushed,
            final(self)@ == old(self)@.finished(flush_to, flushed is Ok),
            old(self)@.wf() && flush_to <= old(self)@.committed ==> final(self)@.wf(),
    {
        self.finish(flush_to, flushed.is_ok());
        flushed
    }

    /// Give up everything from `end` on, which lies at or below the watermark.
    pub fn rewind(&mut self, end: u64)
        requires
            end <= old(self)@.committed,
        ensures
            final(self)@ == old(self)@.rewound(end),
            final(self)@.wf(),
    {
        self.state.committed = end;
        if self.state.durable > end {
            self.state.durable = end;
        }
        self.state.pending = BTreeMap::new();
        self.state.poison = None;
        assert(self@ =~= old(self)@.rewound(end));
    }

    /// Count a thread that is about to wait.
    pub fn enter_wait(&mut self)
        requires
            old(self)@.waiters < usize::MAX,
        ensures
            final(self)@ == (Watermarks {
                waiters: (old(self)@.waiters + 1) as usize,
                ..old(self)@
            }),
    {
        self.state.waiters += 1;
    }

    /// Take back a thread that was woken.
    pub fn leave_wait(&mut self)
        requires
            old(self)@.waiters > 0,
        ensures
            final(self)@ == (Watermarks {
                waiters: (old(self)@.waiters - 1) as usize,
                ..old(self)@
            }),
    {
        self.state.waiters -= 1;
    }

    /// The error of a sync that is refused because the write at `poison` failed.
    pub fn refusal(poison: u64) -> (error: WalError)
        ensures
            error == (WalError::Corruption { offset: poison, reason: TRUNCATED }),
    {
        WalError::corruption(poison, TRUNCATED)
    }

    /// Make every byte below `target` durable.
    ///
    /// The caller holds the coordinator and the store alone, so no other thread
    /// can be waited for: either a write below `target` failed, or everything below
    /// it is written. A target that is not durable yet costs one flush.
    pub fn sync_to<S: WalStore>(&mut self, store: &mut S, target: u64) -> (result: Result<
        (),
        WalError,
    >)
        requires
            old(store).state().wf(),
            !(old(self)@.step(target) is Wait),
        ensures
            final(store).state().wf(),
            final(store).state().image == old(store).state().image,
            final(store).state().start == old(store).state().start,
            final(store).state().settled == old(store).state().settled,
            final(store).state().flushed >= old(store).state().flushed,
            match old(self)@.step(target) {
                SyncStep::Refused { poison } => {
                    &&& result == Err::<(), WalError>(
                        WalError::Corruption { offset: poison, reason: TRUNCATED },
                    )
                    &&& *final(self) == *old(self)
                    &&& *final(store) == *old(store)
                },
                SyncStep::Durable => {
                    &&& result is Ok
                    &&& *final(self) == *old(self)
                    &&& *final(store) == *old(store)
                },
                _ => {
                    &&& final(self)@ == old(self)@.finished(old(self)@.committed, result is Ok)
                    &&& result is Ok ==> final(store).state().flushed
                        == old(store).state().image.len()
                    &&& final(store).state().flushes <= old(store).state().flushes + 1
                    &&& result matches Err(error) ==> S::flush_error(error)
                    &&& S::reliable() ==> result is Ok
                },
            },
            result is Ok ==> final(self)@.durable >= target,
            old(self)@.wf() ==> final(self)@.wf(),
    {
        match self.poll(target) {
            SyncStep::Refused { poison } => Err(Self::refusal(poison)),
            SyncStep::Lead { flush_to } => {
                let flushed = store.sync();
                self.conclude_flush(flush_to, flushed)
            },
            _ => Ok(()),
        }
    }
}

} // verus!
