//! Threads that sync at once.
//!
//! A [`Run`] is the coordinator together with threads that sync through it, each up to
//! a target of its own, while others write. Any interleaving of their steps is a
//! sequence of [`Event`]s. The laws here hold of every run: what a thread that was told
//! `Ok` can rely on, and how many flushes that takes.

use crate::commit::{region_is_added, SyncStep, Watermarks};
use vstd::prelude::*;
use vstd::seq_lib::*;
use vstd::set_lib::*;

verus! {

/// How far a thread has come with its sync.
pub enum Phase {
    /// It has to ask what to do.
    Asking,
    /// It flushes the store, which covers everything below `flush_to`.
    Leading { flush_to: u64 },
    /// It returned, with `Ok` or with an error.
    Returned { ok: bool },
}

/// A thread that syncs.
pub struct Caller {
    /// The offset below which it wants every byte durable.
    pub target: u64,
    /// How far it has come.
    pub phase: Phase,
}

/// A flush of the store that is over.
pub struct Flush {
    /// The thread that led it.
    pub by: int,
    /// The watermark when it began: every byte below was written by then.
    pub covered: u64,
    /// Whether it succeeded.
    pub ok: bool,
}

/// Threads that sync through one coordinator.
pub struct Run {
    /// Where the log ended when it was opened.
    pub recovered: u64,
    /// The coordinator.
    pub marks: Watermarks,
    /// The threads.
    pub callers: Seq<Caller>,
    /// The flushes that are over, in the order in which they ended.
    pub flushes: Seq<Flush>,
}

/// One step of a run.
pub enum Event {
    /// The write of `[start, end)` completed.
    Wrote { start: u64, end: u64 },
    /// The write reserved at `start` failed.
    WriteFailed { start: u64 },
    /// A thread asked what to do.
    Asked { caller: int },
    /// The flush that a thread led is over.
    Flushed { caller: int, ok: bool },
}

/// A log that was opened with `recovered` bytes, and threads that sync up to `targets`.
pub open spec fn begun(recovered: u64, targets: Seq<u64>) -> Run {
    Run {
        recovered,
        marks: Watermarks::fresh(recovered),
        callers: targets.map_values(|target: u64| Caller { target, phase: Phase::Asking }),
        flushes: Seq::empty(),
    }
}

impl Run {
    /// The run with caller `i` in `phase`.
    pub open spec fn moved(self, i: int, phase: Phase) -> Self {
        Run {
            callers: self.callers.update(i, Caller { target: self.callers[i].target, phase }),
            ..self
        }
    }

    /// Whether `event` can be the next step: no byte is written twice, and threads do
    /// one thing at a time.
    pub open spec fn allows(self, event: Event) -> bool {
        match event {
            Event::Wrote { start, end } => self.marks.is_free(start, end),
            Event::WriteFailed { .. } => true,
            Event::Asked { caller } => 0 <= caller < self.callers.len()
                && self.callers[caller].phase is Asking,
            Event::Flushed { caller, .. } => 0 <= caller < self.callers.len()
                && self.callers[caller].phase is Leading,
        }
    }

    /// After `event`. A thread whose flush succeeded asks again; one whose flush failed
    /// returns the error.
    pub open spec fn after(self, event: Event) -> Self {
        match event {
            Event::Wrote { start, end } => Run {
                marks: self.marks.with_region(start, end),
                ..self
            },
            Event::WriteFailed { start } => Run { marks: self.marks.failed_at(start), ..self },
            Event::Asked { caller } => {
                let target = self.callers[caller].target;
                let asked = Run { marks: self.marks.polled(target), ..self };
                match self.marks.step(target) {
                    SyncStep::Refused { .. } => asked.moved(caller, Phase::Returned { ok: false }),
                    SyncStep::Durable => asked.moved(caller, Phase::Returned { ok: true }),
                    SyncStep::Lead { flush_to } => asked.moved(caller, Phase::Leading { flush_to }),
                    SyncStep::Wait => asked,
                }
            },
            Event::Flushed { caller, ok } => match self.callers[caller].phase {
                Phase::Leading { flush_to } => Run {
                    marks: self.marks.finished(flush_to, ok),
                    flushes: self.flushes.push(Flush { by: caller, covered: flush_to, ok }),
                    ..self
                }.moved(
                    caller,
                    if ok {
                        Phase::Asking
                    } else {
                        Phase::Returned { ok: false }
                    },
                ),
                _ => self,
            },
        }
    }

    /// Whether a flush that succeeded began when everything below `target` was written.
    pub open spec fn flushed(self, target: u64) -> bool {
        exists|k: int|
            0 <= k < self.flushes.len() && (#[trigger] self.flushes[k]).ok
                && self.flushes[k].covered >= target
    }

    /// Whether caller `i` has returned, or will be told to as soon as it asks.
    pub open spec fn is_served(self, i: int) -> bool {
        self.callers[i].phase is Returned || self.callers[i].phase is Asking
            && self.callers[i].target <= self.marks.durable
    }

    /// What holds at every moment of a run.
    pub open spec fn wf(self) -> bool {
        &&& self.marks.wf()
        // What is durable was recovered, or a flush covered it.
        &&& self.marks.durable <= self.recovered || self.flushed(self.marks.durable)
        // A leader flushes what was written when it began, and flushes alone.
        &&& forall|i: int|
            0 <= i < self.callers.len() ==> ((#[trigger] self.callers[i]).phase matches Phase::Leading {
                flush_to,
            } ==> self.marks.syncing && self.callers[i].target <= flush_to <= self.marks.committed)
        &&& forall|i: int, j: int|
            0 <= i < self.callers.len() && 0 <= j < self.callers.len() && (
            #[trigger] self.callers[i]).phase is Leading && (#[trigger] self.callers[j]).phase is Leading
                ==> i == j
        // Who was told `Ok` has its target durable.
        &&& forall|i: int|
            0 <= i < self.callers.len() ==> ((#[trigger] self.callers[i]).phase matches Phase::Returned {
                ok,
            } ==> ok ==> self.callers[i].target <= self.marks.durable)
        // Each flush was led by a thread of its own, which has nothing left to flush.
        &&& forall|k: int|
            0 <= k < self.flushes.len() ==> 0 <= (#[trigger] self.flushes[k]).by
                < self.callers.len() && self.is_served(self.flushes[k].by)
                && self.flushes[k].covered <= self.marks.committed
        &&& forall|k: int, l: int|
            0 <= k < l < self.flushes.len() ==> (#[trigger] self.flushes[k]).by != (
            #[trigger] self.flushes[l]).by
    }
}

/// The run after `events` happened in turn.
pub open spec fn ran(run: Run, events: Seq<Event>) -> Run
    decreases events.len(),
{
    if events.len() == 0 {
        run
    } else {
        ran(run, events.drop_last()).after(events.last())
    }
}

/// Whether each of `events` can happen when its turn comes.
pub open spec fn can_run(run: Run, events: Seq<Event>) -> bool
    decreases events.len(),
{
    events.len() == 0 || can_run(run, events.drop_last()) && ran(run, events.drop_last()).allows(
        events.last(),
    )
}

/// What a flush covered stays covered.
proof fn flushes_stay(run: Run, next: Run, target: u64)
    requires
        run.flushes.len() <= next.flushes.len(),
        forall|k: int| 0 <= k < run.flushes.len() ==> run.flushes[k] == #[trigger] next.flushes[k],
    ensures
        run.flushed(target) ==> next.flushed(target),
{
    if run.flushed(target) {
        let k = choose|k: int|
            0 <= k < run.flushes.len() && (#[trigger] run.flushes[k]).ok && run.flushes[k].covered
                >= target;
        assert(next.flushes[k] == run.flushes[k]);
    }
}

/// No step of a run breaks what holds at every moment.
proof fn steps_keep_wf(run: Run, event: Event)
    requires
        run.wf(),
        run.allows(event),
    ensures
        run.after(event).wf(),
{
    let next = run.after(event);
    match event {
        Event::Wrote { start, end } => {
            region_is_added(run.marks, start, end);
            assert(next.marks.durable == run.marks.durable);
            flushes_stay(run, next, run.marks.durable);
        },
        Event::WriteFailed { .. } => {
            flushes_stay(run, next, run.marks.durable);
        },
        Event::Asked { caller } => {
            flushes_stay(run, next, run.marks.durable);
            assert forall|i: int| 0 <= i < next.callers.len() && i != caller implies #[trigger] next.callers[i]
                == run.callers[i] by {}
        },
        Event::Flushed { caller, ok } => {
            let flush_to = run.callers[caller].phase->Leading_flush_to;
            let n = run.flushes.len() as int;
            assert forall|i: int| 0 <= i < next.callers.len() && i != caller implies #[trigger] next.callers[i]
                == run.callers[i] by {}
            assert forall|k: int| 0 <= k < n implies #[trigger] next.flushes[k]
                == run.flushes[k] by {}
            assert(next.flushes[n] == (Flush { by: caller, covered: flush_to, ok }));
            if ok && run.marks.durable < flush_to {
                assert(next.flushed(next.marks.durable));
            } else {
                flushes_stay(run, next, run.marks.durable);
            }
        },
    }
}

/// Whatever the threads do and in whatever order, no moment of a run is out of order.
pub proof fn runs_are_wf(recovered: u64, targets: Seq<u64>, events: Seq<Event>)
    requires
        can_run(begun(recovered, targets), events),
    ensures
        ran(begun(recovered, targets), events).wf(),
        ran(begun(recovered, targets), events).recovered == recovered,
        ran(begun(recovered, targets), events).callers.len() == targets.len(),
        forall|i: int|
            0 <= i < targets.len() ==> (#[trigger] ran(
                begun(recovered, targets),
                events,
            ).callers[i]).target == targets[i],
    decreases events.len(),
{
    let run = begun(recovered, targets);
    if events.len() > 0 {
        runs_are_wf(recovered, targets, events.drop_last());
        let before = ran(run, events.drop_last());
        steps_keep_wf(before, events.last());
        assert forall|i: int| 0 <= i < targets.len() implies (#[trigger] ran(
            run,
            events,
        ).callers[i]).target == targets[i] by {
            assert(before.callers[i].target == targets[i]);
        }
    }
}

/// A thread is told `Ok` only for what is durable: its target was recovered, or a flush
/// succeeded that began once everything below the target was written. It is never told
/// `Ok` while a byte below its target is missing.
pub proof fn ok_means_flushed(recovered: u64, targets: Seq<u64>, events: Seq<Event>, i: int)
    requires
        can_run(begun(recovered, targets), events),
        0 <= i < targets.len(),
        ran(begun(recovered, targets), events).callers[i].phase == (Phase::Returned { ok: true }),
    ensures
        ({
            let run = ran(begun(recovered, targets), events);
            &&& targets[i] <= recovered || run.flushed(targets[i])
            &&& targets[i] <= run.marks.durable <= run.marks.committed
        }),
{
    runs_are_wf(recovered, targets, events);
    let run = ran(begun(recovered, targets), events);
    assert(run.callers[i].target == targets[i]);
    assert(targets[i] <= run.marks.durable);
    if run.marks.durable > recovered {
        let k = choose|k: int|
            0 <= k < run.flushes.len() && (#[trigger] run.flushes[k]).ok && run.flushes[k].covered
                >= run.marks.durable;
        assert(run.flushes[k].covered >= targets[i]);
    }
}

/// Syncing at once takes at most one flush per thread, and at most one thread flushes
/// at a time.
pub proof fn each_thread_flushes_at_most_once(
    recovered: u64,
    targets: Seq<u64>,
    events: Seq<Event>,
)
    requires
        can_run(begun(recovered, targets), events),
    ensures
        ({
            let run = ran(begun(recovered, targets), events);
            &&& run.flushes.len() <= targets.len()
            &&& forall|k: int, l: int|
                0 <= k < l < run.flushes.len() ==> (#[trigger] run.flushes[k]).by != (
                #[trigger] run.flushes[l]).by
            &&& forall|i: int, j: int|
                0 <= i < targets.len() && 0 <= j < targets.len() && (
                #[trigger] run.callers[i]).phase is Leading && (
                #[trigger] run.callers[j]).phase is Leading ==> i == j
        }),
{
    runs_are_wf(recovered, targets, events);
    let run = ran(begun(recovered, targets), events);
    let n = targets.len() as int;
    let leaders = run.flushes.map_values(|flush: Flush| flush.by);
    assert(leaders.no_duplicates()) by {
        assert forall|k: int, l: int|
            0 <= k < leaders.len() && 0 <= l < leaders.len() && k != l implies leaders[k]
            != leaders[l] by {
            if k < l {
                assert(run.flushes[k].by != run.flushes[l].by);
            } else {
                assert(run.flushes[l].by != run.flushes[k].by);
            }
        }
    }
    leaders.unique_seq_to_set();
    lemma_int_range(0, n);
    assert forall|x: int| #[trigger] leaders.to_set().contains(x) implies set_int_range(
        0,
        n,
    ).contains(x) by {
        let k = choose|k: int| 0 <= k < leaders.len() && leaders[k] == x;
        assert(run.flushes[k].by == x);
    }
    lemma_len_subset(leaders.to_set(), set_int_range(0, n));
}

/// While the coordinator says that a flush is under way, some thread leads it.
pub proof fn a_flush_under_way_has_a_leader(recovered: u64, targets: Seq<u64>, events: Seq<Event>)
    requires
        can_run(begun(recovered, targets), events),
    ensures
        ran(begun(recovered, targets), events).marks.syncing ==> exists|i: int|
            0 <= i < targets.len() && (#[trigger] ran(
                begun(recovered, targets),
                events,
            ).callers[i]).phase is Leading,
    decreases events.len(),
{
    let run = begun(recovered, targets);
    if events.len() > 0 {
        let init = events.drop_last();
        a_flush_under_way_has_a_leader(recovered, targets, init);
        runs_are_wf(recovered, targets, init);
        let before = ran(run, init);
        let after = ran(run, events);
        if after.marks.syncing {
            if before.marks.syncing {
                let i = choose|i: int|
                    0 <= i < targets.len() && (#[trigger] before.callers[i]).phase is Leading;
                assert(before.callers[i].phase is Leading);
                assert(after.callers[i].phase is Leading);
            } else {
                match events.last() {
                    Event::Asked { caller } => {
                        assert(after.callers[caller].phase is Leading);
                    },
                    _ => {},
                }
            }
        }
    }
}

/// No thread waits in vain. If everything below its target is written, then it gets an
/// answer when it asks, or another thread is flushing, whose flush will end.
pub proof fn no_thread_waits_in_vain(
    recovered: u64,
    targets: Seq<u64>,
    events: Seq<Event>,
    i: int,
)
    requires
        can_run(begun(recovered, targets), events),
        0 <= i < targets.len(),
        ran(begun(recovered, targets), events).callers[i].phase is Asking,
        targets[i] <= ran(begun(recovered, targets), events).marks.committed,
    ensures
        ({
            let run = ran(begun(recovered, targets), events);
            ||| !(run.after(Event::Asked { caller: i }).callers[i].phase is Asking)
            ||| exists|j: int|
                0 <= j < targets.len() && j != i && (#[trigger] run.callers[j]).phase is Leading
        }),
{
    runs_are_wf(recovered, targets, events);
    a_flush_under_way_has_a_leader(recovered, targets, events);
    let run = ran(begun(recovered, targets), events);
    assert(run.callers[i].target == targets[i]);
    if run.marks.syncing {
        let j = choose|j: int|
            0 <= j < targets.len() && (#[trigger] run.callers[j]).phase is Leading;
        assert(run.callers[j].phase is Leading);
        assert(j != i);
    }
}

/// Whether `event` reports a write or a flush that failed.
pub open spec fn is_failure(event: Event) -> bool {
    match event {
        Event::WriteFailed { .. } => true,
        Event::Flushed { ok, .. } => !ok,
        _ => false,
    }
}

/// Where no write and no flush failed, no thread is told an error.
pub proof fn no_failure_no_error(
    recovered: u64,
    targets: Seq<u64>,
    events: Seq<Event>,
    i: int,
)
    requires
        can_run(begun(recovered, targets), events),
        forall|k: int| 0 <= k < events.len() ==> !is_failure(#[trigger] events[k]),
        0 <= i < targets.len(),
    ensures
        ran(begun(recovered, targets), events).marks.poison is None,
        ran(begun(recovered, targets), events).callers[i].phase != (Phase::Returned { ok: false }),
    decreases events.len(),
{
    if events.len() > 0 {
        let init = events.drop_last();
        assert forall|k: int| 0 <= k < init.len() implies !is_failure(#[trigger] init[k]) by {
            assert(init[k] == events[k]);
        }
        no_failure_no_error(recovered, targets, init, i);
        runs_are_wf(recovered, targets, init);
        assert(!is_failure(events[events.len() - 1]));
    }
}

/// Where every thread was told `Ok` and one of them asked for more than was recovered,
/// there was at least one flush, and no more than threads.
pub proof fn a_shared_sync_takes_a_few_flushes(
    recovered: u64,
    targets: Seq<u64>,
    events: Seq<Event>,
    i: int,
)
    requires
        can_run(begun(recovered, targets), events),
        0 <= i < targets.len(),
        targets[i] > recovered,
        ran(begun(recovered, targets), events).callers[i].phase == (Phase::Returned { ok: true }),
    ensures
        1 <= ran(begun(recovered, targets), events).flushes.len() <= targets.len(),
{
    ok_means_flushed(recovered, targets, events, i);
    each_thread_flushes_at_most_once(recovered, targets, events);
}

} // verus!
