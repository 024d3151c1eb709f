//! Appends that happen at once.
//!
//! Each appender reserves the next byte range of the log and writes its frame there.
//! The reservations happen one after the other; the writes complete in any order.
//! The laws here say that the order does not matter: once every write completed, the
//! log is the one that appending in the order of the reservations gives.

use crate::commit::{
    all_writes_are_committed, in_region, region_is_added, Watermarks,
};
use crate::image::{
    all_fit, entries, frame_extends_whole, log_grows_by_a_frame, log_of, lsns_grow, whole, Entry,
};
use crate::record::{frame, frame_has_its_size, framed_size};
use crate::store::overwrite;
use vstd::prelude::*;

verus! {

/// The write of one frame into its reserved range.
#[verifier::ext_equal]
pub struct Reservation {
    /// Where the range begins.
    pub start: int,
    /// The frame.
    pub bytes: Seq<u8>,
}

impl Reservation {
    /// Where the range ends.
    pub open spec fn end(self) -> int {
        self.start + self.bytes.len()
    }

    /// Whether the range holds offset `p`.
    pub open spec fn holds(self, p: int) -> bool {
        self.start <= p < self.end()
    }
}

/// What the appenders of `payloads` reserve and write in a log of `base` bytes, in the
/// order of their reservations: the first range begins at the end of the log, each other
/// one where the one before it ends.
pub open spec fn reservations(base: int, payloads: Seq<Seq<u8>>) -> Seq<Reservation> {
    Seq::new(
        payloads.len(),
        |i: int|
            Reservation {
                start: base + log_of(payloads.take(i)).len(),
                bytes: frame(payloads[i]),
            },
    )
}

/// The image after `writes` completed in turn.
pub open spec fn written(image: Seq<u8>, writes: Seq<Reservation>) -> Seq<u8>
    decreases writes.len(),
{
    if writes.len() == 0 {
        image
    } else {
        overwrite(written(image, writes.drop_last()), writes.last().start, writes.last().bytes)
    }
}

/// The watermarks after `writes` were reported as completed in turn.
pub open spec fn completed(marks: Watermarks, writes: Seq<Reservation>) -> Watermarks
    decreases writes.len(),
{
    if writes.len() == 0 {
        marks
    } else {
        completed(marks, writes.drop_last()).with_region(
            writes.last().start as u64,
            writes.last().end() as u64,
        )
    }
}

/// Whether no two writes touch the same byte.
pub open spec fn disjoint(writes: Seq<Reservation>) -> bool {
    forall|i: int, j: int|
        0 <= i < writes.len() && 0 <= j < writes.len() && i != j ==> (#[trigger] writes[i]).end()
            <= (#[trigger] writes[j]).start || writes[j].end() <= writes[i].start
}

/// Whether one of the writes touches the byte at `p`.
pub open spec fn touched(writes: Seq<Reservation>, p: int) -> bool {
    exists|i: int| 0 <= i < writes.len() && #[trigger] writes[i].holds(p)
}

/// Whether `order` is an order in which the writes of the appenders of `payloads` to a
/// log of `base` bytes can complete: the same writes, each once.
pub open spec fn is_order_of(order: Seq<Reservation>, base: int, payloads: Seq<Seq<u8>>) -> bool {
    &&& order.no_duplicates()
    &&& forall|w: Reservation| #[trigger] order.contains(w) <==> reservations(base, payloads).contains(w)
}

/// Reserved ranges do not overlap, the later reservation lies behind the earlier, and
/// together they hold every byte from the old end of the log to the new one.
pub proof fn reservations_tile_the_log(base: int, payloads: Seq<Seq<u8>>)
    ensures
        forall|i: int, j: int|
            0 <= i < j < payloads.len() ==> (#[trigger] reservations(base, payloads)[i]).end() <= (
            #[trigger] reservations(base, payloads)[j]).start,
        forall|i: int|
            0 <= i < payloads.len() ==> base <= (#[trigger] reservations(base, payloads)[i]).start
                < reservations(base, payloads)[i].end() <= base + log_of(payloads).len(),
        forall|p: int|
            base <= p < base + log_of(payloads).len() ==> #[trigger] touched(reservations(base, payloads), p),
    decreases payloads.len(),
{
    if payloads.len() > 0 {
        let n = payloads.len() - 1;
        let init = payloads.drop_last();
        let all = reservations(base, payloads);
        reservations_tile_the_log(base, init);
        log_grows_by_a_frame(payloads, n);
        frame_has_its_size(payloads[n]);
        assert(payloads.take(n) =~= init);
        assert(payloads.take(n + 1) =~= payloads);
        assert forall|i: int| 0 <= i < n implies #[trigger] all[i] == reservations(base, init)[i] by {
            assert(payloads.take(i) =~= init.take(i));
        }
        assert(all[n] == (Reservation {
            start: base + log_of(init).len(),
            bytes: frame(payloads[n]),
        }));
        assert forall|i: int, j: int| 0 <= i < j < payloads.len() implies (#[trigger] all[i]).end()
            <= (#[trigger] all[j]).start by {
            assert(all[i] == reservations(base, init)[i]);
            if j < n {
                assert(all[j] == reservations(base, init)[j]);
            }
        }
        assert forall|i: int| 0 <= i < payloads.len() implies base <= (#[trigger] all[i]).start
            < all[i].end() <= base + log_of(payloads).len() by {
            if i < n {
                assert(all[i] == reservations(base, init)[i]);
            }
        }
        assert forall|p: int| base <= p < base + log_of(payloads).len() implies #[trigger] touched(
            all,
            p,
        ) by {
            if p < base + log_of(init).len() {
                assert(touched(reservations(base, init), p));
                let i = choose|i: int|
                    0 <= i < init.len() && #[trigger] reservations(base, init)[i].holds(p);
                assert(all[i] == reservations(base, init)[i]);
                assert(all[i].holds(p));
            } else {
                assert(all[n].holds(p));
            }
        }
    }
}

/// What the image holds after disjoint writes: each write's bytes in its range, what
/// was there before elsewhere. It is as long as the highest write reaches.
proof fn written_holds(image: Seq<u8>, writes: Seq<Reservation>)
    requires
        disjoint(writes),
        forall|i: int| 0 <= i < writes.len() ==> 0 <= (#[trigger] writes[i]).start,
    ensures
        ({
            let after = written(image, writes);
            &&& after.len() >= image.len()
            &&& forall|i: int|
                0 <= i < writes.len() ==> (#[trigger] writes[i]).end() <= after.len()
            &&& after.len() == image.len() || exists|i: int|
                0 <= i < writes.len() && after.len() == (#[trigger] writes[i]).end()
            &&& forall|i: int, p: int|
                0 <= i < writes.len() && #[trigger] writes[i].holds(p) ==> after[p]
                    == writes[i].bytes[p - writes[i].start]
            &&& forall|p: int|
                0 <= p < after.len() && !touched(writes, p) ==> #[trigger] after[p] == (if p < image.len() {
                    image[p]
                } else {
                    0u8
                })
        }),
    decreases writes.len(),
{
    if writes.len() > 0 {
        let n = writes.len() - 1;
        let init = writes.drop_last();
        assert forall|i: int| 0 <= i < n implies #[trigger] init[i] == writes[i] by {}
        assert(disjoint(init)) by {
            assert forall|i: int, j: int|
                0 <= i < init.len() && 0 <= j < init.len() && i != j implies (
            #[trigger] init[i]).end() <= (#[trigger] init[j]).start || init[j].end()
                <= init[i].start by {
                assert(init[i] == writes[i] && init[j] == writes[j]);
            }
        }
        written_holds(image, init);
        let before = written(image, init);
        let after = written(image, writes);
        let last = writes[n];
        assert(after == overwrite(before, last.start, last.bytes));
        assert forall|i: int| 0 <= i < writes.len() implies (#[trigger] writes[i]).end()
            <= after.len() by {
            if i < n {
                assert(init[i] == writes[i]);
            }
        }
        if after.len() != image.len() {
            if after.len() == last.end() {
                assert(after.len() == writes[n].end());
            } else {
                let i = choose|i: int|
                    0 <= i < init.len() && before.len() == (#[trigger] init[i]).end();
                assert(after.len() == writes[i].end());
            }
        }
        assert forall|i: int, p: int|
            0 <= i < writes.len() && #[trigger] writes[i].holds(p) implies after[p]
            == writes[i].bytes[p - writes[i].start] by {
            if i < n {
                assert(init[i] == writes[i]);
                assert(init[i].holds(p));
                assert(!last.holds(p));
            }
        }
        assert forall|p: int|
            0 <= p < after.len() && !touched(writes, p) implies #[trigger] after[p] == (if p < image.len() {
            image[p]
        } else {
            0u8
        }) by {
            assert(!writes[n].holds(p));
            if touched(init, p) {
                let i = choose|i: int| 0 <= i < init.len() && #[trigger] init[i].holds(p);
                assert(writes[i].holds(p));
            }
            if p < before.len() {
                assert(after[p] == before[p]);
            }
        }
    }
}

/// In whatever order the writes complete, they do not overlap.
proof fn orders_are_disjoint(order: Seq<Reservation>, base: int, payloads: Seq<Seq<u8>>)
    requires
        is_order_of(order, base, payloads),
    ensures
        disjoint(order),
        forall|i: int|
            0 <= i < order.len() ==> base <= (#[trigger] order[i]).start < order[i].end() <= base
                + log_of(payloads).len(),
{
    let all = reservations(base, payloads);
    reservations_tile_the_log(base, payloads);
    assert forall|i: int| 0 <= i < order.len() implies base <= (#[trigger] order[i]).start
        < order[i].end() <= base + log_of(payloads).len() by {
        assert(order.contains(order[i]));
        let k = choose|k: int| 0 <= k < all.len() && all[k] == order[i];
        assert(all[k] == order[i]);
    }
    assert forall|i: int, j: int|
        0 <= i < order.len() && 0 <= j < order.len() && i != j implies (#[trigger] order[i]).end()
        <= (#[trigger] order[j]).start || order[j].end() <= order[i].start by {
        assert(order.contains(order[i]));
        assert(order.contains(order[j]));
        let k = choose|k: int| 0 <= k < all.len() && all[k] == order[i];
        let l = choose|l: int| 0 <= l < all.len() && all[l] == order[j];
        assert(order[i] != order[j]);
        assert(k != l);
        if k < l {
            assert(all[k].end() <= all[l].start);
        } else {
            assert(all[l].end() <= all[k].start);
        }
    }
}

/// No append is lost or overwritten: in whatever order the writes complete, the bytes
/// are those of a log to which the payloads were appended in the order of their
/// reservations, behind what the log held before.
pub proof fn any_order_yields_the_log(
    image: Seq<u8>,
    order: Seq<Reservation>,
    payloads: Seq<Seq<u8>>,
)
    requires
        is_order_of(order, image.len() as int, payloads),
    ensures
        written(image, order) == image + log_of(payloads),
{
    let base = image.len() as int;
    let all = reservations(base, payloads);
    let log = image + log_of(payloads);
    let after = written(image, order);
    orders_are_disjoint(order, base, payloads);
    reservations_tile_the_log(base, payloads);
    written_holds(image, order);
    // The image is as long as the log.
    assert(after.len() <= log.len()) by {
        if after.len() != image.len() {
            let i = choose|i: int| 0 <= i < order.len() && after.len() == (#[trigger] order[i]).end();
            assert(order[i].end() <= log.len());
        }
    }
    assert forall|p: int| 0 <= p < log.len() implies p < after.len() && #[trigger] after[p]
        == log[p] by {
        if p < base {
            if touched(order, p) {
                let i = choose|i: int| 0 <= i < order.len() && #[trigger] order[i].holds(p);
                assert(base <= order[i].start);
            }
            assert(after[p] == image[p]);
        } else {
            assert(touched(all, p));
            let k = choose|k: int| 0 <= k < payloads.len() && #[trigger] all[k].holds(p);
            assert(all.contains(all[k]));
            assert(order.contains(all[k]));
            let i = choose|i: int| 0 <= i < order.len() && order[i] == all[k];
            assert(order[i].holds(p));
            frame_stands_in_the_log(base, payloads, k, p);
        }
    }
    if after.len() < log.len() {
        assert(after[log.len() - 1] == log[log.len() - 1]);
    }
    assert(after =~= log);
}

/// Where the log holds the frame of its `k`-th payload.
proof fn frame_stands_in_the_log(base: int, payloads: Seq<Seq<u8>>, k: int, p: int)
    requires
        0 <= k < payloads.len(),
        reservations(base, payloads)[k].holds(p),
    ensures
        p - base < log_of(payloads).len(),
        log_of(payloads)[p - base] == frame(payloads[k])[p - reservations(base, payloads)[k].start],
    decreases payloads.len(),
{
    let n = payloads.len() - 1;
    let init = payloads.drop_last();
    assert(payloads.take(n) =~= init);
    assert(payloads.take(n + 1) =~= payloads);
    log_grows_by_a_frame(payloads, n);
    if k < n {
        assert(payloads.take(k) =~= init.take(k));
        assert(reservations(base, init)[k] == reservations(base, payloads)[k]);
        frame_stands_in_the_log(base, init, k, p);
    }
}

/// Once every write was reported, in whatever order, the watermark stands at the end of
/// the log: every record can be read and made durable.
pub proof fn any_order_commits_the_log(
    marks: Watermarks,
    order: Seq<Reservation>,
    payloads: Seq<Seq<u8>>,
)
    requires
        marks.wf(),
        marks.pending == Map::<u64, u64>::empty(),
        is_order_of(order, marks.committed as int, payloads),
        marks.committed + log_of(payloads).len() <= u64::MAX,
    ensures
        completed(marks, order).wf(),
        completed(marks, order).committed == marks.committed + log_of(payloads).len(),
        completed(marks, order).pending == Map::<u64, u64>::empty(),
{
    let base = marks.committed as int;
    let all = reservations(base, payloads);
    let tail = (base + log_of(payloads).len()) as u64;
    let after = completed(marks, order);
    orders_are_disjoint(order, base, payloads);
    reservations_tile_the_log(base, payloads);
    completed_covers(marks, order);
    assert forall|p: int| 0 <= p < tail implies after.covers(p) by {
        if p >= base {
            assert(touched(all, p));
            let k = choose|k: int| 0 <= k < payloads.len() && #[trigger] all[k].holds(p);
            assert(all.contains(all[k]));
            assert(order.contains(all[k]));
            let i = choose|i: int| 0 <= i < order.len() && order[i] == all[k];
            assert(order[i].holds(p));
        }
    }
    assert forall|p: int| tail <= p implies !#[trigger] after.covers(p) by {
        if after.covers(p) {
            let i = choose|i: int| 0 <= i < order.len() && #[trigger] order[i].holds(p);
            assert(order[i].end() <= tail);
        }
    }
    all_writes_are_committed(after, tail);
}

/// Reporting disjoint writes behind the watermark covers exactly their bytes besides
/// those below it.
proof fn completed_covers(marks: Watermarks, writes: Seq<Reservation>)
    requires
        marks.wf(),
        marks.pending == Map::<u64, u64>::empty(),
        disjoint(writes),
        forall|i: int|
            0 <= i < writes.len() ==> marks.committed <= (#[trigger] writes[i]).start
                < writes[i].end() <= u64::MAX,
    ensures
        completed(marks, writes).wf(),
        forall|p: int|
            0 <= p ==> (#[trigger] completed(marks, writes).covers(p) <==> p < marks.committed
                || touched(writes, p)),
    decreases writes.len(),
{
    let after = completed(marks, writes);
    if writes.len() == 0 {
        assert forall|p: int| 0 <= p implies (#[trigger] after.covers(p) <==> p
            < marks.committed) by {
            assert(!in_region(after.pending, p));
        }
    } else {
        let n = writes.len() - 1;
        let init = writes.drop_last();
        let last = writes[n];
        assert forall|i: int| 0 <= i < n implies #[trigger] init[i] == writes[i] by {}
        assert(disjoint(init)) by {
            assert forall|i: int, j: int|
                0 <= i < init.len() && 0 <= j < init.len() && i != j implies (
            #[trigger] init[i]).end() <= (#[trigger] init[j]).start || init[j].end()
                <= init[i].start by {
                assert(init[i] == writes[i] && init[j] == writes[j]);
            }
        }
        completed_covers(marks, init);
        let before = completed(marks, init);
        let (start, end) = (last.start as u64, last.end() as u64);
        assert(before.is_free(start, end)) by {
            assert forall|p: int| start <= p < end implies !#[trigger] before.covers(p) by {
                if before.covers(p) {
                    let i = choose|i: int| 0 <= i < init.len() && #[trigger] init[i].holds(p);
                    assert(writes[i].holds(p) && writes[n].holds(p));
                }
            }
        }
        region_is_added(before, start, end);
        assert forall|p: int| 0 <= p implies (#[trigger] after.covers(p) <==> p < marks.committed
            || touched(writes, p)) by {
            if after.covers(p) && p >= marks.committed {
                if before.covers(p) {
                    let i = choose|i: int| 0 <= i < init.len() && #[trigger] init[i].holds(p);
                    assert(writes[i].holds(p));
                } else {
                    assert(writes[n].holds(p));
                }
            }
            if p < marks.committed {
                assert(before.covers(p));
            }
            if touched(writes, p) {
                let i = choose|i: int| 0 <= i < writes.len() && #[trigger] writes[i].holds(p);
                if i < n {
                    assert(init[i].holds(p));
                    assert(before.covers(p));
                }
            }
        }
    }
}

/// The records of `payloads` appended in turn to a log of `base` bytes.
pub open spec fn appended_entries(base: int, payloads: Seq<Seq<u8>>) -> Seq<Entry> {
    Seq::new(
        payloads.len(),
        |i: int| Entry { lsn: base + log_of(payloads.take(i)).len(), data: payloads[i] },
    )
}

/// Payloads appended behind whole records add their records to them, each numbered by
/// the offset that was reserved for it.
pub proof fn appends_extend_whole(image: Seq<u8>, at: int, payloads: Seq<Seq<u8>>, max: u32)
    requires
        0 <= at,
        whole(image, at, image.len() as int, max),
        all_fit(payloads, max),
    ensures
        ({
            let after = image + log_of(payloads);
            &&& whole(after, at, after.len() as int, max)
            &&& entries(after, at, after.len() as int, max) == entries(
                image,
                at,
                image.len() as int,
                max,
            ) + appended_entries(image.len() as int, payloads)
        }),
    decreases payloads.len(),
{
    let base = image.len() as int;
    let after = image + log_of(payloads);
    let old_entries = entries(image, at, base, max);
    if payloads.len() == 0 {
        assert(after =~= image);
        assert(old_entries + appended_entries(base, payloads) =~= old_entries);
    } else {
        let n = payloads.len() - 1;
        let init = payloads.drop_last();
        assert(all_fit(init, max)) by {
            assert forall|i: int| 0 <= i < init.len() implies (#[trigger] init[i]).len() <= max by {
                assert(init[i] == payloads[i]);
            }
        }
        appends_extend_whole(image, at, init, max);
        let before = image + log_of(init);
        let end = before.len() as int;
        let last = payloads[n];
        frame_has_its_size(last);
        assert(after.subrange(end, end + frame(last).len()) =~= frame(last));
        frame_extends_whole(before, after, at, end, last, max);
        assert(payloads.take(n) =~= init);
        assert forall|i: int| 0 <= i < n implies #[trigger] appended_entries(base, payloads)[i]
            == appended_entries(base, init)[i] by {
            assert(payloads.take(i) =~= init.take(i));
        }
        assert((old_entries + appended_entries(base, init)).push(Entry { lsn: end, data: last })
            =~= old_entries + appended_entries(base, payloads));
    }
}

/// Appends that happen at once are all recovered, behind what the log held before,
/// intact and in the order of their reservations, in whatever order their writes
/// completed. No two records have the same sequence number.
pub proof fn concurrent_appends_are_all_recovered(
    image: Seq<u8>,
    at: int,
    order: Seq<Reservation>,
    payloads: Seq<Seq<u8>>,
    max: u32,
)
    requires
        0 <= at,
        whole(image, at, image.len() as int, max),
        is_order_of(order, image.len() as int, payloads),
        all_fit(payloads, max),
    ensures
        ({
            let after = written(image, order);
            let all = entries(after, at, after.len() as int, max);
            &&& whole(after, at, after.len() as int, max)
            &&& all == entries(image, at, image.len() as int, max) + appended_entries(
                image.len() as int,
                payloads,
            )
            &&& forall|i: int, j: int|
                0 <= i < j < all.len() ==> (#[trigger] all[i]).lsn < (#[trigger] all[j]).lsn
        }),
{
    any_order_yields_the_log(image, order, payloads);
    appends_extend_whole(image, at, payloads, max);
    let after = written(image, order);
    let all = entries(after, at, after.len() as int, max);
    assert forall|i: int, j: int| 0 <= i < j < all.len() implies (#[trigger] all[i]).lsn < (
    #[trigger] all[j]).lsn by {
        lsns_grow(after, at, after.len() as int, max, i, j);
    }
}

} // verus!
