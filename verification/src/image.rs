//! What the bytes of a log mean.
//!
//! A log image is a sequence of frames, back to back. This module says which
//! records an image holds, where its intact part ends, and how both change when
//! the image grows or is cut off.

use crate::bytes::{from_le32, le32, le32_reads_back};
use crate::checksum::{changed_byte_is_noticed, crc32c_of, zeros_do_not_check};
use crate::config::RecoveryPolicy;
use crate::record::{
    frame, frame_has_its_size, frame_is_header_and_payload, frame_reads_back, framed_size, header_of,
};
use crate::store::{holds, same_below};
use vstd::prelude::*;

verus! {

/// What stands at one offset of an image.
pub enum Slot {
    /// Fewer bytes than a header are left.
    ShortHeader,
    /// The declared length exceeds the maximum record size.
    TooLong,
    /// Fewer bytes than the declared payload are left.
    ShortPayload,
    /// A record whose checksum does not match; the next one would begin at `next`.
    Damaged { next: int },
    /// A record whose checksum matches; the next one begins at `next`.
    Intact { payload: Seq<u8>, next: int },
}

/// Read the slot of `image` at offset `at`, taking no record longer than `max`.
pub open spec fn slot_at(image: Seq<u8>, at: int, max: u32) -> Slot {
    if at + 8 > image.len() {
        Slot::ShortHeader
    } else {
        let header = header_of(image.subrange(at, at + 8));
        let next = at + framed_size(header.len as nat);
        if header.len > max {
            Slot::TooLong
        } else if next > image.len() {
            Slot::ShortPayload
        } else {
            let payload = image.subrange(at + 8, next);
            if crc32c_of(image.subrange(at + 4, at + 8) + payload) == header.crc {
                Slot::Intact { payload, next }
            } else {
                Slot::Damaged { next }
            }
        }
    }
}

/// How far it is from `at` to `end`, or nothing if `at` is past it.
pub open spec fn distance(at: int, end: int) -> nat {
    if at < end {
        (end - at) as nat
    } else {
        0
    }
}

/// Where the run of intact records that begins at `at` ends.
pub open spec fn intact_end(image: Seq<u8>, at: int, max: u32) -> int
    decreases image.len() - at,
{
    match slot_at(image, at, max) {
        Slot::Intact { next, .. } => intact_end(image, next, max),
        _ => at,
    }
}

/// Whether the bytes of `image` from `at` to `end` are intact records, with
/// nothing before, between or after them.
pub open spec fn whole(image: Seq<u8>, at: int, end: int, max: u32) -> bool
    decreases end - at,
{
    if at >= end {
        at == end
    } else {
        match slot_at(image, at, max) {
            Slot::Intact { next, .. } => next <= end && whole(image, next, end, max),
            _ => false,
        }
    }
}

/// A record of an image: its offset and its payload.
#[verifier::ext_equal]
pub struct Entry {
    /// The offset at which its frame begins.
    pub lsn: int,
    /// Its payload.
    pub data: Seq<u8>,
}

/// The intact records of `image` from `at` on, up to the first slot that is not
/// intact or begins at or after `end`.
pub open spec fn entries(image: Seq<u8>, at: int, end: int, max: u32) -> Seq<Entry>
    decreases distance(at, end),
{
    if at >= end {
        Seq::empty()
    } else {
        match slot_at(image, at, max) {
            Slot::Intact { payload, next } => seq![Entry { lsn: at, data: payload }] + entries(
                image,
                next,
                end,
                max,
            ),
            _ => Seq::empty(),
        }
    }
}

/// Why a record is reported as damaged.
pub enum Fault {
    /// Its length prefix exceeds the maximum.
    TooLong,
    /// Its checksum does not match its bytes.
    Mismatch,
}

/// One item of an iteration over an image.
pub enum Item {
    /// An intact record.
    Record(Entry),
    /// A damaged record at `offset`.
    Damage { offset: int, fault: Fault },
}

/// The items that iterating over `image` from `at` to `end` yields.
pub open spec fn items(
    image: Seq<u8>,
    at: int,
    end: int,
    max: u32,
    policy: RecoveryPolicy,
) -> Seq<Item>
    decreases distance(at, end),
{
    if at >= end {
        Seq::empty()
    } else {
        match slot_at(image, at, max) {
            Slot::ShortHeader => Seq::empty(),
            Slot::ShortPayload => Seq::empty(),
            Slot::TooLong => seq![Item::Damage { offset: at, fault: Fault::TooLong }],
            Slot::Damaged { next } => {
                let first = seq![Item::Damage { offset: at, fault: Fault::Mismatch }];
                if policy == RecoveryPolicy::SkipBadRecords {
                    first + items(image, next, end, max, policy)
                } else {
                    first
                }
            },
            Slot::Intact { payload, next } => seq![
                Item::Record(Entry { lsn: at, data: payload }),
            ] + items(image, next, end, max, policy),
        }
    }
}

/// Intact records as items of an iteration.
pub open spec fn as_items(records: Seq<Entry>) -> Seq<Item> {
    records.map_values(|entry: Entry| Item::Record(entry))
}

/// The image of a log to which `payloads` were appended in turn.
pub open spec fn log_of(payloads: Seq<Seq<u8>>) -> Seq<u8>
    decreases payloads.len(),
{
    if payloads.len() == 0 {
        Seq::empty()
    } else {
        log_of(payloads.drop_last()) + frame(payloads.last())
    }
}

/// The records of a log to which `payloads` were appended in turn: each begins
/// where the frames before it end.
pub open spec fn entries_of(payloads: Seq<Seq<u8>>) -> Seq<Entry> {
    Seq::new(
        payloads.len(),
        |i: int| Entry { lsn: log_of(payloads.take(i)).len() as int, data: payloads[i] },
    )
}

/// Whether every payload is at most `max` bytes long.
pub open spec fn all_fit(payloads: Seq<Seq<u8>>, max: u32) -> bool {
    forall|i: int| 0 <= i < payloads.len() ==> (#[trigger] payloads[i]).len() <= max
}

/// An intact slot depends only on the bytes of its own frame: two images that
/// agree on them have the same record there.
pub proof fn slot_is_local(a: Seq<u8>, b: Seq<u8>, at: int, max: u32, end: int)
    requires
        0 <= at,
        same_below(a, b, end),
        slot_at(a, at, max) matches Slot::Intact { next, .. } && next <= end,
    ensures
        slot_at(b, at, max) == slot_at(a, at, max),
{
    assert(a.subrange(at, at + 8) =~= b.subrange(at, at + 8));
    let next = at + framed_size(header_of(a.subrange(at, at + 8)).len as nat);
    assert(a.subrange(at + 4, at + 8) =~= b.subrange(at + 4, at + 8));
    assert(a.subrange(at + 8, next) =~= b.subrange(at + 8, next));
}

/// Whole records depend only on their own bytes: an image that agrees on them is
/// whole there too, and holds the same records.
pub proof fn whole_is_local(a: Seq<u8>, b: Seq<u8>, at: int, end: int, max: u32)
    requires
        0 <= at,
        same_below(a, b, end),
        whole(a, at, end, max),
    ensures
        whole(b, at, end, max),
        entries(b, at, end, max) == entries(a, at, end, max),
    decreases end - at,
{
    if at < end {
        slot_is_local(a, b, at, max, end);
        match slot_at(a, at, max) {
            Slot::Intact { next, .. } => whole_is_local(a, b, next, end, max),
            _ => {},
        }
    }
}

/// Whole records from `at` on depend only on the bytes from `at` on.
pub proof fn whole_is_local_from(a: Seq<u8>, b: Seq<u8>, at: int, end: int, max: u32)
    requires
        0 <= at,
        a.len() == b.len(),
        forall|i: int| at <= i < a.len() ==> #[trigger] b[i] == a[i],
        whole(a, at, end, max),
    ensures
        whole(b, at, end, max),
        entries(b, at, end, max) == entries(a, at, end, max),
    decreases end - at,
{
    if at < end {
        let next = at + framed_size(header_of(a.subrange(at, at + 8)).len as nat);
        assert(a.subrange(at, at + 8) =~= b.subrange(at, at + 8));
        assert(a.subrange(at + 4, at + 8) =~= b.subrange(at + 4, at + 8));
        assert(a.subrange(at + 8, next) =~= b.subrange(at + 8, next));
        whole_is_local_from(a, b, next, end, max);
    }
}

/// Whole records reach no further than the image.
pub proof fn whole_lies_within(image: Seq<u8>, at: int, end: int, max: u32)
    requires
        0 <= at <= image.len(),
        whole(image, at, end, max),
    ensures
        at <= end <= image.len(),
    decreases end - at,
{
    if at < end {
        match slot_at(image, at, max) {
            Slot::Intact { next, .. } => whole_lies_within(image, next, end, max),
            _ => {},
        }
    }
}

/// Whole records up to `mid` and whole records from there on are whole records,
/// and nothing is lost or reordered where they meet.
pub proof fn whole_joins(image: Seq<u8>, at: int, mid: int, end: int, max: u32)
    requires
        whole(image, at, mid, max),
        whole(image, mid, end, max),
        mid <= end,
    ensures
        whole(image, at, end, max),
        entries(image, at, end, max) == entries(image, at, mid, max) + entries(
            image,
            mid,
            end,
            max,
        ),
    decreases mid - at,
{
    if at < mid {
        match slot_at(image, at, max) {
            Slot::Intact { payload, next } => {
                whole_joins(image, next, mid, end, max);
                assert(entries(image, at, end, max) =~= entries(image, at, mid, max) + entries(
                    image,
                    mid,
                    end,
                    max,
                ));
            },
            _ => {},
        }
    } else {
        assert(entries(image, at, mid, max) =~= Seq::<Entry>::empty());
        assert(entries(image, at, end, max) =~= entries(image, at, mid, max) + entries(
            image,
            mid,
            end,
            max,
        ));
    }
}

/// Iterating over whole records yields exactly those records, whatever the
/// recovery policy.
pub proof fn whole_iterates_cleanly(
    image: Seq<u8>,
    at: int,
    end: int,
    max: u32,
    policy: RecoveryPolicy,
)
    requires
        whole(image, at, end, max),
    ensures
        items(image, at, end, max, policy) == as_items(entries(image, at, end, max)),
    decreases end - at,
{
    if at < end {
        match slot_at(image, at, max) {
            Slot::Intact { payload, next } => {
                whole_iterates_cleanly(image, next, end, max, policy);
            },
            _ => {},
        }
    }
    assert(items(image, at, end, max, policy) =~= as_items(entries(image, at, end, max)));
}

/// The intact run from `at` is whole, it ends within the image unless it is empty, and
/// what stands behind it is not an intact record: recovery keeps every record up to the
/// first break and no other byte.
pub proof fn intact_run_is_whole(image: Seq<u8>, at: int, max: u32)
    requires
        0 <= at,
    ensures
        at <= intact_end(image, at, max),
        intact_end(image, at, max) <= image.len() || intact_end(image, at, max) == at,
        whole(image, at, intact_end(image, at, max), max),
        !(slot_at(image, intact_end(image, at, max), max) is Intact),
    decreases image.len() - at,
{
    match slot_at(image, at, max) {
        Slot::Intact { next, .. } => intact_run_is_whole(image, next, max),
        _ => {},
    }
}

/// The intact run passes over whole records.
pub proof fn intact_run_passes_whole(image: Seq<u8>, at: int, mid: int, max: u32)
    requires
        0 <= at,
        whole(image, at, mid, max),
    ensures
        intact_end(image, at, max) == intact_end(image, mid, max),
    decreases mid - at,
{
    if at < mid {
        match slot_at(image, at, max) {
            Slot::Intact { next, .. } => intact_run_passes_whole(image, next, mid, max),
            _ => {},
        }
    }
}

/// A whole image is recovered to its last byte.
pub proof fn whole_image_is_kept(image: Seq<u8>, at: int, max: u32)
    requires
        0 <= at,
        whole(image, at, image.len() as int, max),
    ensures
        intact_end(image, at, max) == image.len(),
{
    intact_run_passes_whole(image, at, image.len() as int, max);
}

/// Recovering what recovery left changes nothing: the truncated image is intact to
/// its end and holds the same records.
pub proof fn recovery_is_idempotent(image: Seq<u8>, at: int, max: u32)
    requires
        0 <= at <= image.len(),
    ensures
        ({
            let n = intact_end(image, at, max);
            &&& intact_end(image.take(n), at, max) == n
            &&& entries(image.take(n), at, n, max) == entries(image, at, n, max)
        }),
{
    let n = intact_end(image, at, max);
    intact_run_is_whole(image, at, max);
    whole_is_local(image, image.take(n), at, n, max);
    whole_image_is_kept(image.take(n), at, max);
}

/// A frame written at `at` is read back as the payload that was framed.
pub proof fn frame_is_intact(image: Seq<u8>, at: int, payload: Seq<u8>, max: u32)
    requires
        0 <= at,
        payload.len() <= max,
        at + frame(payload).len() <= image.len(),
        image.subrange(at, at + frame(payload).len()) == frame(payload),
    ensures
        slot_at(image, at, max) == (Slot::Intact {
            payload,
            next: at + framed_size(payload.len()),
        }),
{
    frame_has_its_size(payload);
    frame_reads_back(payload);
    let bytes = frame(payload);
    let framed = image.subrange(at, at + bytes.len());
    assert(image.subrange(at, at + 8) =~= framed.take(8));
    assert(image.subrange(at + 4, at + 8) =~= framed.subrange(4, 8));
    assert(image.subrange(at + 8, at + bytes.len()) =~= framed.skip(8));
}

/// A frame written behind whole records adds its record to them and disturbs none
/// of them.
pub proof fn frame_extends_whole(
    before: Seq<u8>,
    after: Seq<u8>,
    at: int,
    end: int,
    payload: Seq<u8>,
    max: u32,
)
    requires
        0 <= at,
        whole(before, at, end, max),
        payload.len() <= max,
        0 <= end,
        same_below(before, after, end),
        end + frame(payload).len() <= after.len(),
        after.subrange(end, end + frame(payload).len()) == frame(payload),
    ensures
        ({
            let next = end + framed_size(payload.len());
            &&& whole(after, at, next, max)
            &&& entries(after, at, next, max) == entries(before, at, end, max).push(
                Entry { lsn: end, data: payload },
            )
        }),
{
    let next = end + framed_size(payload.len());
    whole_is_local(before, after, at, end, max);
    frame_is_intact(after, end, payload, max);
    assert(whole(after, next, next, max));
    assert(entries(after, next, next, max) =~= Seq::<Entry>::empty());
    assert(whole(after, end, next, max));
    assert(entries(after, end, next, max) =~= seq![Entry { lsn: end, data: payload }]);
    whole_joins(after, at, end, next, max);
    assert(entries(after, at, next, max) =~= entries(before, at, end, max).push(
        Entry { lsn: end, data: payload },
    ));
}

/// The sequence numbers of whole records are what the frames before them add up
/// to: the first record begins at the start, each other one where the one before
/// it ends, and the last one ends at the end.
pub proof fn entries_are_back_to_back(image: Seq<u8>, at: int, end: int, max: u32)
    requires
        0 <= at,
        whole(image, at, end, max),
    ensures
        ({
            let records = entries(image, at, end, max);
            &&& records.len() == 0 <==> at == end
            &&& records.len() > 0 ==> {
                &&& records[0].lsn == at
                &&& records.last().lsn + framed_size(records.last().data.len()) == end
            }
            &&& forall|i: int|
                #![trigger records[i]]
                0 < i < records.len() ==> records[i].lsn == records[i - 1].lsn + framed_size(
                    records[i - 1].data.len(),
                )
            &&& forall|i: int|
                #![trigger records[i]]
                0 <= i < records.len() ==> records[i].data.len() <= max
        }),
    decreases end - at,
{
    if at < end {
        match slot_at(image, at, max) {
            Slot::Intact { payload, next } => {
                entries_are_back_to_back(image, next, end, max);
                let rest = entries(image, next, end, max);
                let records = entries(image, at, end, max);
                assert(records =~= seq![Entry { lsn: at, data: payload }] + rest);
                assert(rest.len() == 0 ==> records.last() == records[0]);
                assert(rest.len() > 0 ==> records.last() == rest.last());
                assert forall|i: int| 0 < i < records.len() implies (#[trigger] records[i]).lsn
                    == records[i - 1].lsn + framed_size(records[i - 1].data.len()) by {
                    assert(records[i] == rest[i - 1]);
                    if i > 1 {
                        assert(records[i - 1] == rest[i - 2]);
                    }
                }
                assert forall|i: int| 0 <= i < records.len() implies (
                #[trigger] records[i]).data.len() <= max by {
                    if i > 0 {
                        assert(records[i] == rest[i - 1]);
                    }
                }
            },
            _ => {},
        }
    }
}

/// Sequence numbers are unique and grow in append order.
pub proof fn lsns_grow(image: Seq<u8>, at: int, end: int, max: u32, i: int, j: int)
    requires
        0 <= at,
        whole(image, at, end, max),
        0 <= i < j < entries(image, at, end, max).len(),
    ensures
        ({
            let records = entries(image, at, end, max);
            records[i].lsn + framed_size(records[i].data.len()) <= records[j].lsn
        }),
    decreases j - i,
{
    entries_are_back_to_back(image, at, end, max);
    let records = entries(image, at, end, max);
    assert(records[j].lsn == records[j - 1].lsn + framed_size(records[j - 1].data.len()));
    if i < j - 1 {
        lsns_grow(image, at, end, max, i, j - 1);
    }
}

/// Every record that iteration yields is at most `max` bytes long, whatever the
/// image holds.
pub proof fn items_are_bounded(
    image: Seq<u8>,
    at: int,
    end: int,
    max: u32,
    policy: RecoveryPolicy,
)
    requires
        0 <= at,
    ensures
        forall|i: int|
            #![trigger items(image, at, end, max, policy)[i]]
            0 <= i < items(image, at, end, max, policy).len() ==> (items(
                image,
                at,
                end,
                max,
                policy,
            )[i] matches Item::Record(entry) ==> entry.data.len() <= max),
    decreases distance(at, end),
{
    let all = items(image, at, end, max, policy);
    if at < end {
        match slot_at(image, at, max) {
            Slot::Intact { payload, next } => {
                items_are_bounded(image, next, end, max, policy);
                let rest = items(image, next, end, max, policy);
                assert forall|i: int| #![trigger all[i]] 0 <= i < all.len() implies (
                all[i] matches Item::Record(entry) ==> entry.data.len() <= max) by {
                    if i > 0 {
                        assert(all[i] == rest[i - 1]);
                    }
                }
            },
            Slot::Damaged { next } => {
                if policy == RecoveryPolicy::SkipBadRecords {
                    items_are_bounded(image, next, end, max, policy);
                    let rest = items(image, next, end, max, policy);
                    assert forall|i: int| #![trigger all[i]] 0 <= i < all.len() implies (
                    all[i] matches Item::Record(entry) ==> entry.data.len() <= max) by {
                        if i > 0 {
                            assert(all[i] == rest[i - 1]);
                        }
                    }
                }
            },
            _ => {},
        }
    }
}

/// The image of appended payloads is whole, and its records are those payloads in
/// append order, each numbered by the offset at which its frame begins.
pub proof fn log_is_whole(payloads: Seq<Seq<u8>>, max: u32)
    requires
        all_fit(payloads, max),
    ensures
        whole(log_of(payloads), 0, log_of(payloads).len() as int, max),
        entries(log_of(payloads), 0, log_of(payloads).len() as int, max) == entries_of(payloads),
    decreases payloads.len(),
{
    let image = log_of(payloads);
    if payloads.len() == 0 {
        assert(entries(image, 0, 0, max) =~= entries_of(payloads));
    } else {
        let init = payloads.drop_last();
        assert(all_fit(init, max)) by {
            assert forall|i: int| 0 <= i < init.len() implies (#[trigger] init[i]).len() <= max by {
                assert(init[i] == payloads[i]);
            }
        }
        log_is_whole(init, max);
        let before = log_of(init);
        let end = before.len() as int;
        let last = payloads.last();
        assert(last == payloads[payloads.len() - 1]);
        frame_has_its_size(last);
        assert(image.subrange(end, end + frame(last).len()) =~= frame(last));
        frame_extends_whole(before, image, 0, end, last, max);
        assert(payloads.take(payloads.len() - 1) =~= init);
        assert forall|i: int| 0 <= i < init.len() implies entries_of(payloads)[i] == entries_of(
            init,
        )[i] by {
            assert(payloads.take(i) =~= init.take(i));
        }
        assert(entries_of(payloads) =~= entries_of(init).push(Entry { lsn: end, data: last }));
    }
}

/// Cutting an image of whole records at any offset loses exactly the records that
/// do not end at or before the cut. Recovery of what is left keeps the ones that
/// do, unchanged and in order, and never a partial record.
pub proof fn cut_keeps_a_prefix(image: Seq<u8>, at: int, cut: int, max: u32)
    requires
        0 <= at <= cut <= image.len(),
        whole(image, at, image.len() as int, max),
    ensures
        ({
            let kept = intact_end(image.take(cut), at, max);
            let survivors = entries(image.take(cut), at, kept, max);
            let all = entries(image, at, image.len() as int, max);
            &&& at <= kept <= cut
            &&& survivors.len() <= all.len()
            &&& survivors == all.take(survivors.len() as int)
            &&& forall|i: int|
                #![trigger all[i]]
                0 <= i < all.len() ==> (i < survivors.len() <==> all[i].lsn + framed_size(
                    all[i].data.len(),
                ) <= cut)
        }),
{
    let torn = image.take(cut);
    let len = image.len() as int;
    let kept = intact_end(torn, at, max);
    intact_run_is_whole(torn, at, max);
    whole_is_local(torn, image, at, kept, max);
    rest_is_whole(image, at, kept, len, max);
    whole_joins(image, at, kept, len, max);
    let survivors = entries(torn, at, kept, max);
    let lost = entries(image, kept, len, max);
    let all = entries(image, at, len, max);
    assert(all == survivors + lost);
    assert(survivors =~= all.take(survivors.len() as int));
    entries_are_back_to_back(image, at, kept, max);
    entries_are_back_to_back(image, kept, len, max);
    assert forall|i: int| #![trigger all[i]] 0 <= i < all.len() implies (i < survivors.len()
        <==> all[i].lsn + framed_size(all[i].data.len()) <= cut) by {
        if i < survivors.len() {
            assert(all[i] == survivors[i]);
            if i < survivors.len() - 1 {
                lsns_grow(image, at, kept, max, i, survivors.len() - 1);
            }
        } else {
            let k = i - survivors.len();
            assert(all[i] == lost[k]);
            if lost[0].lsn + framed_size(lost[0].data.len()) <= cut {
                match slot_at(image, kept, max) {
                    Slot::Intact { next, .. } => {
                        slot_is_local(image, torn, kept, max, cut);
                    },
                    _ => {},
                }
            }
            if k > 0 {
                lsns_grow(image, kept, len, max, 0, k);
            }
        }
    }
}

/// Where whole records are split at the end of some of them, the rest is whole.
pub proof fn rest_is_whole(image: Seq<u8>, at: int, mid: int, end: int, max: u32)
    requires
        0 <= at,
        whole(image, at, mid, max),
        whole(image, at, end, max),
        mid <= end,
    ensures
        whole(image, mid, end, max),
    decreases mid - at,
{
    if at < mid {
        match slot_at(image, at, max) {
            Slot::Intact { next, .. } => rest_is_whole(image, next, mid, end, max),
            _ => {},
        }
    }
}

/// Where one record of a whole image begins, the image can be split: the records
/// before it and the records from it on are whole.
pub proof fn record_splits_whole(image: Seq<u8>, at: int, end: int, max: u32, i: int)
    requires
        0 <= at,
        whole(image, at, end, max),
        0 <= i < entries(image, at, end, max).len(),
    ensures
        ({
            let all = entries(image, at, end, max);
            let lsn = all[i].lsn;
            let next = lsn + framed_size(all[i].data.len());
            &&& at <= lsn < next <= end
            &&& whole(image, at, lsn, max)
            &&& whole(image, lsn, end, max)
            &&& whole(image, at, next, max)
            &&& entries(image, at, lsn, max) == all.take(i)
            &&& entries(image, lsn, end, max) == all.skip(i)
            &&& entries(image, at, next, max) == all.take(i + 1)
            &&& slot_at(image, lsn, max) == (Slot::Intact { payload: all[i].data, next })
        }),
    decreases i,
{
    let all = entries(image, at, end, max);
    match slot_at(image, at, max) {
        Slot::Intact { payload, next } => {
            let rest = entries(image, next, end, max);
            assert(all =~= seq![Entry { lsn: at, data: payload }] + rest);
            if i == 0 {
                assert(entries(image, at, at, max) =~= all.take(0));
                assert(all.skip(0) =~= all);
                assert(whole(image, next, next, max));
                assert(whole(image, at, next, max));
                assert(entries(image, next, next, max) =~= Seq::<Entry>::empty());
                assert(entries(image, at, next, max) =~= all.take(1));
            } else {
                record_splits_whole(image, next, end, max, i - 1);
                let lsn = all[i].lsn;
                let after = lsn + framed_size(all[i].data.len());
                assert(all[i] == rest[i - 1]);
                assert(entries(image, at, lsn, max) =~= all.take(i));
                assert(all.skip(i) =~= rest.skip(i - 1));
                assert(entries(image, at, after, max) =~= all.take(i + 1));
            }
        },
        _ => {},
    }
}

/// A log cut off at any byte reads back as the longest prefix of what was appended
/// that the cut leaves complete.
pub proof fn torn_log_recovers_a_prefix(payloads: Seq<Seq<u8>>, cut: int, max: u32)
    requires
        all_fit(payloads, max),
        0 <= cut <= log_of(payloads).len(),
    ensures
        ({
            let torn = log_of(payloads).take(cut);
            let kept = intact_end(torn, 0, max);
            let survivors = entries(torn, 0, kept, max);
            let n = survivors.len() as int;
            &&& n <= payloads.len()
            &&& survivors == entries_of(payloads.take(n))
            &&& kept == log_of(payloads.take(n)).len() <= cut
            &&& n < payloads.len() ==> cut < log_of(payloads.take(n + 1)).len()
        }),
{
    let image = log_of(payloads);
    let len = image.len() as int;
    log_is_whole(payloads, max);
    cut_keeps_a_prefix(image, 0, cut, max);
    let torn = image.take(cut);
    let kept = intact_end(torn, 0, max);
    let survivors = entries(torn, 0, kept, max);
    let n = survivors.len() as int;
    let all = entries_of(payloads);
    let front = payloads.take(n);
    assert(survivors =~= entries_of(front)) by {
        assert forall|i: int| 0 <= i < n implies all[i] == entries_of(front)[i] by {
            assert(payloads.take(i) =~= front.take(i));
        }
    }
    intact_run_is_whole(torn, 0, max);
    whole_is_local(torn, image, 0, kept, max);
    entries_are_back_to_back(image, 0, kept, max);
    if n > 0 {
        log_grows_by_a_frame(payloads, n - 1);
        assert(survivors.last() == all[n - 1]);
    } else {
        assert(front =~= Seq::<Seq<u8>>::empty());
    }
    if n < payloads.len() {
        log_grows_by_a_frame(payloads, n);
        assert(all[n].lsn + framed_size(all[n].data.len()) > cut);
    }
}

/// Appending one more payload lengthens the image by that payload's frame.
pub proof fn log_grows_by_a_frame(payloads: Seq<Seq<u8>>, i: int)
    requires
        0 <= i < payloads.len(),
    ensures
        log_of(payloads.take(i + 1)) == log_of(payloads.take(i)) + frame(payloads[i]),
        log_of(payloads.take(i + 1)).len() == log_of(payloads.take(i)).len() + framed_size(
            payloads[i].len(),
        ),
{
    let longer = payloads.take(i + 1);
    assert(longer.drop_last() =~= payloads.take(i));
    assert(longer.last() == payloads[i]);
    frame_has_its_size(payloads[i]);
}

/// Bytes behind whole records that do not form a record are dropped by recovery,
/// and nothing else is.
pub proof fn garbage_tail_is_dropped(image: Seq<u8>, at: int, end: int, max: u32)
    requires
        0 <= at,
        whole(image, at, end, max),
        !(slot_at(image, end, max) is Intact),
    ensures
        intact_end(image, at, max) == end,
{
    intact_run_passes_whole(image, at, end, max);
}

/// Iteration that stops at damage reports it once, as its last item: everything
/// before it is an intact record.
pub proof fn stopping_reports_once(image: Seq<u8>, at: int, end: int, max: u32)
    requires
        0 <= at,
    ensures
        ({
            let all = items(image, at, end, max, RecoveryPolicy::StopAtFirstError);
            forall|i: int| 0 <= i < all.len() - 1 ==> #[trigger] all[i] is Record
        }),
    decreases distance(at, end),
{
    let policy = RecoveryPolicy::StopAtFirstError;
    let all = items(image, at, end, max, policy);
    if at < end {
        match slot_at(image, at, max) {
            Slot::Intact { next, .. } => {
                stopping_reports_once(image, next, end, max);
                let rest = items(image, next, end, max, policy);
                assert forall|i: int| 0 <= i < all.len() - 1 implies #[trigger] all[i] is Record by {
                    if i > 0 {
                        assert(all[i] == rest[i - 1]);
                    }
                }
            },
            _ => {},
        }
    }
}

/// Iteration that skips damage yields everything that stopping at it yields, in the
/// same order, before anything else.
pub proof fn skipping_yields_no_less(image: Seq<u8>, at: int, end: int, max: u32)
    requires
        0 <= at,
    ensures
        ({
            let stop = items(image, at, end, max, RecoveryPolicy::StopAtFirstError);
            let skip = items(image, at, end, max, RecoveryPolicy::SkipBadRecords);
            stop.len() <= skip.len() && stop == skip.take(stop.len() as int)
        }),
    decreases distance(at, end),
{
    let stop = items(image, at, end, max, RecoveryPolicy::StopAtFirstError);
    let skip = items(image, at, end, max, RecoveryPolicy::SkipBadRecords);
    if at < end {
        match slot_at(image, at, max) {
            Slot::Intact { next, .. } => {
                skipping_yields_no_less(image, next, end, max);
                let rest_stop = items(image, next, end, max, RecoveryPolicy::StopAtFirstError);
                let rest_skip = items(image, next, end, max, RecoveryPolicy::SkipBadRecords);
                assert forall|i: int| 0 <= i < stop.len() implies #[trigger] stop[i] == skip[i] by {
                    if i > 0 {
                        assert(stop[i] == rest_stop[i - 1]);
                        assert(skip[i] == rest_skip[i - 1]);
                        assert(rest_skip.take(rest_stop.len() as int)[i - 1] == rest_skip[i - 1]);
                    }
                }
            },
            _ => {},
        }
    }
    assert(stop =~= skip.take(stop.len() as int));
}

/// Zero bytes are no record: recovery stops at a gap that was never written.
pub proof fn zeros_are_no_record(image: Seq<u8>, at: int, max: u32)
    requires
        0 <= at,
        forall|i: int| at <= i < at + 8 && i < image.len() ==> #[trigger] image[i] == 0,
    ensures
        !(slot_at(image, at, max) is Intact),
{
    if at + 8 <= image.len() {
        let bytes = image.subrange(at, at + 8);
        let zeros = seq![0u8, 0, 0, 0];
        assert(bytes.subrange(0, 4) =~= zeros);
        assert(bytes.subrange(4, 8) =~= zeros);
        assert(from_le32(zeros) == 0) by {
            assert(0u32 | 0u32 << 8 | 0u32 << 16 | 0u32 << 24 == 0) by (bit_vector);
        }
        let payload = image.subrange(at + 8, at + 8);
        assert(image.subrange(at + 4, at + 8) + payload =~= zeros);
        zeros_do_not_check();
    }
}

/// One byte of a record that is changed, in its checksum or in its payload, is noticed:
/// the record is not taken for intact.
pub proof fn changed_byte_damages_the_record(image: Seq<u8>, at: int, max: u32, i: int, byte: u8)
    requires
        0 <= at,
        slot_at(image, at, max) matches Slot::Intact { next, .. } && at <= i < next,
        i < at + 4 || at + 8 <= i,
        byte != image[i],
    ensures
        slot_at(image.update(i, byte), at, max) == (Slot::Damaged {
            next: slot_at(image, at, max)->Intact_next,
        }),
{
    let changed = image.update(i, byte);
    let (good, bad) = (image.subrange(at, at + 8), changed.subrange(at, at + 8));
    let next = slot_at(image, at, max)->Intact_next;
    assert(good.subrange(4, 8) =~= bad.subrange(4, 8));
    assert(image.subrange(at + 4, at + 8) =~= changed.subrange(at + 4, at + 8));
    let body = image.subrange(at + 4, at + 8) + image.subrange(at + 8, next);
    let changed_body = changed.subrange(at + 4, at + 8) + changed.subrange(at + 8, next);
    if i < at + 4 {
        assert(changed_body =~= body);
        assert(good.subrange(0, 4) != bad.subrange(0, 4)) by {
            assert(good.subrange(0, 4)[i - at] != bad.subrange(0, 4)[i - at]);
        }
        le32_reads_back();
        assert(le32(from_le32(good.subrange(0, 4))) == good.subrange(0, 4));
        assert(le32(from_le32(bad.subrange(0, 4))) == bad.subrange(0, 4));
    } else {
        assert(good.subrange(0, 4) =~= bad.subrange(0, 4));
        assert(changed_body =~= body.update(i - (at + 4), byte));
        changed_byte_is_noticed(body, i - (at + 4), byte);
    }
}

/// Items that are intact records tell which records they are.
pub proof fn items_tell_their_records(a: Seq<Entry>, b: Seq<Entry>)
    requires
        as_items(a) == as_items(b),
    ensures
        a == b,
{
    assert(as_items(a).len() == a.len());
    assert(as_items(b).len() == b.len());
    assert forall|i: int| 0 <= i < a.len() implies #[trigger] a[i] == b[i] by {
        assert(as_items(a)[i] == Item::Record(a[i]));
        assert(as_items(b)[i] == Item::Record(b[i]));
    }
    assert(a =~= b);
}

/// What stands at an offset goes by the bytes there alone. Without a full header it is
/// torn; a length beyond the maximum is implausible; without as many bytes behind the
/// header as the length says it is torn; otherwise it is a record, intact or damaged by
/// whether its checksum is that of its length and payload.
pub proof fn slots_go_by_the_bytes(image: Seq<u8>, at: int, max: u32)
    requires
        0 <= at,
    ensures
        slot_at(image, at, max) is ShortHeader <==> image.len() < at + 8,
        at + 8 <= image.len() ==> {
            let len = from_le32(image.subrange(at + 4, at + 8));
            let next = at + 8 + len;
            &&& slot_at(image, at, max) is TooLong <==> len > max
            &&& slot_at(image, at, max) is ShortPayload <==> len <= max && image.len() < next
            &&& len <= max && next <= image.len() ==> {
                let sum = from_le32(image.subrange(at, at + 4));
                if sum == crc32c_of(image.subrange(at + 4, next)) {
                    slot_at(image, at, max) == (Slot::Intact {
                        payload: image.subrange(at + 8, next),
                        next,
                    })
                } else {
                    slot_at(image, at, max) == (Slot::Damaged { next })
                }
            }
        },
{
    if at + 8 <= image.len() {
        let header = image.subrange(at, at + 8);
        assert(header.subrange(0, 4) =~= image.subrange(at, at + 4));
        assert(header.subrange(4, 8) =~= image.subrange(at + 4, at + 8));
        let len = from_le32(image.subrange(at + 4, at + 8));
        let next = at + 8 + len;
        if len <= max && next <= image.len() {
            assert(image.subrange(at + 4, at + 8) + image.subrange(at + 8, next)
                =~= image.subrange(at + 4, next));
        }
    }
}

/// A record is intact exactly where the image holds its frame, and the next one begins
/// where the frame ends.
pub proof fn intact_records_are_frames(
    image: Seq<u8>,
    at: int,
    max: u32,
    payload: Seq<u8>,
    next: int,
)
    requires
        0 <= at,
    ensures
        slot_at(image, at, max) == (Slot::Intact { payload, next }) <==> payload.len() <= max
            && next == at + frame(payload).len() && holds(image, at, frame(payload)),
{
    if slot_at(image, at, max) == (Slot::Intact { payload, next }) {
        frame_is_header_and_payload(payload);
        le32_reads_back();
        let header = image.subrange(at, at + 8);
        let bytes = image.subrange(at, next);
        assert(header.subrange(0, 4) =~= bytes.take(4));
        assert(header.subrange(4, 8) =~= bytes.subrange(4, 8));
        assert(image.subrange(at + 4, at + 8) + payload =~= bytes.skip(4));
        assert(header.subrange(4, 8) =~= image.subrange(at + 4, at + 8));
        assert(le32(payload.len() as u32) == bytes.subrange(4, 8));
        assert(frame(payload).skip(4) =~= frame(payload).subrange(4, 8) + frame(payload).skip(8));
        assert(bytes.skip(4) =~= bytes.subrange(4, 8) + payload);
        assert(frame(payload).skip(4) == bytes.skip(4));
        assert(frame(payload) =~= frame(payload).take(4) + frame(payload).skip(4));
        assert(bytes =~= bytes.take(4) + bytes.skip(4));
        assert(image.subrange(at, at + frame(payload).len()) == frame(payload));
    }
    if payload.len() <= max && next == at + frame(payload).len() && holds(
        image,
        at,
        frame(payload),
    ) {
        frame_is_header_and_payload(payload);
        frame_is_intact(image, at, payload, max);
    }
}

/// The image of a log grows by the frame of each payload that is appended.
pub proof fn logs_grow_frame_by_frame(payloads: Seq<Seq<u8>>, payload: Seq<u8>)
    ensures
        log_of(Seq::empty()) == Seq::<u8>::empty(),
        log_of(payloads.push(payload)) == log_of(payloads) + frame(payload),
{
    assert(payloads.push(payload).drop_last() =~= payloads);
}

/// Appending some payloads and then others gives the frames of the first, then those of
/// the others.
pub proof fn logs_join(a: Seq<Seq<u8>>, b: Seq<Seq<u8>>)
    ensures
        log_of(a + b) == log_of(a) + log_of(b),
    decreases b.len(),
{
    if b.len() == 0 {
        assert(a + b =~= a);
        assert(log_of(a) + log_of(b) =~= log_of(a));
    } else {
        logs_join(a, b.drop_last());
        assert((a + b).drop_last() =~= a + b.drop_last());
        assert(log_of(a + b) =~= log_of(a) + log_of(b));
    }
}

/// The payloads of `records`.
pub open spec fn payloads_of(records: Seq<Entry>) -> Seq<Seq<u8>> {
    records.map_values(|entry: Entry| entry.data)
}

/// Frames back to back read as their payloads, in order, each numbered by the offset at
/// which its frame begins.
pub proof fn frames_are_records(image: Seq<u8>, at: int, payloads: Seq<Seq<u8>>, max: u32)
    requires
        0 <= at,
        all_fit(payloads, max),
        holds(image, at, log_of(payloads)),
    ensures
        ({
            let end = at + log_of(payloads).len();
            let records = entries(image, at, end, max);
            &&& whole(image, at, end, max)
            &&& records.len() == payloads.len()
            &&& forall|i: int|
                0 <= i < payloads.len() ==> (#[trigger] records[i]).data == payloads[i]
                    && records[i].lsn == at + log_of(payloads.take(i)).len()
        }),
    decreases payloads.len(),
{
    if payloads.len() > 0 {
        let n = payloads.len() - 1;
        let init = payloads.drop_last();
        let last = payloads[n];
        let log = log_of(payloads);
        assert(all_fit(init, max)) by {
            assert forall|i: int| 0 <= i < init.len() implies (#[trigger] init[i]).len() <= max by {
                assert(init[i] == payloads[i]);
            }
        }
        let end = at + log_of(init).len();
        let part = image.subrange(at, at + log.len());
        assert(image.subrange(at, end) =~= part.take(log_of(init).len() as int));
        assert(log.take(log_of(init).len() as int) =~= log_of(init));
        assert(image.subrange(end, end + frame(last).len()) =~= part.skip(
            log_of(init).len() as int,
        ));
        assert(log.skip(log_of(init).len() as int) =~= frame(last));
        frames_are_records(image, at, init, max);
        frame_has_its_size(last);
        frame_extends_whole(image, image, at, end, last, max);
        assert(payloads.take(n) =~= init);
        let records = entries(image, at, at + log.len(), max);
        assert forall|i: int| 0 <= i < payloads.len() implies (#[trigger] records[i]).data
            == payloads[i] && records[i].lsn == at + log_of(payloads.take(i)).len() by {
            if i < n {
                assert(records[i] == entries(image, at, end, max)[i]);
                assert(payloads.take(i) =~= init.take(i));
            }
        }
    }
}

/// Whole records are frames back to back: the image holds the frames of their payloads
/// and nothing else.
pub proof fn records_are_frames(image: Seq<u8>, at: int, end: int, max: u32)
    requires
        0 <= at <= image.len(),
        whole(image, at, end, max),
    ensures
        ({
            let payloads = payloads_of(entries(image, at, end, max));
            &&& all_fit(payloads, max)
            &&& end == at + log_of(payloads).len()
            &&& holds(image, at, log_of(payloads))
        }),
    decreases end - at,
{
    let records = entries(image, at, end, max);
    let payloads = payloads_of(records);
    if at < end {
        match slot_at(image, at, max) {
            Slot::Intact { payload, next } => {
                intact_records_are_frames(image, at, max, payload, next);
                records_are_frames(image, next, end, max);
                let rest = payloads_of(entries(image, next, end, max));
                assert(payloads =~= seq![payload] + rest);
                logs_join(seq![payload], rest);
                logs_grow_frame_by_frame(Seq::empty(), payload);
                assert(seq![payload] =~= Seq::<Seq<u8>>::empty().push(payload));
                assert(log_of(seq![payload]) =~= frame(payload));
                assert forall|i: int| 0 <= i < payloads.len() implies (
                #[trigger] payloads[i]).len() <= max by {
                    if i > 0 {
                        assert(payloads[i] == rest[i - 1]);
                    }
                }
                assert(image.subrange(at, end) =~= image.subrange(at, next) + image.subrange(
                    next,
                    end,
                ));
            },
            _ => {},
        }
    } else {
        assert(payloads =~= Seq::<Seq<u8>>::empty());
        assert(image.subrange(at, at) =~= Seq::<u8>::empty());
    }
}

/// The intact run from an offset is the longest run of whole records that begins there.
pub proof fn intact_run_is_the_longest(image: Seq<u8>, at: int, end: int, max: u32)
    requires
        0 <= at,
    ensures
        whole(image, at, intact_end(image, at, max), max),
        whole(image, at, end, max) ==> end <= intact_end(image, at, max),
{
    intact_run_is_whole(image, at, max);
    if whole(image, at, end, max) && at < end {
        intact_run_passes_whole(image, at, end, max);
        if at <= image.len() {
            whole_lies_within(image, at, end, max);
        }
        intact_run_is_whole(image, end, max);
    }
}

/// The records of an image are read one after the other for as long as an intact one
/// follows.
pub proof fn records_follow_each_other(image: Seq<u8>, at: int, end: int, max: u32)
    ensures
        at >= end ==> entries(image, at, end, max).len() == 0,
        at < end && !(slot_at(image, at, max) is Intact) ==> entries(image, at, end, max).len()
            == 0,
        at < end ==> (slot_at(image, at, max) matches Slot::Intact { payload, next } ==> {
            let records = entries(image, at, end, max);
            &&& records.len() > 0
            &&& records[0].lsn == at
            &&& records[0].data == payload
            &&& records.skip(1) == entries(image, next, end, max)
        }),
{
    if at < end {
        match slot_at(image, at, max) {
            Slot::Intact { next, .. } => {
                assert(entries(image, at, end, max).skip(1) =~= entries(image, next, end, max));
            },
            _ => {},
        }
    }
}

/// Iteration goes on from slot to slot. It ends at the end and at a torn record without
/// a word; it yields every intact record; it reports every record that is there in full
/// but damaged, under either policy, and goes on behind it only if it is to skip damage;
/// it reports an implausible length and ends there.
pub proof fn iteration_goes_from_slot_to_slot(
    image: Seq<u8>,
    at: int,
    end: int,
    max: u32,
    policy: RecoveryPolicy,
)
    requires
        0 <= at,
    ensures
        ({
            let all = items(image, at, end, max, policy);
            &&& at >= end ==> all.len() == 0
            &&& at < end ==> match slot_at(image, at, max) {
                Slot::ShortHeader => all.len() == 0,
                Slot::ShortPayload => all.len() == 0,
                Slot::TooLong => all.len() == 1 && all[0] == (Item::Damage {
                    offset: at,
                    fault: Fault::TooLong,
                }),
                Slot::Damaged { next } => {
                    &&& all.len() > 0
                    &&& all[0] == (Item::Damage { offset: at, fault: Fault::Mismatch })
                    &&& policy == RecoveryPolicy::StopAtFirstError ==> all.len() == 1
                    &&& policy == RecoveryPolicy::SkipBadRecords ==> all.skip(1) == items(
                        image,
                        next,
                        end,
                        max,
                        policy,
                    )
                },
                Slot::Intact { payload, next } => {
                    &&& all.len() > 0
                    &&& all[0] == Item::Record(Entry { lsn: at, data: payload })
                    &&& all.skip(1) == items(image, next, end, max, policy)
                },
            }
        }),
{
    let all = items(image, at, end, max, policy);
    if at < end {
        match slot_at(image, at, max) {
            Slot::Damaged { next } => {
                if policy == RecoveryPolicy::SkipBadRecords {
                    assert(all.skip(1) =~= items(image, next, end, max, policy));
                }
            },
            Slot::Intact { next, .. } => {
                assert(all.skip(1) =~= items(image, next, end, max, policy));
            },
            _ => {},
        }
    }
}

/// Iteration over whole records and what stands behind them yields the records, then
/// what iteration from there on yields.
pub proof fn iteration_passes_whole(
    image: Seq<u8>,
    at: int,
    mid: int,
    end: int,
    max: u32,
    policy: RecoveryPolicy,
)
    requires
        0 <= at,
        whole(image, at, mid, max),
        mid <= end,
    ensures
        items(image, at, end, max, policy) == as_items(entries(image, at, mid, max)) + items(
            image,
            mid,
            end,
            max,
            policy,
        ),
    decreases mid - at,
{
    let all = items(image, at, end, max, policy);
    let rest = items(image, mid, end, max, policy);
    if at < mid {
        match slot_at(image, at, max) {
            Slot::Intact { payload, next } => {
                iteration_passes_whole(image, next, mid, end, max, policy);
                assert(all =~= as_items(entries(image, at, mid, max)) + rest);
            },
            _ => {},
        }
    } else {
        assert(all =~= as_items(entries(image, at, mid, max)) + rest);
    }
}

/// Damage is never passed over in silence. If one byte of the payload or the checksum of
/// a record is changed, iteration yields the records before it and then reports the
/// damage at its offset, under either policy. If it stops at damage, that is all; if it
/// skips damage, the records behind it follow.
pub proof fn damage_is_reported_where_it_is(
    image: Seq<u8>,
    at: int,
    end: int,
    max: u32,
    policy: RecoveryPolicy,
    i: int,
    p: int,
    byte: u8,
)
    requires
        0 <= at,
        end <= image.len(),
        whole(image, at, end, max),
        0 <= i < entries(image, at, end, max).len(),
        ({
            let record = entries(image, at, end, max)[i];
            &&& record.lsn <= p < record.lsn + 8 + record.data.len()
            &&& p < record.lsn + 4 || record.lsn + 8 <= p
        }),
        byte != image[p],
    ensures
        ({
            let records = entries(image, at, end, max);
            let all = items(image.update(p, byte), at, end, max, policy);
            let damage = Item::Damage { offset: records[i].lsn, fault: Fault::Mismatch };
            &&& policy == RecoveryPolicy::StopAtFirstError ==> all == as_items(
                records.take(i),
            ).push(damage)
            &&& policy == RecoveryPolicy::SkipBadRecords ==> all == as_items(
                records.take(i),
            ).push(damage) + as_items(records.skip(i + 1))
        }),
{
    let changed = image.update(p, byte);
    let records = entries(image, at, end, max);
    let lsn = records[i].lsn;
    let next = lsn + framed_size(records[i].data.len());
    record_splits_whole(image, at, end, max, i);
    changed_byte_damages_the_record(image, lsn, max, p, byte);
    whole_is_local(image, changed, at, lsn, max);
    iteration_passes_whole(changed, at, lsn, end, max, policy);
    iteration_goes_from_slot_to_slot(changed, lsn, end, max, policy);
    assert(whole(image, next, next, max));
    assert(whole(image, lsn, next, max));
    rest_is_whole(image, lsn, next, end, max);
    whole_is_local_from(image, changed, next, end, max);
    whole_iterates_cleanly(changed, next, end, max, policy);
    records_follow_each_other(image, lsn, end, max);
    assert(records.skip(i).skip(1) =~= records.skip(i + 1));
    let damage = Item::Damage { offset: lsn, fault: Fault::Mismatch };
    let rest = items(changed, lsn, end, max, policy);
    if policy == RecoveryPolicy::StopAtFirstError {
        assert(items(changed, at, end, max, policy) =~= as_items(records.take(i)).push(damage));
    } else {
        assert(rest =~= seq![damage] + rest.skip(1));
        assert(items(changed, at, end, max, policy) =~= as_items(records.take(i)).push(damage)
            + as_items(records.skip(i + 1)));
    }
}

/// Records as items are those records, one for one.
pub proof fn items_are_their_records(records: Seq<Entry>, i: int)
    requires
        0 <= i < records.len(),
    ensures
        as_items(records).len() == records.len(),
        as_items(records)[i] == Item::Record(records[i]),
{
}

} // verus!
