//! Segmented storage.
//!
//! A [`SegmentedStore`] presents one continuous byte address space, striped across
//! fixed-size segment files in a directory. A write or read that crosses a segment
//! boundary is split across the files, so a record may span boundaries freely.
//! Bounded segments keep recovery time bounded and let old segments be dropped.
//!
//! This module decides: which part of which segment a byte range lies in, which
//! segments a truncation keeps, which ones still need a flush, where the log begins
//! after its front was dropped. It touches no file; whoever does performs what it
//! says and reports back.

use crate::bytes::{from_le32, from_le64, le32, le32_bytes, le32_reads_back, le64, le64_bytes, le64_reads_back, read_le32, read_le64};
use crate::checksum::{checksum, crc32c_of};
use crate::decimal::{
    as_u64, numerals, numerals_are_padded, padded, padded_has_its_width, padded_reads_back, padded_sorts, push_padded,
    read_u64, sorts_before, value,
};
use crate::error::{is_own_io, WalError};
use crate::store::{clamped, least, overwrite, readable};
use vstd::arithmetic::div_mod::{
    lemma_div_is_ordered, lemma_fundamental_div_mod, lemma_fundamental_div_mod_converse,
    lemma_mod_bound,
};
use vstd::prelude::*;
use vstd::slice::slice_subrange;
use vstd::string::*;

verus! {

/// The fixed width of a segment file name, in zero-padded decimal digits: wide
/// enough for any index, so that names sort as the indices do.
pub const NAME_DIGITS: usize = 20;

/// Name of the file that records where the log begins after its front was dropped.
pub const HEAD_FILE: &'static str = "head";

/// Size of the head marker: an 8-byte offset and its 4-byte checksum.
pub const HEAD_FILE_LEN: usize = 12;

/// The file name of segment `index`.
pub open spec fn name_of(index: u64) -> Seq<char> {
    padded(index as nat, NAME_DIGITS as nat) + ".wal"@
}

/// The segment whose file has the name `name`, or `None` if it is not the name of
/// a segment file.
pub open spec fn index_of(name: Seq<char>) -> Option<u64> {
    if name.len() == NAME_DIGITS + 4 && name.skip(NAME_DIGITS as int) == ".wal"@ {
        as_u64(name.take(NAME_DIGITS as int))
    } else {
        None
    }
}

/// Every segment is found again by its file name.
pub proof fn names_read_back(index: u64)
    ensures
        index_of(name_of(index)) == Some(index),
{
    reveal_strlit(".wal");
    reveal_with_fuel(numerals, 21);
    let digits = padded(index as nat, NAME_DIGITS as nat);
    padded_has_its_width(index as nat, NAME_DIGITS as nat);
    padded_reads_back(index as nat, NAME_DIGITS as nat);
    let name = name_of(index);
    assert(name.take(NAME_DIGITS as int) =~= digits);
    assert(name.skip(NAME_DIGITS as int) =~= ".wal"@);
}

/// A name is that of a segment only if it is the segment's own name, so no two files
/// are taken for the same segment.
pub proof fn only_own_names_are_read(name: Seq<char>, index: u64)
    requires
        index_of(name) == Some(index),
    ensures
        name == name_of(index),
{
    let digits = name.take(NAME_DIGITS as int);
    numerals_are_padded(digits, index as nat);
    assert(name =~= digits + name.skip(NAME_DIGITS as int));
}

/// The file of a segment is named by twenty digits that denote its index, then `.wal`.
pub proof fn names_spell_the_index(index: u64)
    ensures
        name_of(index).len() == 24,
        name_of(index).skip(20) == ".wal"@,
        value(name_of(index).take(20)) == Some(index as nat),
{
    names_read_back(index);
    reveal_strlit(".wal");
    padded_has_its_width(index as nat, NAME_DIGITS as nat);
}

/// A name is read as an index exactly if it is twenty digits that denote it, then `.wal`.
pub proof fn names_are_read_digit_by_digit(name: Seq<char>, index: u64)
    ensures
        index_of(name) == Some(index) <==> name.len() == 24 && name.skip(20) == ".wal"@ && value(
            name.take(20),
        ) == Some(index as nat),
{
}

/// The names of segment files sort as the segments do.
pub proof fn names_sort_like_segments(a: u64, b: u64)
    requires
        a < b,
    ensures
        sorts_before(name_of(a), name_of(b)),
{
    reveal_with_fuel(numerals, 21);
    let width = NAME_DIGITS as nat;
    padded_has_its_width(a as nat, width);
    padded_has_its_width(b as nat, width);
    padded_sorts(a as nat, b as nat, width);
    let (s, t) = (padded(a as nat, width), padded(b as nat, width));
    let k = choose|k: int|
        0 <= k < s.len() && k < t.len() && #[trigger] s.take(k) == t.take(k) && s[k] < t[k];
    assert(name_of(a).take(k) =~= s.take(k));
    assert(name_of(b).take(k) =~= t.take(k));
    assert(name_of(a).take(k) == name_of(b).take(k));
}

/// The file name of segment `index`: zero-padded decimal, then `.wal`.
pub fn segment_name(index: u64) -> (name: String)
    ensures
        name@ == name_of(index),
{
    let mut name = String::new();
    push_padded(&mut name, index, NAME_DIGITS);
    name.append(".wal");
    assert(name@ =~= name_of(index));
    name
}

/// The index of the segment whose file has the name `name`. Only names of exactly
/// the expected shape are accepted, so unrelated files are ignored.
pub fn parse_segment_name(name: &str) -> (index: Option<u64>)
    ensures
        index == index_of(name@),
{
    proof {
        reveal_strlit(".wal");
    }
    if name.unicode_len() != NAME_DIGITS + 4 {
        return None;
    }
    let ghost suffix = name@.skip(NAME_DIGITS as int);
    if name.get_char(NAME_DIGITS) != '.' || name.get_char(NAME_DIGITS + 1) != 'w' || name.get_char(
        NAME_DIGITS + 2,
    ) != 'a' || name.get_char(NAME_DIGITS + 3) != 'l' {
        assert(suffix[0] == name@[20] && suffix[1] == name@[21] && suffix[2] == name@[22]
            && suffix[3] == name@[23]);
        return None;
    }
    assert(suffix =~= ".wal"@);
    read_u64(name, NAME_DIGITS)
}

/// The head marker for `head`: the offset, then its checksum.
pub open spec fn marker_of(head: u64) -> Seq<u8> {
    le64(head) + le32(crc32c_of(le64(head)))
}

/// The offset that the head marker `bytes` vouches for, if it vouches for any.
pub open spec fn head_of(bytes: Seq<u8>) -> Option<u64> {
    if bytes.len() >= HEAD_FILE_LEN && crc32c_of(bytes.subrange(0, 8)) == from_le32(
        bytes.subrange(8, 12),
    ) {
        Some(from_le64(bytes.subrange(0, 8)))
    } else {
        None
    }
}

/// A head marker that was written in full gives back the head.
pub proof fn marker_reads_back(head: u64)
    ensures
        head_of(marker_of(head)) == Some(head),
        marker_of(head).len() == HEAD_FILE_LEN,
{
    le64_reads_back();
    le32_reads_back();
    assert(marker_of(head).subrange(0, 8) =~= le64(head));
    assert(marker_of(head).subrange(8, 12) =~= le32(
        crc32c_of(le64(head)),
    ));
}

/// A head marker that was torn off is not trusted, so the whole log is read.
pub proof fn torn_marker_is_ignored(head: u64, cut: int)
    requires
        0 <= cut < HEAD_FILE_LEN,
    ensures
        head_of(marker_of(head).take(cut)) is None,
{
    marker_reads_back(head);
}

/// A head marker is the eight bytes of the head and the four of their checksum, and it
/// vouches for that head. Bytes vouch for a head only if they begin with its marker.
pub proof fn markers_vouch_for_their_head(bytes: Seq<u8>, head: u64)
    ensures
        marker_of(head).len() == 12,
        marker_of(head).take(8) == le64(head),
        marker_of(head).skip(8) == le32(crc32c_of(le64(head))),
        head_of(bytes) == Some(head) <==> bytes.len() >= 12 && bytes.take(12) == marker_of(head),
{
    le64_reads_back();
    le32_reads_back();
    marker_reads_back(head);
    assert(marker_of(head).take(8) =~= le64(head));
    assert(marker_of(head).skip(8) =~= le32(crc32c_of(le64(head))));
    if bytes.len() >= 12 {
        assert(bytes.take(12).take(8) =~= bytes.subrange(0, 8));
        assert(bytes.take(12).skip(8) =~= bytes.subrange(8, 12));
        if head_of(bytes) == Some(head) {
            assert(le64(from_le64(bytes.subrange(0, 8))) == bytes.subrange(0, 8));
            assert(le32(from_le32(bytes.subrange(8, 12))) == bytes.subrange(8, 12));
            assert(bytes.take(12) =~= marker_of(head));
        }
        if bytes.take(12) == marker_of(head) {
            assert(bytes.subrange(0, 8) == le64(head));
            assert(bytes.subrange(8, 12) == le32(crc32c_of(le64(head))));
        }
    }
}

/// The head marker for `head`, given the checksum of the head's bytes.
pub fn marker_with(head: u64, crc: u32) -> (bytes: Vec<u8>)
    ensures
        bytes@ == le64(head) + le32(crc),
{
    let mut bytes = le64_bytes(head);
    let crc_bytes = le32_bytes(crc);
    bytes.extend_from_slice(crc_bytes.as_slice());
    assert(bytes@ =~= le64(head) + le32(crc));
    bytes
}

/// The bytes of the head marker for `head`.
///
/// The marker is checksummed, so that a torn write of the marker itself is noticed
/// when it is read rather than trusted: it must never make recovery skip records.
pub fn head_marker(head: u64) -> (bytes: Vec<u8>)
    ensures
        bytes@ == marker_of(head),
{
    let head_bytes = le64_bytes(head);
    marker_with(head, checksum(head_bytes.as_slice()))
}

/// Read a head marker. One that is too short, or whose checksum does not match,
/// says nothing.
pub fn parse_head_marker(bytes: &[u8]) -> (head: Option<u64>)
    ensures
        head == head_of(bytes@),
{
    if bytes.len() < HEAD_FILE_LEN {
        return None;
    }
    let head_bytes = slice_subrange(bytes, 0, 8);
    let head = read_le64(head_bytes);
    let stored = read_le32(slice_subrange(bytes, 8, HEAD_FILE_LEN));
    vouched(head, stored, checksum(head_bytes))
}

/// The head that a marker names, if the checksum it holds is the computed one.
pub fn vouched(head: u64, stored: u32, computed: u32) -> (vouched: Option<u64>)
    ensures
        vouched == (if computed == stored {
            Some(head)
        } else {
            None
        }),
{
    if computed == stored {
        Some(head)
    } else {
        None
    }
}

/// How the bytes of a segmented log lie on disk.
#[verifier::ext_equal]
pub struct Layout {
    /// The directory that holds the segment files.
    pub dir: Seq<char>,
    /// The size of a segment in bytes.
    pub size: u64,
    /// The end of the highest write.
    pub written: u64,
    /// The lowest segment that may hold writes that no flush has been begun for.
    pub synced_from: u64,
    /// The lowest offset still present.
    pub head: u64,
}

impl Layout {
    /// Segments hold at least a byte, and the flush window begins at or below the end
    /// of what was written.
    pub open spec fn wf(self) -> bool {
        &&& self.size > 0
        &&& self.synced_from * self.size <= self.written
    }

    /// The segment that holds the last written byte.
    pub open spec fn active(self) -> int {
        seg(self.size, self.written - 1)
    }

    /// The lowest and the highest segment that a sync has to flush, if there is
    /// anything to flush.
    pub open spec fn window(self) -> Option<(u64, u64)> {
        if self.written == 0 {
            None
        } else {
            Some((self.synced_from, self.active() as u64))
        }
    }

    /// Whether a sync that began now would flush segment `s`.
    pub open spec fn window_holds(self, s: int) -> bool {
        self.written > 0 && self.synced_from <= s <= self.active()
    }

    /// After `len` bytes were written at `offset`.
    pub open spec fn after_write(self, offset: u64, len: int) -> Self {
        let end = least(offset + len, u64::MAX as int);
        Layout {
            written: if self.written < end {
                end as u64
            } else {
                self.written
            },
            synced_from: if len > 0 {
                least(self.synced_from as int, seg(self.size, offset as int)) as u64
            } else {
                self.synced_from
            },
            ..self
        }
    }

    /// After everything from `len` on was discarded. The head stays where it is.
    pub open spec fn after_truncation(self, len: u64) -> Self {
        Layout {
            written: len,
            synced_from: least(self.synced_from as int, seg(self.size, len as int)) as u64,
            ..self
        }
    }

    /// After a sync took the window. The active segment may still grow, so it stays.
    pub open spec fn after_window(self) -> Self {
        match self.window() {
            Some((_, active)) => Layout { synced_from: active, ..self },
            None => self,
        }
    }

    /// After the flush of a window that began at `from` failed.
    pub open spec fn after_failed_flush(self, from: u64) -> Self {
        Layout { synced_from: least(self.synced_from as int, from as int) as u64, ..self }
    }
}

/// A layout is in order if its segments hold something and its window begins within what
/// was written.
pub proof fn layouts_are_in_order(layout: Layout)
    ensures
        layout.wf() <==> layout.size > 0 && layout.synced_from * layout.size <= layout.written,
{
}

/// The segment that holds offset `p`.
pub open spec fn seg(size: u64, p: int) -> int {
    p / (size as int)
}

/// Where offset `p` lies within its segment.
pub open spec fn local(size: u64, p: int) -> int {
    p % (size as int)
}

/// The contents of segment file `index`; a file that does not exist has none.
pub open spec fn contents(files: Map<u64, Seq<u8>>, index: int) -> Seq<u8> {
    if files.contains_key(index as u64) {
        files[index as u64]
    } else {
        Seq::empty()
    }
}

/// The byte that the segment files hold at offset `p`, if they hold one.
pub open spec fn held(files: Map<u64, Seq<u8>>, size: u64, p: int) -> Option<u8> {
    let file = contents(files, seg(size, p));
    let at = local(size, p);
    if at < file.len() {
        Some(file[at])
    } else {
        None
    }
}

/// The byte of `file` at `at`. What the file does not hold is zero.
pub open spec fn file_byte(file: Seq<u8>, at: int) -> u8 {
    if at < file.len() {
        file[at]
    } else {
        0
    }
}

/// The byte of the log at offset `p`. What no file holds is zero.
pub open spec fn byte(files: Map<u64, Seq<u8>>, size: u64, p: int) -> u8 {
    file_byte(contents(files, seg(size, p)), local(size, p))
}

/// The log of `written` bytes whose segment files are `files`.
pub open spec fn flat(files: Map<u64, Seq<u8>>, size: u64, written: int) -> Seq<u8> {
    Seq::new(written as nat, |p: int| byte(files, size, p))
}

/// Whether the segment files hold nothing from `written` on: no byte, no file behind the
/// segment of `written`, and no file longer than a segment.
pub open spec fn tidy(files: Map<u64, Seq<u8>>, size: u64, written: int) -> bool {
    &&& forall|p: int| written <= p <= u64::MAX ==> #[trigger] held(files, size, p) is None
    &&& forall|index: u64| #[trigger]
        files.contains_key(index) ==> index <= seg(size, written) && files[index].len() <= size
}

/// How many of `rest` bytes from offset `pos` on lie in the segment of `pos`.
pub open spec fn chunk(size: u64, pos: int, rest: int) -> int {
    least(rest, size - local(size, pos))
}

/// Whether `p` lies in the segment of `pos`, within its chunk of `rest` bytes.
pub open spec fn in_chunk(size: u64, pos: int, rest: int, p: int) -> bool {
    &&& seg(size, p) == seg(size, pos)
    &&& local(size, pos) <= local(size, p) < local(size, pos) + chunk(size, pos, rest)
}

/// A chunk lies within the segment of its first byte, and offsets within it are
/// offsets within the file. If it is not the last, the next one begins its segment.
pub proof fn chunk_lies_in_a_segment(size: u64, pos: int, rest: int)
    requires
        size > 0,
        0 <= pos,
        0 < rest,
    ensures
        0 < chunk(size, pos, rest) <= rest,
        0 <= local(size, pos),
        local(size, pos) + chunk(size, pos, rest) <= size,
        chunk(size, pos, rest) < rest ==> local(size, pos + chunk(size, pos, rest)) == 0,
        forall|p: int|
            #![trigger seg(size, p)]
            #![trigger local(size, p)]
            0 <= p ==> {
                &&& 0 <= local(size, p)
                &&& pos <= p < pos + chunk(size, pos, rest) <==> in_chunk(size, pos, rest, p)
                &&& seg(size, p) == seg(size, pos) ==> p - pos == local(size, p) - local(size, pos)
            },
{
    lemma_mod_bound(pos, size as int);
    lemma_fundamental_div_mod(pos, size as int);
    let q = seg(size, pos);
    assert(q * size == size * q) by (nonlinear_arith);
    if chunk(size, pos, rest) < rest {
        assert((q + 1) * size == q * size + size) by (nonlinear_arith);
        lemma_fundamental_div_mod_converse(
            pos + chunk(size, pos, rest),
            size as int,
            q + 1,
            0,
        );
    }
    assert forall|p: int|
        #![trigger seg(size, p)]
        #![trigger local(size, p)]
        0 <= p implies {
        &&& 0 <= local(size, p)
        &&& pos <= p < pos + chunk(size, pos, rest) <==> in_chunk(size, pos, rest, p)
        &&& seg(size, p) == seg(size, pos) ==> p - pos == local(size, p) - local(size, pos)
    } by {
        lemma_mod_bound(p, size as int);
        lemma_fundamental_div_mod(p, size as int);
        if pos <= p < pos + chunk(size, pos, rest) {
            lemma_fundamental_div_mod_converse(p, size as int, q, local(size, pos) + (p - pos));
        }
    }
}

/// The segments partition the log: each offset lies in one segment, at its distance from
/// where the segment begins, and in no other.
pub proof fn segments_partition_the_log(size: u64, p: int, index: int)
    requires
        size > 0,
        0 <= p,
    ensures
        seg(size, p) * size <= p < (seg(size, p) + 1) * size,
        local(size, p) == p - seg(size, p) * size,
        index == seg(size, p) <==> index * size <= p && p < (index + 1) * size,
        index < seg(size, p) <==> (index + 1) * size <= p,
        index > seg(size, p) <==> index * size > p,
{
    let d = size as int;
    let q = seg(size, p);
    lemma_fundamental_div_mod(p, d);
    lemma_mod_bound(p, d);
    assert(q * d == d * q && (q + 1) * d == q * d + d) by (nonlinear_arith);
    assert((index + 1) * d == index * d + d) by (nonlinear_arith);
    if index < q {
        assert((index + 1) * d <= q * d) by (nonlinear_arith)
            requires
                index + 1 <= q,
                d > 0,
        ;
    } else if index > q {
        assert((q + 1) * d <= index * d) by (nonlinear_arith)
            requires
                q + 1 <= index,
                d > 0,
        ;
    }
}

/// The segment of an offset has an index that fits a `u64`.
proof fn quotient_fits(size: u64, p: int)
    requires
        size > 0,
        0 <= p <= u64::MAX,
    ensures
        0 <= seg(size, p) <= u64::MAX,
        0 <= local(size, p) < size,
{
    lemma_mod_bound(p, size as int);
    assert(0 <= p / (size as int) <= p) by (nonlinear_arith)
        requires
            0 <= p,
            size > 0,
    ;
}

/// The segment of an offset begins at or below it.
proof fn segment_begins_below(size: u64, p: int)
    requires
        size > 0,
        0 <= p,
    ensures
        seg(size, p) * size <= p,
{
    lemma_fundamental_div_mod(p, size as int);
    lemma_mod_bound(p, size as int);
    let q = seg(size, p);
    assert(q * size == size * q) by (nonlinear_arith);
}

/// One piece of a transfer: `len` bytes of the buffer, from `from` on, belong at
/// `local` in segment `index`.
#[verifier::ext_equal]
pub struct Piece {
    /// The segment.
    pub index: int,
    /// Where in the segment the piece begins.
    pub local: int,
    /// Where in the buffer the piece begins.
    pub from: int,
    /// How many bytes it has.
    pub len: int,
}

/// The pieces of a transfer of `rest` bytes at offset `pos`, of which the first
/// stands at `from` in the buffer.
pub open spec fn pieces(size: u64, pos: int, rest: int, from: int) -> Seq<Piece>
    decreases rest,
    when size > 0 && 0 <= pos
{
    if rest <= 0 {
        Seq::empty()
    } else {
        proof {
            chunk_lies_in_a_segment(size, pos, rest);
        }
        let n = chunk(size, pos, rest);
        seq![Piece { index: seg(size, pos), local: local(size, pos), from, len: n }] + pieces(
            size,
            pos + n,
            rest - n,
            from + n,
        )
    }
}

/// The pieces of a transfer tile it. Each lies within one segment, at the offset that its
/// place in the buffer stands for; each begins in the buffer where the one before it ends,
/// from the first byte to the last; and each but the last reaches the end of its segment.
pub proof fn pieces_tile_the_transfer(size: u64, pos: int, rest: int, from: int)
    requires
        size > 0,
        0 <= pos,
        0 <= rest,
    ensures
        ({
            let all = pieces(size, pos, rest, from);
            &&& all.len() == 0 <==> rest == 0
            &&& all.len() > 0 ==> all[0].from == from && all.last().from + all.last().len == from
                + rest
            &&& forall|k: int|
                0 <= k < all.len() ==> {
                    let piece = #[trigger] all[k];
                    &&& 0 < piece.len
                    &&& 0 <= piece.local
                    &&& piece.local + piece.len <= size
                    &&& piece.index * size + piece.local == pos + (piece.from - from)
                }
            &&& forall|k: int|
                #![trigger all[k]]
                0 < k < all.len() ==> all[k].from == all[k - 1].from + all[k - 1].len
            &&& forall|k: int|
                0 <= k < all.len() - 1 ==> (#[trigger] all[k]).local + all[k].len == size
        }),
    decreases rest,
{
    if rest > 0 {
        chunk_lies_in_a_segment(size, pos, rest);
        segments_partition_the_log(size, pos, 0);
        let n = chunk(size, pos, rest);
        let all = pieces(size, pos, rest, from);
        let less = pieces(size, pos + n, rest - n, from + n);
        pieces_tile_the_transfer(size, pos + n, rest - n, from + n);
        assert forall|k: int| 0 < k < all.len() implies #[trigger] all[k] == less[k - 1] by {}
        assert(less.len() > 0 ==> all.last() == less.last());
    }
}

/// The segment files after one piece of `bytes` was written.
pub open spec fn with_piece(files: Map<u64, Seq<u8>>, piece: Piece, bytes: Seq<u8>) -> Map<
    u64,
    Seq<u8>,
> {
    files.insert(
        piece.index as u64,
        overwrite(
            contents(files, piece.index),
            piece.local,
            bytes.subrange(piece.from, piece.from + piece.len),
        ),
    )
}

/// The segment files after the pieces of `bytes` were written in turn.
pub open spec fn stored(
    files: Map<u64, Seq<u8>>,
    pieces: Seq<Piece>,
    bytes: Seq<u8>,
) -> Map<u64, Seq<u8>>
    decreases pieces.len(),
{
    if pieces.len() == 0 {
        files
    } else {
        stored(with_piece(files, pieces[0], bytes), pieces.skip(1), bytes)
    }
}

/// What reading one piece gives: the bytes that the file holds, then zeros.
pub open spec fn piece_read(files: Map<u64, Seq<u8>>, piece: Piece) -> Seq<u8> {
    Seq::new(
        piece.len as nat,
        |i: int| file_byte(contents(files, piece.index), piece.local + i),
    )
}

/// What reading the pieces in turn gives.
pub open spec fn fetched(files: Map<u64, Seq<u8>>, pieces: Seq<Piece>) -> Seq<u8>
    decreases pieces.len(),
{
    if pieces.len() == 0 {
        Seq::empty()
    } else {
        piece_read(files, pieces[0]) + fetched(files, pieces.skip(1))
    }
}

/// Writing one piece changes the bytes of the piece and no other. Zeros appear only
/// in the same file, before the piece.
proof fn piece_is_written(
    files: Map<u64, Seq<u8>>,
    size: u64,
    pos: int,
    rest: int,
    from: int,
    bytes: Seq<u8>,
)
    requires
        size > 0,
        0 <= pos,
        0 < rest,
        pos + rest <= u64::MAX,
        0 <= from,
        from + rest <= bytes.len(),
    ensures
        ({
            let n = chunk(size, pos, rest);
            let piece = Piece { index: seg(size, pos), local: local(size, pos), from, len: n };
            let after = with_piece(files, piece, bytes);
            forall|p: int|
                #![trigger held(after, size, p)]
                0 <= p <= u64::MAX ==> if pos <= p < pos + n {
                    held(after, size, p) == Some(bytes[from + (p - pos)])
                } else {
                    ||| held(after, size, p) == held(files, size, p)
                    ||| {
                        &&& held(files, size, p) is None
                        &&& held(after, size, p) == Some(0u8)
                        &&& p < pos
                        &&& local(size, pos) > 0
                    }
                }
        }),
{
    let n = chunk(size, pos, rest);
    let at = local(size, pos);
    let index = seg(size, pos);
    let piece = Piece { index, local: at, from, len: n };
    let after = with_piece(files, piece, bytes);
    let part = bytes.subrange(from, from + n);
    let file = overwrite(contents(files, index), at, part);
    chunk_lies_in_a_segment(size, pos, rest);
    quotient_fits(size, pos);
    assert forall|p: int|
        #![trigger held(after, size, p)]
        0 <= p <= u64::MAX implies if pos <= p < pos + n {
        held(after, size, p) == Some(bytes[from + (p - pos)])
    } else {
        ||| held(after, size, p) == held(files, size, p)
        ||| {
            &&& held(files, size, p) is None
            &&& held(after, size, p) == Some(0u8)
            &&& p < pos
            &&& local(size, pos) > 0
        }
    } by {
        quotient_fits(size, p);
        let q = seg(size, p);
        let r = local(size, p);
        if q == index {
            assert(contents(after, q) == file);
            if at <= r < at + n {
                assert(file[r] == part[r - at]);
            }
        } else {
            assert(q as u64 != index as u64);
            assert(contents(after, q) == contents(files, q));
        }
    }
}

/// A write that is split across segments writes its bytes and no others. Zeros appear
/// only before it.
proof fn pieces_are_written(
    files: Map<u64, Seq<u8>>,
    size: u64,
    pos: int,
    rest: int,
    from: int,
    bytes: Seq<u8>,
)
    requires
        size > 0,
        0 <= pos,
        0 <= rest,
        pos + rest <= u64::MAX,
        0 <= from,
        from + rest <= bytes.len(),
    ensures
        ({
            let after = stored(files, pieces(size, pos, rest, from), bytes);
            forall|p: int|
                #![trigger held(after, size, p)]
                0 <= p <= u64::MAX ==> if pos <= p < pos + rest {
                    held(after, size, p) == Some(bytes[from + (p - pos)])
                } else {
                    ||| held(after, size, p) == held(files, size, p)
                    ||| {
                        &&& held(files, size, p) is None
                        &&& held(after, size, p) == Some(0u8)
                        &&& p < pos
                        &&& local(size, pos) > 0
                    }
                }
        }),
    decreases rest,
{
    if rest > 0 {
        chunk_lies_in_a_segment(size, pos, rest);
        let n = chunk(size, pos, rest);
        let all = pieces(size, pos, rest, from);
        let less = pieces(size, pos + n, rest - n, from + n);
        assert(all.skip(1) =~= less);
        let mid = with_piece(files, all[0], bytes);
        let after = stored(files, all, bytes);
        assert(after == stored(mid, less, bytes));
        piece_is_written(files, size, pos, rest, from, bytes);
        pieces_are_written(mid, size, pos + n, rest - n, from + n, bytes);
        assert forall|p: int|
            #![trigger held(after, size, p)]
            0 <= p <= u64::MAX implies if pos <= p < pos + rest {
            held(after, size, p) == Some(bytes[from + (p - pos)])
        } else {
            ||| held(after, size, p) == held(files, size, p)
            ||| {
                &&& held(files, size, p) is None
                &&& held(after, size, p) == Some(0u8)
                &&& p < pos
                &&& local(size, pos) > 0
            }
        } by {
            assert(held(mid, size, p) == held(mid, size, p));
        }
    }
}

/// A write that is split across segments makes no file but those of its segments, and
/// none longer than a segment.
proof fn pieces_fit(
    files: Map<u64, Seq<u8>>,
    size: u64,
    pos: int,
    rest: int,
    from: int,
    bytes: Seq<u8>,
    index: u64,
)
    requires
        size > 0,
        0 <= pos,
        0 <= rest,
        pos + rest <= u64::MAX,
        0 <= from,
        from + rest <= bytes.len(),
    ensures
        ({
            let after = stored(files, pieces(size, pos, rest, from), bytes);
            after.contains_key(index) ==> {
                &&& files.contains_key(index) || index <= seg(size, pos + rest)
                &&& after[index].len() <= size || files.contains_key(index) && files[index].len()
                    > size
            }
        }),
    decreases rest,
{
    if rest > 0 {
        chunk_lies_in_a_segment(size, pos, rest);
        quotient_fits(size, pos);
        let n = chunk(size, pos, rest);
        let all = pieces(size, pos, rest, from);
        assert(all.skip(1) =~= pieces(size, pos + n, rest - n, from + n));
        let mid = with_piece(files, all[0], bytes);
        pieces_fit(mid, size, pos + n, rest - n, from + n, bytes, index);
        lemma_div_is_ordered(pos, pos + rest, size as int);
    }
}

/// A write that is split across segments is one write to the log: a gap before it
/// reads as zeros, and the files hold nothing behind the new end.
pub proof fn write_is_flat(
    files: Map<u64, Seq<u8>>,
    size: u64,
    written: int,
    offset: int,
    bytes: Seq<u8>,
)
    requires
        size > 0,
        0 <= written <= u64::MAX,
        tidy(files, size, written),
        0 <= offset,
        offset + bytes.len() <= u64::MAX,
    ensures
        ({
            let after = stored(files, pieces(size, offset, bytes.len() as int, 0), bytes);
            let end = offset + bytes.len();
            let total = if written < end {
                end
            } else {
                written
            };
            &&& flat(after, size, total) == overwrite(flat(files, size, written), offset, bytes)
            &&& tidy(after, size, total)
        }),
{
    let after = stored(files, pieces(size, offset, bytes.len() as int, 0), bytes);
    let before = flat(files, size, written);
    let end = offset + bytes.len();
    let total = if written < end {
        end
    } else {
        written
    };
    pieces_are_written(files, size, offset, bytes.len() as int, 0, bytes);
    assert forall|p: int| 0 <= p < total implies #[trigger] flat(after, size, total)[p]
        == overwrite(before, offset, bytes)[p] by {
        assert(held(after, size, p) == held(after, size, p));
        if p >= written {
            assert(held(files, size, p) is None);
        }
    }
    assert(flat(after, size, total) =~= overwrite(before, offset, bytes));
    assert forall|index: u64| #[trigger] after.contains_key(index) implies index <= seg(size, total)
        && after[index].len() <= size by {
        pieces_fit(files, size, offset, bytes.len() as int, 0, bytes, index);
        lemma_div_is_ordered(written, total, size as int);
        lemma_div_is_ordered(end, total, size as int);
    }
    assert forall|p: int| total <= p <= u64::MAX implies #[trigger] held(after, size, p) is None by {
        assert(held(files, size, p) is None);
    }
}

/// A read that is split across segments is one read of the log.
pub proof fn read_is_flat(
    files: Map<u64, Seq<u8>>,
    size: u64,
    written: int,
    offset: int,
    len: int,
    from: int,
)
    requires
        size > 0,
        0 <= offset,
        0 <= len,
        offset + len <= written,
    ensures
        fetched(files, pieces(size, offset, len, from)) == flat(files, size, written).subrange(
            offset,
            offset + len,
        ),
    decreases len,
{
    let all = pieces(size, offset, len, from);
    let log = flat(files, size, written);
    if len > 0 {
        chunk_lies_in_a_segment(size, offset, len);
        let n = chunk(size, offset, len);
        let less = pieces(size, offset + n, len - n, from + n);
        assert(all.skip(1) =~= less);
        read_is_flat(files, size, written, offset + n, len - n, from + n);
        let first = piece_read(files, all[0]);
        assert forall|i: int| 0 <= i < n implies #[trigger] first[i] == log[offset + i] by {
            let p = offset + i;
            assert(seg(size, p) == seg(size, offset));
        }
        assert(fetched(files, all) =~= log.subrange(offset, offset + len));
    } else {
        assert(fetched(files, all) =~= log.subrange(offset, offset + len));
    }
}

/// A read after a write gives what one flat store would give: the written bytes where
/// they were written, what was there before elsewhere, and zeros in between.
pub proof fn read_after_write(
    files: Map<u64, Seq<u8>>,
    size: u64,
    written: int,
    offset: int,
    bytes: Seq<u8>,
    from: int,
    want: int,
)
    requires
        size > 0,
        0 <= written <= u64::MAX,
        tidy(files, size, written),
        0 <= offset,
        offset + bytes.len() <= u64::MAX,
        0 <= from,
        0 <= want,
    ensures
        ({
            let after = stored(files, pieces(size, offset, bytes.len() as int, 0), bytes);
            let log = overwrite(flat(files, size, written), offset, bytes);
            let n = readable(log.len() as int, from, want);
            n > 0 ==> fetched(after, pieces(size, from, n, 0)) == log.subrange(from, from + n)
        }),
{
    let after = stored(files, pieces(size, offset, bytes.len() as int, 0), bytes);
    let log = overwrite(flat(files, size, written), offset, bytes);
    write_is_flat(files, size, written, offset, bytes);
    let n = readable(log.len() as int, from, want);
    if n > 0 {
        read_is_flat(after, size, log.len() as int, from, n, 0);
    }
}

/// After a write, the length that is recorded is that of the log the write leaves: as far
/// as the write reaches, or as far as the log did, whichever is further.
pub proof fn a_write_is_counted_exactly(layout: Layout, offset: u64, len: int)
    requires
        layout.wf(),
        0 <= len,
    ensures
        ({
            let after = layout.after_write(offset, len);
            &&& after.dir == layout.dir
            &&& after.size == layout.size
            &&& after.head == layout.head
            &&& offset + len <= layout.written ==> after.written == layout.written
            &&& layout.written <= offset + len <= u64::MAX ==> after.written == offset + len
            &&& offset + len > u64::MAX ==> after.written == u64::MAX
            &&& len == 0 ==> after.synced_from == layout.synced_from
            &&& len > 0 ==> {
                &&& after.synced_from <= layout.synced_from
                &&& after.synced_from * layout.size <= offset
                &&& after.synced_from == layout.synced_from || offset < (after.synced_from + 1)
                    * layout.size
            }
        }),
{
    quotient_fits(layout.size, offset as int);
    segments_partition_the_log(layout.size, offset as int, layout.synced_from as int);
}

/// The length that is recorded after a write is that of the flat log, whose bytes are
/// those of a flat store after the same write.
pub proof fn a_written_log_has_its_recorded_length(
    layout: Layout,
    files: Map<u64, Seq<u8>>,
    offset: u64,
    bytes: Seq<u8>,
)
    requires
        layout.wf(),
        tidy(files, layout.size, layout.written as int),
        offset + bytes.len() <= u64::MAX,
    ensures
        ({
            let after = stored(
                files,
                pieces(layout.size, offset as int, bytes.len() as int, 0),
                bytes,
            );
            let log = overwrite(
                flat(files, layout.size, layout.written as int),
                offset as int,
                bytes,
            );
            let written = layout.after_write(offset, bytes.len() as int).written;
            &&& written == log.len()
            &&& flat(after, layout.size, written as int) == log
            &&& tidy(after, layout.size, written as int)
        }),
{
    write_is_flat(files, layout.size, layout.written as int, offset as int, bytes);
}

/// After a truncation the log ends at the cut, whatever it held and however its segments
/// lie, and the window begins no later than before and no later than the cut.
pub proof fn a_truncated_log_ends_at_the_cut(layout: Layout, len: u64)
    requires
        layout.wf(),
    ensures
        ({
            let after = layout.after_truncation(len);
            &&& after.written == len
            &&& after.dir == layout.dir
            &&& after.size == layout.size
            &&& after.head == layout.head
            &&& after.synced_from <= layout.synced_from
            &&& after.synced_from * layout.size <= len
            &&& after.synced_from == layout.synced_from || len < (after.synced_from + 1)
                * layout.size
        }),
{
    quotient_fits(layout.size, len as int);
    segments_partition_the_log(layout.size, len as int, layout.synced_from as int);
}

/// The length that is recorded after a truncation is that of the flat log that is left:
/// the bytes below the cut, and no byte of what was cut off.
pub proof fn a_truncated_log_has_its_recorded_length(
    layout: Layout,
    files: Map<u64, Seq<u8>>,
    len: u64,
)
    requires
        layout.wf(),
        tidy(files, layout.size, layout.written as int),
        len <= layout.written,
    ensures
        ({
            let after = shrunk(files, layout.size, len);
            let log = flat(files, layout.size, layout.written as int);
            let written = layout.after_truncation(len).written;
            &&& flat(after, layout.size, written as int) == log.take(len as int)
            &&& flat(after, layout.size, written as int).len() == len
            &&& tidy(after, layout.size, written as int)
            &&& forall|offset: int|
                len <= offset ==> #[trigger] readable(written as int, offset, 1) == 0
        }),
{
    truncation_is_flat(files, layout.size, layout.written as int, len);
}

/// The window reaches from the lowest segment that may hold unflushed writes to the one
/// that holds the last byte, and there is none only for an empty log.
pub proof fn the_window_reaches_to_the_last_byte(layout: Layout, s: int)
    requires
        layout.wf(),
    ensures
        layout.window() is None <==> layout.written == 0,
        layout.window() matches Some((from, active)) ==> {
            &&& from == layout.synced_from
            &&& active * layout.size < layout.written <= (active + 1) * layout.size
            &&& layout.active() == active
        },
        layout.window_holds(s) <==> layout.written > 0 && layout.synced_from <= s && s
            * layout.size < layout.written,
{
    if layout.written > 0 {
        quotient_fits(layout.size, layout.written - 1);
        segments_partition_the_log(layout.size, layout.written - 1, s);
    }
}

/// Taking the window leaves only its last segment in it, and giving it back makes it
/// begin where it did, or lower. Nothing else changes.
pub proof fn the_window_is_taken_and_given_back(layout: Layout, from: u64)
    ensures
        layout.window() matches Some((_, active)) ==> layout.after_window().synced_from == active,
        layout.window() is None ==> layout.after_window() == layout,
        layout.after_window().dir == layout.dir,
        layout.after_window().size == layout.size,
        layout.after_window().written == layout.written,
        layout.after_window().head == layout.head,
        layout.after_failed_flush(from).synced_from <= from,
        layout.after_failed_flush(from).synced_from <= layout.synced_from,
        layout.after_failed_flush(from).synced_from == from || layout.after_failed_flush(
            from,
        ).synced_from == layout.synced_from,
        layout.after_failed_flush(from).dir == layout.dir,
        layout.after_failed_flush(from).size == layout.size,
        layout.after_failed_flush(from).written == layout.written,
        layout.after_failed_flush(from).head == layout.head,
{
}

/// What a truncation does to one segment file.
#[derive(Debug, Clone, Copy, PartialEq, Eq, Structural)]
pub enum Fate {
    /// It lies below the new end and stays as it is.
    Keep,
    /// It holds the new end and is cut to `len` bytes.
    Shrink { len: u64 },
    /// It lies entirely past the new end and is removed.
    Remove,
}

/// What truncating to `len` bytes does to segment `index`.
pub open spec fn fate_of(size: u64, len: u64, index: u64) -> Fate {
    if index > seg(size, len as int) {
        Fate::Remove
    } else if index == seg(size, len as int) {
        Fate::Shrink { len: local(size, len as int) as u64 }
    } else {
        Fate::Keep
    }
}

/// A truncation removes the segments that begin behind the cut, leaves those alone that
/// end at or before it, and cuts the one between to what lies before the cut.
pub proof fn a_segment_is_cut_where_the_log_is(size: u64, len: u64, index: u64)
    requires
        size > 0,
    ensures
        fate_of(size, len, index) is Remove <==> index * size > len,
        fate_of(size, len, index) is Keep <==> (index + 1) * size <= len,
        fate_of(size, len, index) matches Fate::Shrink { len: n } ==> index * size + n == len,
{
    quotient_fits(size, len as int);
    segments_partition_the_log(size, len as int, index as int);
}

/// `file` after its length was set to `len`.
pub open spec fn resized(file: Seq<u8>, len: int) -> Seq<u8> {
    Seq::new(len as nat, |i: int| file_byte(file, i))
}

/// The segment files after a truncation to `len` bytes.
pub open spec fn shrunk(files: Map<u64, Seq<u8>>, size: u64, len: u64) -> Map<u64, Seq<u8>> {
    Map::new(
        |index: u64| files.contains_key(index) && !(fate_of(size, len, index) is Remove),
        |index: u64|
            match fate_of(size, len, index) {
                Fate::Shrink { len } => resized(files[index], len as int),
                _ => files[index],
            },
    )
}

/// Truncating segment by segment sets the length of the log, and leaves nothing behind
/// the new end.
pub proof fn truncation_is_flat(files: Map<u64, Seq<u8>>, size: u64, written: int, len: u64)
    requires
        size > 0,
        0 <= written <= u64::MAX,
        tidy(files, size, written),
    ensures
        flat(shrunk(files, size, len), size, len as int) == resized(
            flat(files, size, written),
            len as int,
        ),
        len <= written ==> flat(shrunk(files, size, len), size, len as int) == flat(
            files,
            size,
            written,
        ).take(len as int),
        tidy(shrunk(files, size, len), size, len as int),
{
    let d = size as int;
    let after = shrunk(files, size, len);
    quotient_fits(size, len as int);
    lemma_fundamental_div_mod(len as int, d);
    assert forall|p: int| 0 <= p < len implies byte(after, size, p) == #[trigger] byte(
        files,
        size,
        p,
    ) by {
        quotient_fits(size, p);
        lemma_fundamental_div_mod(p, d);
        lemma_div_is_ordered(p, len as int, d);
        let index = seg(size, p) as u64;
        assert(after.contains_key(index) <==> files.contains_key(index));
    }
    assert forall|p: int| written <= p < len implies #[trigger] byte(files, size, p) == 0 by {
        assert(held(files, size, p) is None);
    }
    assert forall|p: int| 0 <= p < len implies #[trigger] flat(after, size, len as int)[p]
        == resized(flat(files, size, written), len as int)[p] by {
        assert(byte(after, size, p) == byte(files, size, p));
    }
    assert(flat(after, size, len as int) =~= resized(flat(files, size, written), len as int));
    if len <= written {
        assert(flat(after, size, len as int) =~= flat(files, size, written).take(len as int));
    }
    assert forall|p: int| len <= p <= u64::MAX implies #[trigger] held(after, size, p) is None by {
        quotient_fits(size, p);
        lemma_fundamental_div_mod(p, d);
        lemma_div_is_ordered(len as int, p, d);
        let index = seg(size, p) as u64;
        assert(after.contains_key(index) ==> !(fate_of(size, len, index) is Remove));
    }
}

/// The segment files after those below `keep_from` were removed.
pub open spec fn without_front(files: Map<u64, Seq<u8>>, keep_from: u64) -> Map<u64, Seq<u8>> {
    Map::new(|index: u64| files.contains_key(index) && index >= keep_from, |index: u64| files[index])
}

/// Removing the segments below the one that holds the head loses no byte from the
/// head on.
pub proof fn dropped_segments_are_dead(
    files: Map<u64, Seq<u8>>,
    size: u64,
    head: u64,
    keep_from: u64,
    p: int,
)
    requires
        size > 0,
        keep_from <= seg(size, head as int),
        head <= p <= u64::MAX,
    ensures
        held(without_front(files, keep_from), size, p) == held(files, size, p),
        byte(without_front(files, keep_from), size, p) == byte(files, size, p),
{
    quotient_fits(size, p);
    lemma_div_is_ordered(head as int, p, size as int);
    let index = seg(size, p) as u64;
    assert(without_front(files, keep_from).contains_key(index) <==> files.contains_key(index));
}

/// The segments that are dropped with the front are those that end at or before the new
/// head, except the one that holds the last byte.
pub proof fn dropped_segments_lie_below_the_head(layout: Layout, head: u64, index: int)
    requires
        layout.wf(),
        layout.written > 0,
    ensures
        index < least(seg(layout.size, head as int), layout.active()) <==> (index + 1)
            * layout.size <= head && (index + 1) * layout.size < layout.written,
{
    segments_partition_the_log(layout.size, head as int, index);
    segments_partition_the_log(layout.size, layout.written - 1, index);
}

/// A segmented log whose bytes are written, truncated and flushed.
pub struct Flushing {
    /// The bookkeeping.
    pub layout: Layout,
    /// The offsets of the bytes that no flush has made durable.
    pub dirty: Set<int>,
    /// The window that is being flushed, if one is.
    pub taken: Option<(u64, u64)>,
    /// The offsets of the bytes that were written since the window was taken.
    pub during: Set<int>,
}

/// What can happen to a segmented log.
pub enum Event {
    /// `count` bytes were written at `offset`.
    Wrote { offset: u64, count: int },
    /// Everything from `len` on was discarded.
    Truncated { len: u64 },
    /// A sync took the window.
    Took,
    /// Every segment of the window was flushed.
    Flushed,
    /// The flush of the window failed.
    Failed,
}

impl Flushing {
    /// Whether the segment of `p` is being flushed.
    pub open spec fn in_taken(self, p: int) -> bool {
        self.taken matches Some((from, active)) && from <= seg(self.layout.size, p) <= active
    }

    /// Whether `event` can happen: writes end at an offset that can be written down,
    /// and there is one sync at a time.
    pub open spec fn allows(self, event: Event) -> bool {
        match event {
            Event::Wrote { offset, count } => 0 <= count && offset + count <= u64::MAX,
            Event::Truncated { .. } => true,
            Event::Took => self.taken is None,
            Event::Flushed => true,
            Event::Failed => true,
        }
    }

    /// After `event`. A flush makes durable what its segments held when the window
    /// was taken; of a byte written since then, nothing is known.
    pub open spec fn after(self, event: Event) -> Self {
        match event {
            Event::Wrote { offset, count } => {
                let bytes = Set::new(|p: int| offset <= p < offset + count);
                Flushing {
                    layout: self.layout.after_write(offset, count),
                    dirty: self.dirty.union(bytes),
                    during: self.during.union(bytes),
                    ..self
                }
            },
            Event::Truncated { len } => {
                let kept = Set::new(|p: int| p < len);
                Flushing {
                    layout: self.layout.after_truncation(len),
                    dirty: self.dirty.intersect(kept),
                    during: self.during.intersect(kept),
                    ..self
                }
            },
            Event::Took => Flushing {
                layout: self.layout.after_window(),
                taken: self.layout.window(),
                during: Set::empty(),
                ..self
            },
            Event::Flushed => Flushing {
                dirty: self.dirty.filter(|p: int| self.during.contains(p) || !self.in_taken(p)),
                taken: None,
                ..self
            },
            Event::Failed => match self.taken {
                Some((from, _)) => Flushing {
                    layout: self.layout.after_failed_flush(from),
                    taken: None,
                    ..self
                },
                None => self,
            },
        }
    }

    /// Every byte that is not durable lies in a segment that the next sync flushes, or
    /// was written before the window was taken and lies in one that is being flushed.
    pub open spec fn wf(self) -> bool {
        &&& self.layout.wf()
        &&& forall|p: int| #[trigger]
            self.dirty.contains(p) ==> {
                &&& 0 <= p < self.layout.written
                &&& self.layout.window_holds(seg(self.layout.size, p)) || self.in_taken(p)
                    && !self.during.contains(p)
                &&& self.taken is Some ==> self.during.contains(p) || self.in_taken(p)
            }
    }
}

/// No write is missed, wherever it goes and whatever happens meanwhile: it stays in the
/// window, or in the one that is being flushed, until a flush made it durable.
pub proof fn no_write_is_missed(log: Flushing, event: Event)
    requires
        log.wf(),
        log.allows(event),
    ensures
        log.after(event).wf(),
{
    let next = log.after(event);
    let size = log.layout.size;
    match event {
        Event::Wrote { offset, count } => {
            layout_stays_wf(log.layout, offset, count);
            assert forall|p: int| #[trigger] next.dirty.contains(p) implies {
                &&& 0 <= p < next.layout.written
                &&& next.layout.window_holds(seg(size, p)) || next.in_taken(p)
                    && !next.during.contains(p)
                &&& next.taken is Some ==> next.during.contains(p) || next.in_taken(p)
            } by {
                if offset <= p < offset + count {
                    window_covers_new_writes(log.layout, offset, count, p);
                } else {
                    assert(log.dirty.contains(p));
                    lemma_div_is_ordered(
                        log.layout.written - 1,
                        next.layout.written - 1,
                        size as int,
                    );
                }
            }
        },
        Event::Truncated { len } => {
            quotient_fits(size, len as int);
            segment_begins_below(size, len as int);
            least_times(log.layout.synced_from, seg(size, len as int) as u64, size);
            assert forall|p: int| #[trigger] next.dirty.contains(p) implies {
                &&& 0 <= p < next.layout.written
                &&& next.layout.window_holds(seg(size, p)) || next.in_taken(p)
                    && !next.during.contains(p)
                &&& next.taken is Some ==> next.during.contains(p) || next.in_taken(p)
            } by {
                assert(log.dirty.contains(p));
                lemma_div_is_ordered(p, len - 1, size as int);
            }
        },
        Event::Took => {
            if log.layout.written > 0 {
                quotient_fits(size, log.layout.written - 1);
                segment_begins_below(size, log.layout.written - 1);
            }
            assert forall|p: int| #[trigger] next.dirty.contains(p) implies {
                &&& 0 <= p < next.layout.written
                &&& next.layout.window_holds(seg(size, p)) || next.in_taken(p)
                    && !next.during.contains(p)
                &&& next.taken is Some ==> next.during.contains(p) || next.in_taken(p)
            } by {
                assert(log.dirty.contains(p));
            }
        },
        Event::Flushed => {
            assert forall|p: int| #[trigger] next.dirty.contains(p) implies {
                &&& 0 <= p < next.layout.written
                &&& next.layout.window_holds(seg(size, p)) || next.in_taken(p)
                    && !next.during.contains(p)
                &&& next.taken is Some ==> next.during.contains(p) || next.in_taken(p)
            } by {
                assert(log.dirty.contains(p));
            }
        },
        Event::Failed => {
            if let Some((from, active)) = log.taken {
                least_times(log.layout.synced_from, from, size);
                assert forall|p: int| #[trigger] next.dirty.contains(p) implies {
                    &&& 0 <= p < next.layout.written
                    &&& next.layout.window_holds(seg(size, p)) || next.in_taken(p)
                        && !next.during.contains(p)
                    &&& next.taken is Some ==> next.during.contains(p) || next.in_taken(p)
                } by {
                    assert(log.dirty.contains(p));
                    lemma_div_is_ordered(p, log.layout.written - 1, size as int);
                }
            }
        },
    }
}

/// A sync that succeeded made every write before it durable: what is not durable
/// afterwards was written since the window was taken.
pub proof fn sync_flushes_every_prior_write(log: Flushing, p: int)
    requires
        log.wf(),
        log.taken is Some,
        log.after(Event::Flushed).dirty.contains(p),
    ensures
        log.during.contains(p),
{
    assert(log.dirty.contains(p));
}

/// The lesser of two segments begins no later than either.
proof fn least_times(a: u64, b: u64, size: u64)
    ensures
        least(a as int, b as int) * size <= a * size,
        least(a as int, b as int) * size <= b * size,
{
    let m = least(a as int, b as int);
    assert(m * size <= a * size) by (nonlinear_arith)
        requires
            m <= a,
    ;
    assert(m * size <= b * size) by (nonlinear_arith)
        requires
            m <= b,
    ;
}

/// A write leaves the bookkeeping in order.
proof fn layout_stays_wf(layout: Layout, offset: u64, len: int)
    requires
        layout.wf(),
        0 <= len,
    ensures
        layout.after_write(offset, len).wf(),
{
    quotient_fits(layout.size, offset as int);
    least_times(layout.synced_from, seg(layout.size, offset as int) as u64, layout.size);
}

/// A write, wherever it goes, touches only segments that the next sync flushes, and no
/// segment leaves the window on its account.
pub proof fn window_covers_new_writes(layout: Layout, offset: u64, len: int, p: int)
    requires
        layout.wf(),
        offset <= p < offset + len <= u64::MAX,
    ensures
        layout.after_write(offset, len).window_holds(seg(layout.size, p)),
        forall|s: int| #[trigger]
            layout.window_holds(s) ==> layout.after_write(offset, len).window_holds(s),
{
    let d = layout.size as int;
    let after = layout.after_write(offset, len);
    quotient_fits(layout.size, offset as int);
    lemma_div_is_ordered(offset as int, p, d);
    lemma_div_is_ordered(p, after.written - 1, d);
    lemma_div_is_ordered(layout.written - 1, after.written - 1, d);
}

/// One piece of a transfer: `len` bytes of the buffer, from `from` on, belong at
/// `local` in segment `index`.
#[derive(Debug, Clone, Copy, PartialEq, Eq, Structural)]
pub struct Span {
    /// The segment.
    pub index: u64,
    /// Where in the segment the piece begins.
    pub local: u64,
    /// Where in the buffer the piece begins.
    pub from: usize,
    /// How many bytes it has.
    pub len: usize,
}

impl View for Span {
    type V = Piece;

    open spec fn view(&self) -> Piece {
        Piece {
            index: self.index as int,
            local: self.local as int,
            from: self.from as int,
            len: self.len as int,
        }
    }
}

/// A read or write in progress that is split across segments.
///
/// [`next`](Transfer::next) says which piece to move, and
/// [`advance`](Transfer::advance) goes on to the one behind it.
#[derive(Debug)]
pub struct Transfer {
    size: u64,
    offset: u64,
    total: usize,
    done: usize,
}

impl Transfer {
    /// The size of a segment.
    pub closed spec fn size(&self) -> u64 {
        self.size
    }

    /// Where the transfer begins.
    pub closed spec fn offset(&self) -> u64 {
        self.offset
    }

    /// How many bytes are to be moved.
    pub closed spec fn total(&self) -> usize {
        self.total
    }

    /// How many bytes have been moved.
    pub closed spec fn moved(&self) -> usize {
        self.done
    }

    /// The transfer stays within the addressable bytes.
    pub open spec fn wf(&self) -> bool {
        &&& self.size() > 0
        &&& self.moved() <= self.total()
        &&& self.offset() + self.total() <= u64::MAX
    }

    /// The pieces that are still to be moved.
    pub open spec fn remaining(&self) -> Seq<Piece> {
        pieces(
            self.size(),
            self.offset() + self.moved(),
            self.total() - self.moved(),
            self.moved() as int,
        )
    }

    /// The piece to move next, or `None` if the transfer is over.
    pub fn next(&self) -> (span: Option<Span>)
        requires
            self.wf(),
        ensures
            match span {
                Some(span) => {
                    &&& self.remaining().len() > 0
                    &&& span@ == self.remaining()[0]
                    &&& 0 < span.len <= self.total() - span.from
                    &&& span.local + span.len <= self.size()
                },
                None => self.remaining().len() == 0 && self.moved() == self.total(),
            },
    {
        if self.done == self.total {
            return None;
        }
        let pos: u64 = self.offset + self.done as u64;
        proof {
            quotient_fits(self.size, pos as int);
            chunk_lies_in_a_segment(self.size, pos as int, self.total - self.done);
        }
        let local: u64 = pos % self.size;
        let room: u64 = self.size - local;
        let rest: usize = self.total - self.done;
        let len: usize = if rest as u64 <= room {
            rest
        } else {
            room as usize
        };
        Some(Span { index: pos / self.size, local, from: self.done, len })
    }

    /// Go on to the piece behind the next one.
    pub fn advance(&mut self)
        requires
            old(self).wf(),
            old(self).remaining().len() > 0,
        ensures
            final(self).wf(),
            final(self).size() == old(self).size(),
            final(self).offset() == old(self).offset(),
            final(self).total() == old(self).total(),
            final(self).moved() == old(self).moved() + old(self).remaining()[0].len,
            final(self).remaining() == old(self).remaining().skip(1),
    {
        if let Some(span) = self.next() {
            self.done += span.len;
        }
        assert(self.remaining() =~= old(self).remaining().skip(1));
    }

    /// How many bytes were moved.
    pub fn done(&self) -> (done: usize)
        ensures
            done == self.moved(),
    {
        self.done
    }
}

/// Complete a piece of which a file held only the first `got` bytes: what no file
/// holds is zero.
pub fn fill_gap(piece: &mut [u8], got: usize)
    requires
        got <= old(piece)@.len(),
    ensures
        final(piece)@.len() == old(piece)@.len(),
        forall|i: int| 0 <= i < got ==> final(piece)@[i] == old(piece)@[i],
        forall|i: int| got <= i < final(piece)@.len() ==> final(piece)@[i] == 0,
{
    let mut i: usize = got;
    while i < piece.len()
        invariant
            got <= i <= piece@.len(),
            piece@.len() == old(piece)@.len(),
            forall|j: int| 0 <= j < got ==> piece@[j] == old(piece)@[j],
            forall|j: int| got <= j < i ==> piece@[j] == 0,
        decreases piece@.len() - i,
    {
        piece[i] = 0;
        i += 1;
    }
}

/// The segment with the highest index among `found`, and its length.
pub open spec fn highest(found: Seq<(u64, u64)>) -> Option<(u64, u64)>
    decreases found.len(),
{
    if found.len() == 0 {
        None
    } else {
        match highest(found.drop_last()) {
            Some(h) => if found.last().0 > h.0 {
                Some(found.last())
            } else {
                Some(h)
            },
            None => Some(found.last()),
        }
    }
}

/// The size of a log whose segment files are `found`, given as index and length:
/// the segments below the highest are full.
pub open spec fn total_len(found: Seq<(u64, u64)>, size: u64) -> int {
    match highest(found) {
        Some((index, len)) => least(index * size + len, u64::MAX as int),
        None => 0,
    }
}

/// The highest segment is one of those found, and no other has a higher index.
pub proof fn highest_is_highest(found: Seq<(u64, u64)>)
    requires
        found.len() > 0,
    ensures
        highest(found) matches Some(h) && found.contains(h) && forall|i: int|
            0 <= i < found.len() ==> (#[trigger] found[i]).0 <= h.0,
    decreases found.len(),
{
    let init = found.drop_last();
    let last = found.len() - 1;
    assert(found[last] == found.last());
    if init.len() > 0 {
        highest_is_highest(init);
        let h = highest(init)->0;
        let k = choose|k: int| 0 <= k < init.len() && init[k] == h;
        assert(found[k] == h);
        let top = highest(found)->0;
        assert forall|i: int| 0 <= i < found.len() implies (#[trigger] found[i]).0 <= top.0 by {
            if i < last {
                assert(init[i] == found[i]);
            }
        }
    }
}

/// The length of a log is found from its highest segment: the segments below it are full.
pub proof fn the_length_is_where_the_highest_segment_ends(
    found: Seq<(u64, u64)>,
    size: u64,
    i: int,
)
    requires
        0 <= i < found.len(),
        forall|j: int| 0 <= j < found.len() && j != i ==> (#[trigger] found[j]).0 < found[i].0,
    ensures
        found[i].0 * size + found[i].1 <= u64::MAX ==> total_len(found, size) == found[i].0 * size
            + found[i].1,
        found[i].0 * size + found[i].1 > u64::MAX ==> total_len(found, size) == u64::MAX,
        total_len(Seq::empty(), size) == 0,
{
    highest_is_highest(found);
    let h = highest(found)->0;
    let k = choose|k: int| 0 <= k < found.len() && found[k] == h;
    assert(found[i].0 <= h.0);
    if k != i {
        assert(found[k].0 < found[i].0);
    }
}

/// Whether `found` lists the segment files, each with its index and its length.
pub open spec fn lists(found: Seq<(u64, u64)>, files: Map<u64, Seq<u8>>) -> bool {
    &&& forall|i: int|
        0 <= i < found.len() ==> files.contains_key((#[trigger] found[i]).0)
            && files[found[i].0].len() == found[i].1
    &&& forall|index: u64| #[trigger]
        files.contains_key(index) ==> exists|i: int|
            0 <= i < found.len() && (#[trigger] found[i]).0 == index
}

/// Opening a log finds its length again, if its last byte was written.
pub proof fn reopening_finds_the_length(
    files: Map<u64, Seq<u8>>,
    size: u64,
    written: int,
    found: Seq<(u64, u64)>,
)
    requires
        size > 0,
        0 < written <= u64::MAX,
        tidy(files, size, written),
        held(files, size, written - 1) is Some,
        lists(found, files),
    ensures
        total_len(found, size) == written,
{
    let d = size as int;
    let last = seg(size, written - 1);
    let at = local(size, written - 1);
    quotient_fits(size, written - 1);
    quotient_fits(size, written);
    lemma_fundamental_div_mod(written - 1, d);
    lemma_fundamental_div_mod(written, d);
    assert(last * d == d * last) by (nonlinear_arith);
    assert((last + 1) * d == last * d + d) by (nonlinear_arith);
    if at + 1 < d {
        lemma_fundamental_div_mod_converse(written, d, last, at + 1);
    } else {
        lemma_fundamental_div_mod_converse(written, d, last + 1, 0);
    }
    // The segment of the last byte is among those found, and none is higher but an
    // empty one that begins at the end.
    assert(files.contains_key(last as u64));
    let i = choose|i: int| 0 <= i < found.len() && (#[trigger] found[i]).0 == last as u64;
    highest_is_highest(found);
    let h = highest(found)->0;
    assert(found[i].0 <= h.0);
    let k = choose|k: int| 0 <= k < found.len() && found[k] == h;
    assert(files.contains_key(found[k].0));
    assert(held(files, size, written) is None);
}

/// Where the log begins after its front was dropped, and which segments are left.
#[derive(Debug, Clone, Copy, PartialEq, Eq, Structural)]
pub struct DropPlan {
    /// The new head.
    pub head: u64,
    /// The lowest segment that is kept.
    pub keep_from: u64,
}

/// The bookkeeping of a log that is striped across segment files in a directory.
#[derive(Debug)]
pub struct SegmentedStore {
    dir: String,
    segment_size: u64,
    /// The end of the highest write.
    max_written: u64,
    /// Index of the lowest segment that may hold writes that no flush has been begun
    /// for. A sync skips every segment below it.
    synced_from: u64,
    /// Lowest offset still present. Recovery scans from here.
    head: u64,
}

impl View for SegmentedStore {
    type V = Layout;

    closed spec fn view(&self) -> Layout {
        Layout {
            dir: self.dir@,
            size: self.segment_size,
            written: self.max_written,
            synced_from: self.synced_from,
            head: self.head,
        }
    }
}

impl SegmentedStore {
    /// Reject a segment size of zero.
    pub fn check_size(segment_size: u64) -> (result: Result<(), WalError>)
        ensures
            result is Ok <==> segment_size > 0,
            result matches Err(error) ==> is_own_io(
                error,
                "opening the segmented log",
                "segment size must be non-zero",
            ),
    {
        if segment_size == 0 {
            return Err(
                WalError::other("opening the segmented log", "segment size must be non-zero"),
            );
        }
        Ok(())
    }

    /// Open the segmented log in `dir`, with segments of `segment_size` bytes.
    ///
    /// `found` holds the index and the length of every segment file in the
    /// directory, `marker` the bytes of the head marker, if there is one. Everything
    /// that is on disk already counts as durable.
    pub fn open(dir: String, segment_size: u64, found: &[(u64, u64)], marker: Option<Vec<u8>>) -> (
        result: Result<Self, WalError>)
        ensures
            result is Ok <==> segment_size > 0,
            result matches Err(error) ==> is_own_io(
                error,
                "opening the segmented log",
                "segment size must be non-zero",
            ),
            result matches Ok(store) ==> {
                let total = total_len(found@, segment_size);
                let head = match marker {
                    Some(bytes) => match head_of(bytes@) {
                        Some(head) => head as int,
                        None => 0,
                    },
                    None => 0,
                };
                &&& store@.wf()
                &&& store@.head <= store@.written
                &&& store@ == (Layout {
                    dir: dir@,
                    size: segment_size,
                    written: total as u64,
                    synced_from: seg(segment_size, total) as u64,
                    head: least(head, total) as u64,
                })
            },
    {
        match Self::check_size(segment_size) {
            Ok(()) => {},
            Err(error) => {
                return Err(error);
            },
        }
        let mut best: Option<(u64, u64)> = None;
        let mut i: usize = 0;
        while i < found.len()
            invariant
                i <= found@.len(),
                best == highest(found@.take(i as int)),
            decreases found@.len() - i,
        {
            let (index, len) = found[i];
            assert(found@.take(i + 1).drop_last() =~= found@.take(i as int));
            let higher = match best {
                Some((h, _)) => index > h,
                None => true,
            };
            if higher {
                best = Some((index, len));
            }
            i += 1;
        }
        assert(found@.take(i as int) =~= found@);
        let total: u64 = match best {
            Some((index, len)) => {
                proof {
                    assert(index * segment_size >= 0) by (nonlinear_arith);
                }
                match index.checked_mul(segment_size) {
                    Some(full) => match full.checked_add(len) {
                        Some(total) => total,
                        None => u64::MAX,
                    },
                    None => u64::MAX,
                }
            },
            None => 0,
        };
        let recorded: u64 = match &marker {
            Some(bytes) => match parse_head_marker(bytes.as_slice()) {
                Some(head) => head,
                None => 0,
            },
            None => 0,
        };
        let head: u64 = if recorded < total {
            recorded
        } else {
            total
        };
        proof {
            quotient_fits(segment_size, total as int);
            segment_begins_below(segment_size, total as int);
        }
        Ok(
            SegmentedStore {
                dir,
                segment_size,
                max_written: total,
                synced_from: total / segment_size,
                head,
            },
        )
    }

    /// The directory holding the segment files.
    #[must_use]
    pub fn dir(&self) -> (dir: &str)
        ensures
            dir@ == self@.dir,
    {
        self.dir.as_str()
    }

    /// The configured segment size in bytes.
    #[must_use]
    pub fn segment_size(&self) -> (size: u64)
        ensures
            size == self@.size,
    {
        self.segment_size
    }

    /// The current size of the log in bytes.
    #[must_use]
    pub fn len(&self) -> (len: u64)
        ensures
            len == self@.written,
    {
        self.max_written
    }

    /// Whether nothing was written to the log.
    #[must_use]
    pub fn is_empty(&self) -> (empty: bool)
        ensures
            empty == (self@.written == 0),
    {
        self.max_written == 0
    }

    /// The lowest offset still present.
    #[must_use]
    pub fn head(&self) -> (head: u64)
        ensures
            head == self@.head,
    {
        self.head
    }

    /// How many bytes a read of `want` bytes at `offset` gives: those below the end of
    /// the log. What no segment file holds of them is zero.
    #[must_use]
    pub fn readable(&self, offset: u64, want: usize) -> (n: usize)
        ensures
            n == readable(self@.written as int, offset as int, want as int),
            n > 0 ==> offset + n <= self@.written,
    {
        if offset >= self.max_written {
            return 0;
        }
        let left: u64 = self.max_written - offset;
        if left < want as u64 {
            left as usize
        } else {
            want
        }
    }

    /// Begin to read or write `total` bytes at `offset`.
    pub fn transfer(&self, offset: u64, total: usize) -> (transfer: Transfer)
        requires
            self@.wf(),
            offset + total <= u64::MAX,
        ensures
            transfer.wf(),
            transfer.size() == self@.size,
            transfer.offset() == offset,
            transfer.total() == total,
            transfer.moved() == 0,
            transfer.remaining() == pieces(self@.size, offset as int, total as int, 0),
    {
        Transfer { size: self.segment_size, offset, total, done: 0 }
    }

    /// Record that `len` bytes were written at `offset`.
    pub fn wrote(&mut self, offset: u64, len: usize)
        requires
            old(self)@.wf(),
        ensures
            final(self)@.wf(),
            final(self)@ == old(self)@.after_write(offset, len as int),
            final(self)@.written >= old(self)@.written,
            offset + len <= old(self)@.written ==> final(self)@.written == old(self)@.written,
            old(self)@.written < offset + len <= u64::MAX ==> final(self)@.written == offset + len,
            offset + len > u64::MAX ==> final(self)@.written == u64::MAX,
    {
        proof {
            layout_stays_wf(self@, offset, len as int);
            quotient_fits(self.segment_size, offset as int);
        }
        let end: u64 = match offset.checked_add(len as u64) {
            Some(end) => end,
            None => u64::MAX,
        };
        if self.max_written < end {
            self.max_written = end;
        }
        if len > 0 {
            let first: u64 = offset / self.segment_size;
            if first < self.synced_from {
                self.synced_from = first;
            }
        }
    }

    /// What truncating the log to `len` bytes does to the file of segment `index`.
    #[must_use]
    pub fn fate(&self, len: u64, index: u64) -> (fate: Fate)
        requires
            self@.wf(),
        ensures
            fate == fate_of(self@.size, len, index),
    {
        let last_index: u64 = len / self.segment_size;
        if index > last_index {
            Fate::Remove
        } else if index == last_index {
            Fate::Shrink { len: len % self.segment_size }
        } else {
            Fate::Keep
        }
    }

    /// Record that the log was truncated to `len` bytes. The head stays where it is.
    pub fn truncated(&mut self, len: u64)
        requires
            old(self)@.wf(),
        ensures
            final(self)@.wf(),
            final(self)@ == old(self)@.after_truncation(len),
            final(self)@.written == len,
            final(self)@.head == old(self)@.head,
    {
        proof {
            quotient_fits(self.segment_size, len as int);
            segment_begins_below(self.segment_size, len as int);
            least_times(
                self.synced_from,
                seg(self.segment_size, len as int) as u64,
                self.segment_size,
            );
        }
        self.max_written = len;
        let last: u64 = len / self.segment_size;
        if last < self.synced_from {
            self.synced_from = last;
        }
    }

    /// Begin a sync: take the lowest and the highest segment that it has to flush, if
    /// there is anything to flush. What is written from here on belongs to the next
    /// window. There is one sync at a time.
    pub fn take_window(&mut self) -> (window: Option<(u64, u64)>)
        requires
            old(self)@.wf(),
        ensures
            final(self)@.wf(),
            window == old(self)@.window(),
            window is None <==> old(self)@.written == 0,
            window matches Some((from, active)) ==> {
                &&& from == old(self)@.synced_from
                &&& active * old(self)@.size < old(self)@.written
                &&& old(self)@.written <= (active + 1) * old(self)@.size
            },
            final(self)@ == old(self)@.after_window(),
            window matches Some((_, active)) ==> active == old(self)@.active(),
    {
        if self.max_written == 0 {
            return None;
        }
        proof {
            quotient_fits(self.segment_size, self.max_written - 1);
            segment_begins_below(self.segment_size, self.max_written - 1);
            segments_partition_the_log(self.segment_size, self.max_written - 1, 0);
        }
        let active: u64 = (self.max_written - 1) / self.segment_size;
        let from: u64 = self.synced_from;
        self.synced_from = active;
        Some((from, active))
    }

    /// Record that the flush of a window that began at `from` failed: its segments
    /// belong to the next window again.
    pub fn flush_failed(&mut self, from: u64)
        requires
            old(self)@.wf(),
        ensures
            final(self)@.wf(),
            final(self)@ == old(self)@.after_failed_flush(from),
    {
        proof {
            least_times(self.synced_from, from, self.segment_size);
        }
        if from < self.synced_from {
            self.synced_from = from;
        }
    }

    /// Where the log begins once everything below `offset` is dropped, and which
    /// segments are kept.
    ///
    /// The new head never moves backwards and never past the end. It is a record
    /// boundary, not a segment boundary: the lowest segment that is kept may begin
    /// within a record. The segment that holds the new head and the one that holds
    /// the last byte are always kept.
    #[must_use]
    pub fn plan_drop(&self, offset: u64) -> (plan: DropPlan)
        requires
            self@.wf(),
            self@.head <= self@.written,
        ensures
            plan.head == clamped(offset as int, self@.head as int, self@.written as int),
            self@.head <= offset <= self@.written ==> plan.head == offset,
            offset < self@.head ==> plan.head == self@.head,
            offset > self@.written ==> plan.head == self@.written,
            plan.keep_from * self@.size <= plan.head,
            self@.written > 0 ==> plan.keep_from * self@.size < self@.written,
            self@.written > 0 ==> plan.head < (plan.keep_from + 1) * self@.size || self@.written <= (
            plan.keep_from + 1) * self@.size,
            self@.written == 0 ==> plan.keep_from == 0,
            self@.written > 0 ==> plan.keep_from == least(
                seg(self@.size, plan.head as int),
                self@.active(),
            ),
            plan.keep_from <= seg(self@.size, plan.head as int),
    {
        let head: u64 = if offset < self.head {
            self.head
        } else if offset > self.max_written {
            self.max_written
        } else {
            offset
        };
        let last_byte: u64 = if self.max_written == 0 {
            0
        } else {
            self.max_written - 1
        };
        let last_segment: u64 = last_byte / self.segment_size;
        let of_head: u64 = head / self.segment_size;
        proof {
            quotient_fits(self.segment_size, head as int);
            segments_partition_the_log(self.segment_size, head as int, 0);
            segments_partition_the_log(self.segment_size, last_byte as int, 0);
            let (h, l, d) = (of_head as int, last_segment as int, self.segment_size as int);
            assert(h <= l ==> h * d <= l * d) by (nonlinear_arith)
                requires
                    d > 0,
            ;
            assert(l <= h ==> l * d <= h * d) by (nonlinear_arith)
                requires
                    d > 0,
            ;
            if self.max_written == 0 {
                lemma_fundamental_div_mod_converse(0, self.segment_size as int, 0, 0);
            }
        }
        let keep_from: u64 = if of_head < last_segment {
            of_head
        } else {
            last_segment
        };
        DropPlan { head, keep_from }
    }

    /// Record that the front of the log up to `head` was dropped.
    pub fn dropped(&mut self, head: u64)
        requires
            old(self)@.wf(),
        ensures
            final(self)@.wf(),
            final(self)@ == (Layout { head, ..old(self)@ }),
    {
        self.head = head;
    }
}

} // verus!
