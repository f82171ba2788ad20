//! File-data extraction: turning a file's extents into its logical bytes.
//!
//! Extraction has two steps. [`layout`] decides, from the extents alone, which
//! run of blocks supplies each part of the file and which parts are holes;
//! [`write_extents`] then follows that layout and reads the blocks. A caller that
//! writes a sparse file follows the same layout and skips over the holes.
use crate::device::{BlockDevice, BlockReads};
use crate::error::Error;
use crate::jrec::FileExtent;
use crate::text::{dec, join, joined, push_dec, texts};
use vstd::prelude::*;

verus! {

// ---------------------------------------------------------------------------
// Order
// ---------------------------------------------------------------------------

/// `e` put into the ordered list `s`, behind its equals.
pub open spec fn inserted(s: Seq<FileExtent>, e: FileExtent) -> Seq<FileExtent>
    decreases s.len(),
{
    if s.len() == 0 || s.last().logical_addr <= e.logical_addr {
        s.push(e)
    } else {
        inserted(s.drop_last(), e).push(s.last())
    }
}

/// The extents in the order of their logical addresses; equal addresses keep the
/// order in which they came.
pub open spec fn by_address(s: Seq<FileExtent>) -> Seq<FileExtent>
    decreases s.len(),
{
    if s.len() == 0 {
        s
    } else {
        inserted(by_address(s.drop_last()), s.last())
    }
}

/// No extent stands behind one with a greater address.
pub open spec fn is_ordered(s: Seq<FileExtent>) -> bool {
    forall|i: int, j: int| 0 <= i < j < s.len() ==> s[i].logical_addr <= s[j].logical_addr
}

/// The extents at address `addr`, in order.
pub open spec fn at_address(s: Seq<FileExtent>, addr: u64) -> Seq<FileExtent> {
    s.filter(|e: FileExtent| e.logical_addr == addr)
}

proof fn lemma_inserted(s: Seq<FileExtent>, e: FileExtent)
    requires
        is_ordered(s),
    ensures
        is_ordered(inserted(s, e)),
        inserted(s, e).len() == s.len() + 1,
        inserted(s, e).to_multiset() == s.to_multiset().insert(e),
        forall|addr: u64| #[trigger]
            at_address(inserted(s, e), addr) == at_address(s.push(e), addr),
        forall|i: int|
            0 <= i < inserted(s, e).len() ==> (#[trigger] inserted(s, e)[i] == e || s.contains(
                inserted(s, e)[i],
            )),
    decreases s.len(),
{
    broadcast use vstd::seq_lib::group_to_multiset_ensures;

    reveal(Seq::filter);
    if s.len() == 0 || s.last().logical_addr <= e.logical_addr {
        assert forall|i: int| 0 <= i < s.push(e).len() implies (#[trigger] s.push(e)[i] == e
            || s.contains(s.push(e)[i])) by {
            if i < s.len() {
                assert(s[i] == s.push(e)[i]);
            }
        }
    } else {
        let front = s.drop_last();
        let rest = inserted(front, e);
        lemma_inserted(front, e);
        assert(s =~= front.push(s.last()));
        assert forall|i: int| 0 <= i < rest.len() implies #[trigger] rest[i].logical_addr
            <= s.last().logical_addr by {
            if rest[i] != e {
                assert(front.contains(rest[i]));
                let k = choose|k: int| 0 <= k < front.len() && front[k] == rest[i];
                assert(s[k] == front[k]);
            }
        }
        assert forall|i: int|
            0 <= i < inserted(s, e).len() implies (#[trigger] inserted(s, e)[i] == e
            || s.contains(inserted(s, e)[i])) by {
            if i < rest.len() {
                assert(rest[i] == inserted(s, e)[i]);
                if rest[i] != e {
                    let k = choose|k: int| 0 <= k < front.len() && front[k] == rest[i];
                    assert(s[k] == front[k]);
                }
            } else {
                assert(s[s.len() - 1] == s.last());
            }
        }
        assert forall|addr: u64| #[trigger]
            at_address(inserted(s, e), addr) == at_address(s.push(e), addr) by {
            let here = |x: FileExtent| x.logical_addr == addr;
            assert(inserted(s, e).drop_last() =~= rest);
            assert(s.push(e).drop_last() =~= s);
            assert(front.push(e).drop_last() =~= front);
            assert(at_address(rest, addr) == at_address(front.push(e), addr));
            assert(inserted(s, e).filter(here) == if here(s.last()) {
                rest.filter(here).push(s.last())
            } else {
                rest.filter(here)
            });
            assert(s.filter(here) == if here(s.last()) {
                front.filter(here).push(s.last())
            } else {
                front.filter(here)
            });
            assert(s.push(e).filter(here) == if here(e) {
                s.filter(here).push(e)
            } else {
                s.filter(here)
            });
            assert(front.push(e).filter(here) == if here(e) {
                front.filter(here).push(e)
            } else {
                front.filter(here)
            });
        }
        assert(s.to_multiset() =~= front.to_multiset().insert(s.last()));
        assert(inserted(s, e).to_multiset() =~= s.to_multiset().insert(e));
    }
}

/// Ordering the extents loses none and adds none, leaves no greater address
/// before a smaller one, and keeps extents of one address in their given order.
pub proof fn law_order_is_a_stable_sort(s: Seq<FileExtent>)
    ensures
        is_ordered(by_address(s)),
        by_address(s).len() == s.len(),
        by_address(s).to_multiset() == s.to_multiset(),
        forall|addr: u64| #[trigger] at_address(by_address(s), addr) == at_address(s, addr),
    decreases s.len(),
{
    broadcast use vstd::seq_lib::group_to_multiset_ensures;

    reveal(Seq::filter);
    if s.len() > 0 {
        let front = s.drop_last();
        law_order_is_a_stable_sort(front);
        lemma_inserted(by_address(front), s.last());
        assert(s =~= front.push(s.last()));
        assert forall|addr: u64| #[trigger]
            at_address(by_address(s), addr) == at_address(s, addr) by {
            let here = |x: FileExtent| x.logical_addr == addr;
            let pushed = by_address(front).push(s.last());
            assert(pushed.drop_last() =~= by_address(front));
            assert(at_address(by_address(s), addr) == at_address(pushed, addr));
            assert(at_address(by_address(front), addr) == at_address(front, addr));
        }
        assert(by_address(s).to_multiset() =~= s.to_multiset());
    }
}

proof fn lemma_inserted_at(s: Seq<FileExtent>, e: FileExtent, p: int)
    requires
        0 <= p <= s.len(),
        p > 0 ==> s[p - 1].logical_addr <= e.logical_addr,
        forall|i: int| p <= i < s.len() ==> s[i].logical_addr > e.logical_addr,
    ensures
        inserted(s, e) == s.insert(p, e),
    decreases s.len(),
{
    if p == s.len() {
        assert(s.insert(p, e) =~= s.push(e));
    } else {
        let front = s.drop_last();
        lemma_inserted_at(front, e, p);
        assert(s.insert(p, e) =~= front.insert(p, e).push(s.last()));
    }
}

fn sort_by_address(extents: &Vec<FileExtent>) -> (r: Vec<FileExtent>)
    ensures
        r@ == by_address(extents@),
{
    let mut out: Vec<FileExtent> = Vec::new();
    let mut i: usize = 0;
    proof {
        assert(extents@.take(0) =~= Seq::empty());
    }
    while i < extents.len()
        invariant
            i <= extents@.len(),
            out@ == by_address(extents@.take(i as int)),
        decreases extents@.len() - i,
    {
        let e = extents[i];
        let mut p: usize = out.len();
        while p > 0 && out[p - 1].logical_addr > e.logical_addr
            invariant
                p <= out@.len(),
                forall|k: int| p <= k < out@.len() ==> out@[k].logical_addr > e.logical_addr,
            decreases p,
        {
            p -= 1;
        }
        proof {
            lemma_inserted_at(out@, e, p as int);
            let next = extents@.take(i + 1);
            assert(next.drop_last() =~= extents@.take(i as int));
            assert(next.last() == e);
        }
        out.insert(p, e);
        i += 1;
    }
    proof {
        assert(extents@.take(i as int) =~= extents@);
    }
    out
}

// ---------------------------------------------------------------------------
// Layout
// ---------------------------------------------------------------------------

/// A run of a file's logical bytes.
#[derive(Debug, Clone, Copy, PartialEq, Eq, Structural)]
pub enum Segment {
    /// Bytes that are zero.
    Hole { start: u64, len: u64 },
    /// Bytes that the blocks from `block` on supply.
    Data { start: u64, len: u64, block: u64 },
}

impl Segment {
    /// Where the run begins in the file.
    pub open spec fn start(self) -> int {
        match self {
            Segment::Hole { start, .. } => start as int,
            Segment::Data { start, .. } => start as int,
        }
    }

    /// How long the run is.
    pub open spec fn size(self) -> int {
        match self {
            Segment::Hole { len, .. } => len as int,
            Segment::Data { len, .. } => len as int,
        }
    }
}

/// How a file is laid out: its runs in order, and how many extents were left out
/// because they begin inside an earlier one.
#[derive(Debug)]
pub struct Layout {
    pub segments: Vec<Segment>,
    pub overlaps: u64,
}

/// The mathematical content of a [`Layout`].
pub struct LayoutView {
    pub segments: Seq<Segment>,
    pub overlaps: int,
}

impl View for Layout {
    type V = LayoutView;

    open spec fn view(&self) -> LayoutView {
        LayoutView { segments: self.segments@, overlaps: self.overlaps as int }
    }
}

/// A hole from `from` to `to`.
pub open spec fn hole(from: int, to: int) -> Segment {
    Segment::Hole { start: from as u64, len: (to - from) as u64 }
}

/// The part of extent `e` that lies in a file of `size` bytes.
pub open spec fn extent_segment(e: FileExtent, size: int) -> Segment {
    let len = if e.len < size - e.logical_addr {
        e.len
    } else {
        (size - e.logical_addr) as u64
    };
    if e.spec_is_hole() {
        Segment::Hole { start: e.logical_addr, len }
    } else {
        Segment::Data { start: e.logical_addr, len, block: e.phys_block_num }
    }
}

/// The layout of a file of `size` bytes whose first `cursor` bytes are laid out
/// as `done`, from the extents `extents[i..]`.
///
/// A gap before an extent is a hole, and so is the tail behind the last one. An
/// extent that begins before the cursor is left out: what was laid out first
/// stays.
pub open spec fn layout_from(
    extents: Seq<FileExtent>,
    i: int,
    cursor: int,
    size: int,
    done: LayoutView,
) -> LayoutView
    decreases extents.len() - i,
{
    if cursor >= size {
        done
    } else if !(0 <= i < extents.len()) {
        LayoutView { segments: done.segments.push(hole(cursor, size)), ..done }
    } else {
        let e = extents[i];
        if e.logical_addr < cursor {
            layout_from(
                extents,
                i + 1,
                cursor,
                size,
                LayoutView { overlaps: done.overlaps + 1, ..done },
            )
        } else if e.logical_addr >= size {
            LayoutView { segments: done.segments.push(hole(cursor, size)), ..done }
        } else {
            let segment = extent_segment(e, size);
            let before = if e.logical_addr > cursor {
                done.segments.push(hole(cursor, e.logical_addr as int))
            } else {
                done.segments
            };
            layout_from(
                extents,
                i + 1,
                segment.start() + segment.size(),
                size,
                LayoutView { segments: before.push(segment), ..done },
            )
        }
    }
}

/// The layout of a file of `size` bytes, from extents in the order of their
/// addresses.
pub open spec fn layout_of(extents: Seq<FileExtent>, size: int) -> LayoutView {
    layout_from(extents, 0, 0, size, LayoutView { segments: Seq::empty(), overlaps: 0 })
}

/// Lays a file of `file_size` bytes out over `extents`, which stand in the order
/// of their logical addresses.
pub fn layout(extents: &Vec<FileExtent>, file_size: u64) -> (r: Layout)
    ensures
        r@ == layout_of(extents@, file_size as int),
{
    let mut segments: Vec<Segment> = Vec::new();
    let mut overlaps: usize = 0;
    let mut cursor: u64 = 0;
    let mut i: usize = 0;
    let ghost whole = layout_of(extents@, file_size as int);
    while i < extents.len() && cursor < file_size
        invariant
            i <= extents@.len(),
            overlaps <= i,
            cursor <= file_size,
            whole == layout_from(
                extents@,
                i as int,
                cursor as int,
                file_size as int,
                LayoutView { segments: segments@, overlaps: overlaps as int },
            ),
        decreases extents@.len() - i,
    {
        let e = extents[i];
        i += 1;
        if e.logical_addr < cursor {
            overlaps += 1;
        } else if e.logical_addr >= file_size {
            segments.push(Segment::Hole { start: cursor, len: file_size - cursor });
            cursor = file_size;
        } else {
            if e.logical_addr > cursor {
                segments.push(Segment::Hole { start: cursor, len: e.logical_addr - cursor });
                cursor = e.logical_addr;
            }
            let left: u64 = file_size - cursor;
            let want: u64 = if e.len < left {
                e.len
            } else {
                left
            };
            if e.is_hole() {
                segments.push(Segment::Hole { start: cursor, len: want });
            } else {
                segments.push(
                    Segment::Data { start: cursor, len: want, block: e.phys_block_num },
                );
            }
            cursor += want;
        }
    }
    if cursor < file_size {
        segments.push(Segment::Hole { start: cursor, len: file_size - cursor });
    }
    Layout { segments, overlaps: overlaps as u64 }
}

/// `segments` follow one another without gap or overlap from 0 to `end`.
pub open spec fn tiles(segments: Seq<Segment>, end: int) -> bool
    decreases segments.len(),
{
    if segments.len() == 0 {
        end == 0
    } else {
        let last = segments.last();
        last.start() + last.size() == end && tiles(segments.drop_last(), last.start())
    }
}

/// Segment `segment` of a file of `size` bytes is backed by one of `extents`: it
/// begins where the extent does, uses its blocks, and ends with it or with the
/// file.
pub open spec fn backed(segment: Segment, extents: Seq<FileExtent>, size: int) -> bool {
    segment is Data ==> exists|k: int|
        0 <= k < extents.len() && #[trigger] extents[k].logical_addr < size && segment
            == extent_segment(extents[k], size)
}

proof fn lemma_layout_from(
    extents: Seq<FileExtent>,
    i: int,
    cursor: int,
    size: int,
    done: LayoutView,
)
    requires
        0 <= i <= extents.len(),
        0 <= cursor <= size <= u64::MAX,
        tiles(done.segments, cursor),
        forall|k: int|
            0 <= k < done.segments.len() ==> backed(#[trigger] done.segments[k], extents, size),
    ensures
        ({
            let all = layout_from(extents, i, cursor, size, done);
            &&& tiles(all.segments, size)
            &&& forall|k: int|
                0 <= k < all.segments.len() ==> backed(#[trigger] all.segments[k], extents, size)
        }),
    decreases extents.len() - i,
{
    let segs = done.segments;
    assert(segs.push(hole(cursor, size)).drop_last() =~= segs);
    if cursor < size && i < extents.len() {
        let e = extents[i];
        if e.logical_addr < cursor {
            lemma_layout_from(
                extents,
                i + 1,
                cursor,
                size,
                LayoutView { overlaps: done.overlaps + 1, ..done },
            );
        } else if e.logical_addr < size {
            let segment = extent_segment(e, size);
            let gap = segs.push(hole(cursor, e.logical_addr as int));
            assert(gap.drop_last() =~= segs);
            let before = if e.logical_addr > cursor {
                gap
            } else {
                segs
            };
            assert(tiles(before, e.logical_addr as int));
            assert(before.push(segment).drop_last() =~= before);
            assert(extents[i].logical_addr < size);
            assert(backed(segment, extents, size));
            lemma_layout_from(
                extents,
                i + 1,
                segment.start() + segment.size(),
                size,
                LayoutView { segments: before.push(segment), ..done },
            );
        }
    }
}

/// A layout covers every byte of the file exactly once, from 0 to its size.
pub proof fn law_layout_tiles_the_file(extents: Seq<FileExtent>, size: u64)
    ensures
        tiles(layout_of(extents, size as int).segments, size as int),
{
    lemma_layout_from(
        extents,
        0,
        0,
        size as int,
        LayoutView { segments: Seq::empty(), overlaps: 0 },
    );
}

/// Every run of data in a layout is the beginning of one extent, read from that
/// extent's blocks and cut only at the end of the file; everything else is zero.
pub proof fn law_layout_data_comes_from_extents(extents: Seq<FileExtent>, size: u64, k: int)
    requires
        0 <= k < layout_of(extents, size as int).segments.len(),
    ensures
        backed(layout_of(extents, size as int).segments[k], extents, size as int),
{
    lemma_layout_from(
        extents,
        0,
        0,
        size as int,
        LayoutView { segments: Seq::empty(), overlaps: 0 },
    );
}

/// No extent begins before the end of one that stands before it.
pub open spec fn is_disjoint(extents: Seq<FileExtent>) -> bool {
    forall|i: int, j: int|
        0 <= i < j < extents.len() ==> #[trigger] extents[i].logical_addr + extents[i].len
            <= #[trigger] extents[j].logical_addr
}

proof fn lemma_disjoint(
    extents: Seq<FileExtent>,
    i: int,
    cursor: int,
    size: int,
    done: LayoutView,
)
    requires
        is_disjoint(extents),
        0 <= i <= extents.len(),
        0 <= cursor <= size <= u64::MAX,
        forall|k: int| i <= k < extents.len() ==> cursor <= #[trigger] extents[k].logical_addr,
    ensures
        ({
            let all = layout_from(extents, i, cursor, size, done);
            &&& all.overlaps == done.overlaps
            &&& done.segments.is_prefix_of(all.segments)
            &&& cursor < size ==> forall|k: int|
                i <= k < extents.len() && #[trigger] extents[k].logical_addr < size
                    ==> extents[k].len == 0 || all.segments.contains(
                    extent_segment(extents[k], size),
                )
        }),
    decreases extents.len() - i,
{
    if cursor < size && i < extents.len() && extents[i].logical_addr < size {
        let e = extents[i];
        let segment = extent_segment(e, size);
        let before = if e.logical_addr > cursor {
            done.segments.push(hole(cursor, e.logical_addr as int))
        } else {
            done.segments
        };
        let next = before.push(segment);
        let all = layout_from(extents, i, cursor, size, done);
        assert forall|k: int| i + 1 <= k < extents.len() implies segment.start() + segment.size()
            <= #[trigger] extents[k].logical_addr by {
            assert(extents[i].logical_addr + extents[i].len <= extents[k].logical_addr);
        }
        lemma_disjoint(
            extents,
            i + 1,
            segment.start() + segment.size(),
            size,
            LayoutView { segments: next, ..done },
        );
        assert(next.is_prefix_of(all.segments));
        assert(all.segments[next.len() - 1] == next[next.len() - 1]);
        assert(all.segments.contains(segment));
    }
}

/// Where no extent begins inside an earlier one, none is left out: there are no
/// overlaps, and every extent that has bytes inside the file is laid out.
pub proof fn law_disjoint_extents_are_all_laid_out(extents: Seq<FileExtent>, size: u64)
    requires
        is_disjoint(extents),
    ensures
        layout_of(extents, size as int).overlaps == 0,
        forall|k: int|
            0 <= k < extents.len() && #[trigger] extents[k].logical_addr < size && extents[k].len
                > 0 ==> layout_of(extents, size as int).segments.contains(
                extent_segment(extents[k], size as int),
            ),
{
    lemma_disjoint(
        extents,
        0,
        0,
        size as int,
        LayoutView { segments: Seq::empty(), overlaps: 0 },
    );
}

// ---------------------------------------------------------------------------
// Reading
// ---------------------------------------------------------------------------

/// How many blocks of `bs` bytes hold `len` bytes.
pub open spec fn block_count(len: int, bs: int) -> nat {
    if len <= 0 {
        0
    } else {
        ((len + bs - 1) / bs) as nat
    }
}

/// The blocks that a segment reads, in order. Block numbers wrap at 64 bits.
pub open spec fn segment_reads(segment: Segment, bs: int) -> Seq<u64> {
    match segment {
        Segment::Hole { .. } => Seq::empty(),
        Segment::Data { len, block, .. } => Seq::new(
            block_count(len as int, bs),
            |k: int| ((block + k) % 0x1_0000_0000_0000_0000) as u64,
        ),
    }
}

/// The blocks that a layout reads, in order.
pub open spec fn reads(segments: Seq<Segment>, bs: int) -> Seq<u64>
    decreases segments.len(),
{
    if segments.len() == 0 {
        Seq::empty()
    } else {
        reads(segments.drop_last(), bs) + segment_reads(segments.last(), bs)
    }
}

/// The bytes of a segment that `blocks`, the first of those it reads, supply.
/// Byte `o` of a data segment is byte `o % bs` of its block `o / bs`.
pub open spec fn segment_bytes(segment: Segment, bs: int, blocks: Seq<Seq<u8>>) -> Seq<u8> {
    match segment {
        Segment::Hole { len, .. } => Seq::new(len as nat, |o: int| 0u8),
        Segment::Data { len, .. } => Seq::new(
            if len < blocks.len() * bs {
                len as nat
            } else {
                (blocks.len() * bs) as nat
            },
            |o: int| blocks[o / bs][o % bs],
        ),
    }
}

/// The bytes of a layout up to where a block beyond `blocks`, the first of those
/// it reads, would be needed.
pub open spec fn file_bytes(segments: Seq<Segment>, bs: int, blocks: Seq<Seq<u8>>) -> Seq<u8>
    decreases segments.len(),
{
    if segments.len() == 0 {
        Seq::empty()
    } else {
        let front = segments.drop_last();
        let n = reads(front, bs).len() as int;
        if blocks.len() < n {
            file_bytes(front, bs, blocks)
        } else {
            file_bytes(front, bs, blocks.take(n)) + segment_bytes(
                segments.last(),
                bs,
                blocks.skip(n),
            )
        }
    }
}

/// Reading the blocks `wanted` in order gave `replies`, one reply for each block
/// that was read.
pub open spec fn answered<D: BlockDevice>(
    dev: &D,
    block_size: u32,
    wanted: Seq<u64>,
    replies: Seq<Result<Vec<u8>, Error>>,
) -> bool {
    &&& replies.len() <= wanted.len()
    &&& forall|i: int|
        0 <= i < replies.len() ==> call_ensures(
            D::read_block,
            (dev, wanted[i], block_size),
            #[trigger] replies[i],
        )
}

/// All replies hold a block.
pub open spec fn all_read(replies: Seq<Result<Vec<u8>, Error>>) -> bool {
    forall|i: int| 0 <= i < replies.len() ==> (#[trigger] replies[i]) is Ok
}

/// The blocks in `replies`.
pub open spec fn blocks_in(replies: Seq<Result<Vec<u8>, Error>>) -> Seq<Seq<u8>> {
    Seq::new(replies.len(), |i: int| replies[i]->Ok_0@)
}

/// What happens where reading the blocks `wanted` gives `replies`: either all are
/// read, or the last reply is the error that ended the reading. Either way the
/// bytes in `out` are those that the blocks read supply.
pub open spec fn read_through(
    r: Result<(), Error>,
    replies: Seq<Result<Vec<u8>, Error>>,
    wanted: Seq<u64>,
    segments: Seq<Segment>,
    bs: int,
    out: Seq<u8>,
) -> bool {
    match r {
        Ok(_) => replies.len() == wanted.len() && all_read(replies) && out == file_bytes(
            segments,
            bs,
            blocks_in(replies),
        ),
        Err(error) => replies.len() > 0 && replies.last() == Err::<Vec<u8>, Error>(error)
            && all_read(replies.drop_last()) && out == file_bytes(
            segments,
            bs,
            blocks_in(replies.drop_last()),
        ),
    }
}

proof fn lemma_block_count(len: int, bs: int, k: int)
    by (nonlinear_arith)
    requires
        bs > 0,
        len >= 0,
        k >= 0,
    ensures
        k * bs < len ==> k < block_count(len, bs),
        k * bs >= len && (k == 0 || (k - 1) * bs < len) ==> k == block_count(len, bs),
{
}

proof fn lemma_reads_grow(segments: Seq<Segment>, i: int, bs: int)
    requires
        0 <= i <= segments.len(),
    ensures
        reads(segments.take(i), bs).is_prefix_of(reads(segments, bs)),
    decreases segments.len() - i,
{
    if i == segments.len() {
        assert(segments.take(i) =~= segments);
    } else {
        let front = segments.drop_last();
        assert(front.take(i) =~= segments.take(i));
        lemma_reads_grow(front, i, bs);
    }
}

proof fn lemma_file_bytes_stop(segments: Seq<Segment>, i: int, bs: int, blocks: Seq<Seq<u8>>)
    requires
        0 <= i <= segments.len(),
        blocks.len() < reads(segments.take(i), bs).len(),
    ensures
        file_bytes(segments, bs, blocks) == file_bytes(segments.take(i), bs, blocks),
    decreases segments.len() - i,
{
    if i == segments.len() {
        assert(segments.take(i) =~= segments);
    } else {
        let front = segments.drop_last();
        assert(front.take(i) =~= segments.take(i));
        lemma_reads_grow(front, i, bs);
        lemma_file_bytes_stop(front, i, bs, blocks);
    }
}

pub(crate) proof fn lemma_segment_bytes_grow(segment: Segment, bs: int, blocks: Seq<Seq<u8>>, next: Seq<u8>)
    requires
        bs > 0,
        next.len() == bs,
        segment is Data,
        blocks.len() * bs < segment.size(),
    ensures
        ({
            let k = blocks.len() as int;
            let n = if segment.size() - k * bs < bs {
                segment.size() - k * bs
            } else {
                bs
            };
            segment_bytes(segment, bs, blocks.push(next)) == segment_bytes(segment, bs, blocks)
                + next.take(n)
        }),
{
    let k = blocks.len() as int;
    let len = segment.size();
    assert((k + 1) * bs == k * bs + bs) by (nonlinear_arith);
    let n = if len - k * bs < bs {
        len - k * bs
    } else {
        bs
    };
    let grown = segment_bytes(segment, bs, blocks.push(next));
    let sum = segment_bytes(segment, bs, blocks) + next.take(n);
    assert(grown.len() == sum.len());
    assert forall|o: int| 0 <= o < grown.len() implies grown[o] == sum[o] by {
        if o < k * bs {
            assert(0 <= o / bs < k) by (nonlinear_arith)
                requires
                    0 <= o < k * bs,
                    bs > 0,
            ;
        } else {
            assert(o / bs == k && o % bs == o - k * bs) by (nonlinear_arith)
                requires
                    k * bs <= o < k * bs + bs,
                    bs > 0,
                    k >= 0,
            ;
        }
    }
    assert(grown =~= sum);
}

/// What the reading of one segment did, as [`read_through`] says of a layout.
pub open spec fn segment_read_through(
    r: Result<(), Error>,
    replies: Seq<Result<Vec<u8>, Error>>,
    segment: Segment,
    bs: int,
    out: Seq<u8>,
) -> bool {
    match r {
        Ok(_) => replies.len() == segment_reads(segment, bs).len() && all_read(replies) && out
            == segment_bytes(segment, bs, blocks_in(replies)),
        Err(error) => replies.len() > 0 && replies.last() == Err::<Vec<u8>, Error>(error)
            && all_read(replies.drop_last()) && out == segment_bytes(
            segment,
            bs,
            blocks_in(replies.drop_last()),
        ),
    }
}

/// Of the blocks `wanted`, in their order, those up to the last reply were read, and no
/// other block: all of them where `r` is a success.
pub open spec fn blocks_read(
    before: Seq<u64>,
    after: Seq<u64>,
    wanted: Seq<u64>,
    r: Result<(), Error>,
) -> bool {
    exists|n: int|
        {
            &&& 0 <= n <= wanted.len()
            &&& after == before + #[trigger] wanted.take(n)
            &&& r is Ok ==> n == wanted.len()
            &&& r is Err ==> n > 0
        }
}

fn write_zeros(writer: &mut Vec<u8>, n: u64)
    ensures
        final(writer)@ == old(writer)@ + Seq::new(n as nat, |o: int| 0u8),
{
    let mut done: u64 = 0;
    while done < n
        invariant
            done <= n,
            writer@ =~= old(writer)@ + Seq::new(done as nat, |o: int| 0u8),
        decreases n - done,
    {
        writer.push(0);
        done += 1;
    }
}

fn write_part(writer: &mut Vec<u8>, data: &Vec<u8>, n: usize)
    requires
        n <= data@.len(),
    ensures
        final(writer)@ == old(writer)@ + data@.take(n as int),
{
    let mut i: usize = 0;
    while i < n
        invariant
            i <= n <= data@.len(),
            writer@ =~= old(writer)@ + data@.take(i as int),
        decreases n - i,
    {
        writer.push(data[i]);
        i += 1;
    }
}

fn write_segment<D: BlockDevice>(
    dev: &mut BlockReads<D>,
    block_size: u32,
    segment: Segment,
    writer: &mut Vec<u8>,
) -> (r: Result<(), Error>)
    requires
        block_size > 0 || segment is Hole || segment.size() == 0,
    ensures
        final(dev).dev() == old(dev).dev(),
        blocks_read(old(dev)@, final(dev)@, segment_reads(segment, block_size as int), r),
        exists|replies: Seq<Result<Vec<u8>, Error>>, out: Seq<u8>|
            {
                &&& #[trigger] answered(
                    old(dev).dev(),
                    block_size,
                    segment_reads(segment, block_size as int),
                    replies,
                )
                &&& #[trigger] segment_read_through(r, replies, segment, block_size as int, out)
                &&& final(writer)@ == old(writer)@ + out
            },
{
    let ghost bs = block_size as int;
    let ghost device = dev.dev();
    let ghost start = dev@;
    let ghost wanted = segment_reads(segment, bs);
    let ghost mut replies: Seq<Result<Vec<u8>, Error>> = Seq::empty();
    match segment {
        Segment::Hole { len, .. } => {
            write_zeros(writer, len);
            proof {
                let out = Seq::new(len as nat, |o: int| 0u8);
                assert(blocks_in(replies) =~= Seq::empty());
                assert(segment_bytes(segment, bs, blocks_in(replies)) =~= out);
                assert(answered(device, block_size, wanted, replies));
                assert(segment_read_through(Ok(()), replies, segment, bs, out));
                assert(start + wanted.take(0) =~= start);
            }
            Ok(())
        },
        Segment::Data { len, block, .. } => {
            let mut done: u64 = 0;
            let mut at: u64 = block;
            proof {
                assert(blocks_in(replies) =~= Seq::empty());
                assert(segment_bytes(segment, bs, blocks_in(replies)) =~= Seq::empty());
                assert(writer@ =~= old(writer)@ + segment_bytes(segment, bs, blocks_in(replies)));
                assert(start + wanted.take(0) =~= start);
            }
            while done < len
                invariant
                    block_size > 0 || len == 0,
                    bs == block_size,
                    segment == (Segment::Data { start: segment->Data_start, len, block }),
                    wanted == segment_reads(segment, bs),
                    done <= len,
                    done == if len < replies.len() * bs {
                        len as int
                    } else {
                        replies.len() * bs
                    },
                    replies.len() == 0 || (replies.len() - 1) * bs < len,
                    at == ((block + replies.len()) % 0x1_0000_0000_0000_0000) as u64,
                    all_read(replies),
                    device == old(dev).dev(),
                    start == old(dev)@,
                    dev.dev() == device,
                    dev@ == start + wanted.take(replies.len() as int),
                    answered(device, block_size, wanted, replies),
                    writer@ == old(writer)@ + segment_bytes(segment, bs, blocks_in(replies)),
                decreases len - done,
            {
                let ghost k = replies.len() as int;
                proof {
                    lemma_block_count(len as int, bs, k);
                    assert(wanted[k] == at);
                }
                let reply = dev.read_block(at, block_size);
                let ghost before = replies;
                proof {
                    replies = replies.push(reply);
                    assert(replies.drop_last() =~= before);
                    assert(dev@ =~= start + wanted.take(k + 1));
                    assert(answered(device, block_size, wanted, replies));
                }
                match reply {
                    Err(error) => {
                        proof {
                            let out = segment_bytes(segment, bs, blocks_in(before));
                            assert(segment_read_through(Err(error), replies, segment, bs, out));
                        }
                        return Err(error);
                    },
                    Ok(data) => {
                        let left: u64 = len - done;
                        let n: u64 = if left < block_size as u64 {
                            left
                        } else {
                            block_size as u64
                        };
                        write_part(writer, &data, n as usize);
                        done += n;
                        at = at.wrapping_add(1);
                        proof {
                            lemma_segment_bytes_grow(segment, bs, blocks_in(before), data@);
                            assert(blocks_in(replies) =~= blocks_in(before).push(data@));
                            assert((k + 1) * bs == k * bs + bs) by (nonlinear_arith);
                        }
                    },
                }
            }
            proof {
                let out = segment_bytes(segment, bs, blocks_in(replies));
                if len == 0 {
                    assert(replies.len() == 0);
                } else {
                    lemma_block_count(len as int, bs, replies.len() as int);
                }
                assert(segment_read_through(Ok(()), replies, segment, bs, out));
            }
            Ok(())
        },
    }
}

fn write_segments<D: BlockDevice>(
    dev: &mut BlockReads<D>,
    block_size: u32,
    segments: &Vec<Segment>,
    writer: &mut Vec<u8>,
) -> (r: Result<(), Error>)
    requires
        block_size > 0 || data_size(segments@) == 0,
    ensures
        final(dev).dev() == old(dev).dev(),
        blocks_read(old(dev)@, final(dev)@, reads(segments@, block_size as int), r),
        extents_written(old(dev).dev(), block_size, segments@, r, old(writer)@, final(writer)@),
{
    let ghost bs = block_size as int;
    let ghost device = dev.dev();
    let ghost start = dev@;
    let ghost wanted = reads(segments@, bs);
    let ghost mut replies: Seq<Result<Vec<u8>, Error>> = Seq::empty();
    let mut i: usize = 0;
    proof {
        assert(segments@.take(0) =~= Seq::empty());
        assert(start + wanted.take(0) =~= start);
        assert(writer@ =~= old(writer)@ + file_bytes(segments@.take(0), bs, blocks_in(replies)));
    }
    while i < segments.len()
        invariant
            block_size > 0 || data_size(segments@) == 0,
            bs == block_size,
            wanted == reads(segments@, bs),
            i <= segments@.len(),
            replies.len() == reads(segments@.take(i as int), bs).len(),
            all_read(replies),
            device == old(dev).dev(),
            start == old(dev)@,
            dev.dev() == device,
            dev@ == start + wanted.take(replies.len() as int),
            answered(device, block_size, wanted, replies),
            writer@ == old(writer)@ + file_bytes(
                segments@.take(i as int),
                bs,
                blocks_in(replies),
            ),
        decreases segments@.len() - i,
    {
        let ghost written = writer@;
        let ghost seen = dev@;
        let segment = segments[i];
        proof {
            lemma_no_data(segments@, i as int);
        }
        let r = write_segment(dev, block_size, segment, writer);
        proof {
            let (more, out) = choose|more: Seq<Result<Vec<u8>, Error>>, out: Seq<u8>|
                {
                    &&& #[trigger] answered(device, block_size, segment_reads(segment, bs), more)
                    &&& #[trigger] segment_read_through(r, more, segment, bs, out)
                    &&& writer@ == written + out
                };
            let front = segments@.take(i as int);
            let next = segments@.take(i + 1);
            assert(next.drop_last() =~= front);
            assert(next.last() == segment);
            lemma_reads_grow(segments@, i + 1, bs);
            let all = replies + more;
            let n = choose|n: int|
                {
                    &&& 0 <= n <= segment_reads(segment, bs).len()
                    &&& dev@ == seen + #[trigger] segment_reads(segment, bs).take(n)
                    &&& r is Ok ==> n == segment_reads(segment, bs).len()
                    &&& r is Err ==> n > 0
                };
            assert(wanted.take(replies.len() as int) + segment_reads(segment, bs).take(n)
                =~= wanted.take(replies.len() + n));
            assert(dev@ =~= start + wanted.take(replies.len() + n));
            assert forall|j: int| 0 <= j < all.len() implies call_ensures(
                D::read_block,
                (device, wanted[j], block_size),
                #[trigger] all[j],
            ) by {
                if j < replies.len() {
                    assert(all[j] == replies[j]);
                } else {
                    assert(all[j] == more[j - replies.len()]);
                    assert(wanted[j] == reads(next, bs)[j]);
                }
            }
            assert(answered(device, block_size, wanted, all));
            let good = if r is Ok {
                more
            } else {
                more.drop_last()
            };
            let got = replies + good;
            assert(blocks_in(got).take(replies.len() as int) =~= blocks_in(replies));
            assert(blocks_in(got).skip(replies.len() as int) =~= blocks_in(good));
            assert(file_bytes(next, bs, blocks_in(got)) == file_bytes(
                front,
                bs,
                blocks_in(replies),
            ) + segment_bytes(segment, bs, blocks_in(good)));
            assert(old(writer)@ + file_bytes(front, bs, blocks_in(replies)) + out =~= old(writer)@
                + file_bytes(next, bs, blocks_in(got)));
            assert(all_read(got));
            if r is Err {
                assert(all.drop_last() =~= got);
                assert(all.last() == more.last());
                lemma_file_bytes_stop(segments@, i + 1, bs, blocks_in(got));
                assert(read_through(
                    r,
                    all,
                    wanted,
                    segments@,
                    bs,
                    file_bytes(segments@, bs, blocks_in(got)),
                ));
            } else {
                assert(got =~= all);
            }
            replies = all;
        }
        match r {
            Ok(_) => {},
            Err(error) => return Err(error),
        }
        i += 1;
    }
    proof {
        assert(segments@.take(i as int) =~= segments@);
        assert(wanted.take(replies.len() as int) =~= wanted);
        assert(read_through(
            Ok(()),
            replies,
            wanted,
            segments@,
            bs,
            file_bytes(segments@, bs, blocks_in(replies)),
        ));
    }
    Ok(())
}

// ---------------------------------------------------------------------------
// Outcome
// ---------------------------------------------------------------------------

/// What writing a file's bytes came to.
#[derive(Debug, Clone, Copy)]
pub struct Written {
    /// Total logical bytes reconstructed.
    pub bytes: u64,
    /// Logical bytes supplied by extents that have blocks.
    pub data_bytes: u64,
    /// Number of holes, zero-filled or left sparse.
    pub holes: u64,
    /// Number of overlapping extents left out.
    pub overlaps: u64,
    /// Bytes of the file that could not be written.
    pub missing: u64,
}

impl Default for Written {
    fn default() -> (r: Written)
        ensures
            r == (Written { bytes: 0, data_bytes: 0, holes: 0, overlaps: 0, missing: 0 }),
    {
        Written { bytes: 0, data_bytes: 0, holes: 0, overlaps: 0, missing: 0 }
    }
}

/// The number of holes among `segments`.
pub open spec fn hole_count(segments: Seq<Segment>) -> int
    decreases segments.len(),
{
    if segments.len() == 0 {
        0
    } else {
        hole_count(segments.drop_last()) + if segments.last() is Hole {
            1int
        } else {
            0
        }
    }
}

/// The number of bytes that the data segments among `segments` hold.
pub open spec fn data_size(segments: Seq<Segment>) -> int
    decreases segments.len(),
{
    if segments.len() == 0 {
        0
    } else {
        data_size(segments.drop_last()) + if segments.last() is Data {
            segments.last().size()
        } else {
            0
        }
    }
}

/// The account of a file of `size` bytes that was written by `layout`.
pub open spec fn account(layout: LayoutView, size: u64) -> Written {
    Written {
        bytes: size,
        data_bytes: data_size(layout.segments) as u64,
        holes: hole_count(layout.segments) as u64,
        overlaps: layout.overlaps as u64,
        missing: 0,
    }
}

pub(crate) proof fn lemma_data_size(segments: Seq<Segment>, i: int)
    requires
        0 <= i <= segments.len(),
    ensures
        0 <= data_size(segments.take(i)) <= data_size(segments),
    decreases segments.len(),
{
    if segments.len() > 0 {
        let front = segments.drop_last();
        if i == segments.len() {
            assert(segments.take(i) =~= segments);
            lemma_data_size(front, i - 1);
        } else {
            assert(segments.take(i) =~= front.take(i));
            lemma_data_size(front, i);
        }
    } else {
        assert(segments.take(i) =~= segments);
    }
}

/// A segment of a file lies inside it.
pub(crate) proof fn lemma_segment_lies_within(segments: Seq<Segment>, end: int, i: int)
    requires
        tiles(segments, end),
        0 <= i < segments.len(),
    ensures
        segments[i].start() + segments[i].size() <= end,
    decreases segments.len(),
{
    if i < segments.len() - 1 {
        lemma_segment_lies_within(segments.drop_last(), segments.last().start(), i);
    }
}

/// Where no segment holds data, none of them has bytes to read.
pub(crate) proof fn lemma_no_data(segments: Seq<Segment>, i: int)
    requires
        0 <= i < segments.len(),
    ensures
        data_size(segments) == 0 && segments[i] is Data ==> segments[i].size() == 0,
{
    lemma_data_size(segments, i + 1);
    lemma_data_size(segments.take(i + 1), i);
    assert(segments.take(i + 1).take(i) =~= segments.take(i));
    assert(segments.take(i + 1).drop_last() =~= segments.take(i));
}

proof fn lemma_tiled_data(segments: Seq<Segment>, end: int)
    requires
        tiles(segments, end),
    ensures
        data_size(segments) <= end,
        0 <= hole_count(segments) <= segments.len(),
        hole_count(segments) == 0 ==> data_size(segments) == end,
    decreases segments.len(),
{
    if segments.len() > 0 {
        lemma_tiled_data(segments.drop_last(), segments.last().start());
    }
}

/// Counts up what `segments`, which tile a file of `size` bytes, come to.
fn count_up(layout: &Layout, file_size: u64) -> (r: Written)
    requires
        tiles(layout.segments@, file_size as int),
    ensures
        r == account(layout@, file_size),
{
    let mut data_bytes: u64 = 0;
    let mut holes: usize = 0;
    let mut i: usize = 0;
    let ghost segments = layout.segments@;
    proof {
        assert(segments.take(0) =~= Seq::empty());
    }
    while i < layout.segments.len()
        invariant
            segments == layout.segments@,
            tiles(segments, file_size as int),
            holes <= i <= segments.len(),
            data_bytes == data_size(segments.take(i as int)),
            holes == hole_count(segments.take(i as int)),
        decreases segments.len() - i,
    {
        proof {
            let next = segments.take(i + 1);
            assert(next.drop_last() =~= segments.take(i as int));
            assert(next.last() == segments[i as int]);
            lemma_data_size(segments, i + 1);
            lemma_tiled_data(segments, file_size as int);
        }
        match layout.segments[i] {
            Segment::Hole { .. } => {
                holes += 1;
            },
            Segment::Data { len, .. } => {
                data_bytes += len;
            },
        }
        i += 1;
    }
    proof {
        assert(segments.take(i as int) =~= segments);
    }
    Written {
        bytes: file_size,
        data_bytes,
        holes: holes as u64,
        overlaps: layout.overlaps,
        missing: 0,
    }
}

/// Orders `extents` and lays a file of `file_size` bytes out over them. The
/// account says what writing the file by that layout comes to.
pub fn plan(extents: &mut Vec<FileExtent>, file_size: u64) -> (r: (Layout, Written))
    ensures
        final(extents)@ == by_address(old(extents)@),
        r.0@ == layout_of(by_address(old(extents)@), file_size as int),
        r.1 == account(r.0@, file_size),
{
    let ordered = sort_by_address(extents);
    let laid_out = layout(&ordered, file_size);
    proof {
        law_layout_tiles_the_file(ordered@, file_size);
    }
    let written = count_up(&laid_out, file_size);
    *extents = ordered;
    (laid_out, written)
}

/// A result without its value.
pub open spec fn outcome<T>(r: Result<T, Error>) -> Result<(), Error> {
    match r {
        Ok(_) => Ok(()),
        Err(error) => Err(error),
    }
}

/// Appends the `file_size` bytes of a file to `writer`, following the logical
/// layout of `extents`: extents are put in the order of their addresses, gaps and
/// extents without blocks become zeros, an extent that begins inside an earlier
/// one is left out, and the output ends exactly at `file_size`. Where a block
/// cannot be read, what was laid out before it stays in `writer`.
pub fn write_extents<D: BlockDevice>(
    dev: &mut BlockReads<D>,
    block_size: u32,
    extents: &mut Vec<FileExtent>,
    file_size: u64,
    writer: &mut Vec<u8>,
) -> (r: Result<Written, Error>)
    requires
        block_size > 0 || data_size(
            layout_of(by_address(old(extents)@), file_size as int).segments,
        ) == 0,
    ensures
        final(dev).dev() == old(dev).dev(),
        final(extents)@ == by_address(old(extents)@),
        ({
            let layout = layout_of(by_address(old(extents)@), file_size as int);
            &&& r matches Ok(written) ==> written == account(layout, file_size)
            &&& blocks_read(
                old(dev)@,
                final(dev)@,
                reads(layout.segments, block_size as int),
                outcome(r),
            )
            &&& extents_written(
                old(dev).dev(),
                block_size,
                layout.segments,
                outcome(r),
                old(writer)@,
                final(writer)@,
            )
        }),
{
    let (laid_out, written) = plan(extents, file_size);
    let r = write_segments(dev, block_size, &laid_out.segments, writer);
    match r {
        Ok(done) => {
            proof {
                assert(done == ());
            }
            Ok(written)
        },
        Err(error) => Err(error),
    }
}

/// Reading `segments` from `dev` ended with `r` and turned the output `before`
/// into `after`: the device gave some replies, and `after` is `before` followed by
/// the bytes that those replies supply.
pub open spec fn extents_written<D: BlockDevice>(
    dev: &D,
    block_size: u32,
    segments: Seq<Segment>,
    r: Result<(), Error>,
    before: Seq<u8>,
    after: Seq<u8>,
) -> bool {
    let wanted = reads(segments, block_size as int);
    exists|replies: Seq<Result<Vec<u8>, Error>>, out: Seq<u8>|
        {
            &&& #[trigger] answered(dev, block_size, wanted, replies)
            &&& #[trigger] read_through(r, replies, wanted, segments, block_size as int, out)
            &&& after == before + out
        }
}

proof fn lemma_layout_len(
    extents: Seq<FileExtent>,
    i: int,
    cursor: int,
    size: int,
    done: LayoutView,
)
    requires
        0 <= i <= extents.len(),
    ensures
        layout_from(extents, i, cursor, size, done).segments.len() <= done.segments.len() + 2 * (
        extents.len() - i) + 1,
    decreases extents.len() - i,
{
    if cursor < size && i < extents.len() {
        let e = extents[i];
        let segment = extent_segment(e, size);
        let before = if e.logical_addr > cursor {
            done.segments.push(hole(cursor, e.logical_addr as int))
        } else {
            done.segments
        };
        lemma_layout_len(
            extents,
            i + 1,
            cursor,
            size,
            LayoutView { overlaps: done.overlaps + 1, ..done },
        );
        lemma_layout_len(
            extents,
            i + 1,
            segment.start() + segment.size(),
            size,
            LayoutView { segments: before.push(segment), ..done },
        );
    }
}

/// Where the account of a file shows no hole, the data is the whole file. No memory
/// holds as many extents as are left out here.
pub proof fn law_no_hole_means_all_data(extents: Seq<FileExtent>, size: u64)
    requires
        extents.len() < 0x4000_0000_0000_0000,
        account(layout_of(extents, size as int), size).holes == 0,
    ensures
        account(layout_of(extents, size as int), size).data_bytes == size,
{
    let segments = layout_of(extents, size as int).segments;
    lemma_layout_len(
        extents,
        0,
        0,
        size as int,
        LayoutView { segments: Seq::empty(), overlaps: 0 },
    );
    law_layout_tiles_the_file(extents, size);
    lemma_tiled_data(segments, size as int);
    law_account_is_complete(extents, size);
}

/// A written file accounts for all of its bytes: none is missing, the data is no
/// more than the file and all of it is counted, and where there is no hole the data is the whole file.
pub proof fn law_account_is_complete(extents: Seq<FileExtent>, size: u64)
    ensures
        ({
            let written = account(layout_of(extents, size as int), size);
            &&& written.bytes == size
            &&& written.missing == 0
            &&& written.data_bytes <= size
            &&& written.data_bytes == data_size(layout_of(extents, size as int).segments)
            &&& hole_count(layout_of(extents, size as int).segments) == 0 ==> written.data_bytes
                == size
        }),
{
    law_layout_tiles_the_file(extents, size);
    let segments = layout_of(extents, size as int).segments;
    lemma_tiled_data(segments, size as int);
    lemma_data_size(segments, 0);
    assert(segments.take(segments.len() as int) =~= segments);
    lemma_data_size(segments, segments.len() as int);
}

/// `blocks` are the contents of all blocks that a layout reads.
pub open spec fn complete(segments: Seq<Segment>, bs: int, blocks: Seq<Seq<u8>>) -> bool {
    &&& blocks.len() == reads(segments, bs).len()
    &&& forall|i: int| 0 <= i < blocks.len() ==> (#[trigger] blocks[i]).len() == bs
}

pub(crate) proof fn lemma_file_size(segments: Seq<Segment>, end: int, bs: int, blocks: Seq<Seq<u8>>)
    requires
        bs > 0 || bs == 0 && data_size(segments) == 0,
        tiles(segments, end),
        complete(segments, bs, blocks),
    ensures
        file_bytes(segments, bs, blocks).len() == end,
    decreases segments.len(),
{
    if segments.len() > 0 {
        let front = segments.drop_last();
        let last = segments.last();
        let n = reads(front, bs).len() as int;
        lemma_no_data(segments, segments.len() - 1);
        lemma_data_size(segments, segments.len() - 1);
        assert(segments.take(segments.len() - 1) =~= front);
        lemma_file_size(front, last.start(), bs, blocks.take(n));
        match last {
            Segment::Data { len, .. } if len > 0 => {
                let count = block_count(len as int, bs) as int;
                assert(count * bs >= len) by (nonlinear_arith)
                    requires
                        count == (len + bs - 1) / bs,
                        bs > 0,
                ;
            },
            _ => {},
        }
    }
}

/// Once all blocks are read, the output has exactly the size of the file, and
/// each run of the layout stands at its place in it: zeros where it is a hole,
/// the bytes of its own blocks where it is data.
pub proof fn law_output_follows_the_layout(
    segments: Seq<Segment>,
    size: int,
    bs: int,
    blocks: Seq<Seq<u8>>,
    k: int,
)
    requires
        bs > 0,
        tiles(segments, size),
        complete(segments, bs, blocks),
        0 <= k < segments.len(),
    ensures
        ({
            let bytes = file_bytes(segments, bs, blocks);
            let first = reads(segments.take(k), bs).len() as int;
            let own = blocks.subrange(first, reads(segments.take(k + 1), bs).len() as int);
            &&& bytes.len() == size
            &&& 0 <= segments[k].start() <= segments[k].start() + segments[k].size() <= size
            &&& bytes.subrange(segments[k].start(), segments[k].start() + segments[k].size())
                == segment_bytes(segments[k], bs, own)
        }),
    decreases segments.len(),
{
    lemma_file_size(segments, size, bs, blocks);
    let front = segments.drop_last();
    let last = segments.last();
    let n = reads(front, bs).len() as int;
    let bytes = file_bytes(segments, bs, blocks);
    lemma_file_size(front, last.start(), bs, blocks.take(n));
    if k == segments.len() - 1 {
        assert(segments.take(k) =~= front);
        assert(segments.take(k + 1) =~= segments);
        assert(blocks.skip(n) =~= blocks.subrange(n, reads(segments, bs).len() as int));
        assert(bytes.subrange(last.start(), size) =~= segment_bytes(last, bs, blocks.skip(n)));
    } else {
        law_output_follows_the_layout(front, last.start(), bs, blocks.take(n), k);
        assert(front.take(k) =~= segments.take(k));
        assert(front.take(k + 1) =~= segments.take(k + 1));
        lemma_reads_grow(front, k + 1, bs);
        lemma_reads_grow(segments.take(k + 1), k, bs);
        assert(segments.take(k + 1).take(k) =~= segments.take(k));
        let first = reads(segments.take(k), bs).len() as int;
        let past = reads(segments.take(k + 1), bs).len() as int;
        assert(blocks.take(n).subrange(first, past) =~= blocks.subrange(first, past));
        let whole = file_bytes(front, bs, blocks.take(n));
        let from = segments[k].start();
        let to = from + segments[k].size();
        assert(bytes.subrange(from, to) =~= whole.subrange(from, to));
    }
}

/// A file that was written adds exactly its size to the output.
pub proof fn law_written_file_has_its_size<D: BlockDevice>(
    dev: &D,
    block_size: u32,
    extents: Seq<FileExtent>,
    size: u64,
    before: Seq<u8>,
    after: Seq<u8>,
)
    requires
        block_size > 0 || data_size(layout_of(extents, size as int).segments) == 0,
        extents_written(
            dev,
            block_size,
            layout_of(extents, size as int).segments,
            Ok(()),
            before,
            after,
        ),
    ensures
        after.len() == before.len() + size,
        before.is_prefix_of(after),
{
    let segments = layout_of(extents, size as int).segments;
    let bs = block_size as int;
    let wanted = reads(segments, bs);
    let (replies, out) = choose|replies: Seq<Result<Vec<u8>, Error>>, out: Seq<u8>|
        {
            &&& #[trigger] answered(dev, block_size, wanted, replies)
            &&& #[trigger] read_through(Ok(()), replies, wanted, segments, bs, out)
            &&& after == before + out
        };
    let blocks = blocks_in(replies);
    assert forall|i: int| 0 <= i < blocks.len() implies (#[trigger] blocks[i]).len() == bs by {
        assert(replies[i] is Ok);
        assert(call_ensures(D::read_block, (dev, wanted[i], block_size), replies[i]));
    }
    law_layout_tiles_the_file(extents, size);
    lemma_file_size(segments, size as int, bs, blocks);
}

// ---------------------------------------------------------------------------
// Sparse output
// ---------------------------------------------------------------------------

/// Bytes and where they begin in a file.
#[derive(Debug)]
pub struct Piece {
    pub start: u64,
    pub bytes: Vec<u8>,
}

/// A file of which only the pieces hold data. Everything else up to its length
/// reads as zero and needs no storage.
#[derive(Debug)]
pub struct SparseFile {
    pub pieces: Vec<Piece>,
    pub len: u64,
}

/// The pieces as pairs of place and bytes.
pub open spec fn piece_views(pieces: Seq<Piece>) -> Seq<(u64, Seq<u8>)> {
    Seq::new(pieces.len(), |i: int| (pieces[i].start, pieces[i].bytes@))
}

/// A file of `len` zeros on which the pieces were written in order.
pub open spec fn laid_on_zeros(pieces: Seq<(u64, Seq<u8>)>, len: int) -> Seq<u8>
    decreases pieces.len(),
{
    if pieces.len() == 0 {
        Seq::new(len as nat, |o: int| 0u8)
    } else {
        let below = laid_on_zeros(pieces.drop_last(), len);
        let (start, bytes) = pieces.last();
        Seq::new(
            len as nat,
            |o: int|
                if start <= o < start + bytes.len() {
                    bytes[o - start]
                } else {
                    below[o]
                },
        )
    }
}

impl SparseFile {
    /// A file without data.
    pub fn new() -> (r: SparseFile)
        ensures
            r.pieces@.len() == 0,
            r.len == 0,
    {
        SparseFile { pieces: Vec::new(), len: 0 }
    }

    /// What reading the whole file gives.
    pub open spec fn contents(&self) -> Seq<u8> {
        laid_on_zeros(piece_views(self.pieces@), self.len as int)
    }
}

/// The pieces of a layout up to where a block beyond `blocks`, the first of those
/// it reads, would be needed: one for each run of data, none for a hole.
pub open spec fn pieces_of(segments: Seq<Segment>, bs: int, blocks: Seq<Seq<u8>>) -> Seq<
    (u64, Seq<u8>),
>
    decreases segments.len(),
{
    if segments.len() == 0 {
        Seq::empty()
    } else {
        let front = segments.drop_last();
        let n = reads(front, bs).len() as int;
        if blocks.len() < n {
            pieces_of(front, bs, blocks)
        } else {
            match segments.last() {
                Segment::Hole { .. } => pieces_of(front, bs, blocks.take(n)),
                Segment::Data { start, .. } => pieces_of(front, bs, blocks.take(n)).push(
                    (start, segment_bytes(segments.last(), bs, blocks.skip(n))),
                ),
            }
        }
    }
}

/// Reading `segments` from `dev` ended with `r` and gave `pieces`.
pub open spec fn pieces_read<D: BlockDevice>(
    dev: &D,
    block_size: u32,
    segments: Seq<Segment>,
    r: Result<(), Error>,
    pieces: Seq<(u64, Seq<u8>)>,
) -> bool {
    let bs = block_size as int;
    let wanted = reads(segments, bs);
    exists|replies: Seq<Result<Vec<u8>, Error>>| #[trigger]
        answered(dev, block_size, wanted, replies) && match r {
            Ok(_) => replies.len() == wanted.len() && all_read(replies) && pieces == pieces_of(
                segments,
                bs,
                blocks_in(replies),
            ),
            Err(error) => replies.len() > 0 && replies.last() == Err::<Vec<u8>, Error>(error)
                && all_read(replies.drop_last()) && pieces == pieces_of(
                segments,
                bs,
                blocks_in(replies.drop_last()),
            ),
        }
}

proof fn lemma_pieces_stop(segments: Seq<Segment>, i: int, bs: int, blocks: Seq<Seq<u8>>)
    requires
        0 <= i <= segments.len(),
        blocks.len() < reads(segments.take(i), bs).len(),
    ensures
        pieces_of(segments, bs, blocks) == pieces_of(segments.take(i), bs, blocks),
    decreases segments.len() - i,
{
    if i == segments.len() {
        assert(segments.take(i) =~= segments);
    } else {
        let front = segments.drop_last();
        assert(front.take(i) =~= segments.take(i));
        lemma_reads_grow(front, i, bs);
        lemma_pieces_stop(front, i, bs, blocks);
    }
}

fn read_pieces<D: BlockDevice>(
    dev: &mut BlockReads<D>,
    block_size: u32,
    segments: &Vec<Segment>,
    pieces: &mut Vec<Piece>,
) -> (r: Result<(), Error>)
    requires
        block_size > 0 || data_size(segments@) == 0,
        old(pieces)@.len() == 0,
    ensures
        final(dev).dev() == old(dev).dev(),
        blocks_read(old(dev)@, final(dev)@, reads(segments@, block_size as int), r),
        pieces_read(old(dev).dev(), block_size, segments@, r, piece_views(final(pieces)@)),
{
    let ghost bs = block_size as int;
    let ghost device = dev.dev();
    let ghost begin = dev@;
    let ghost wanted = reads(segments@, bs);
    let ghost mut replies: Seq<Result<Vec<u8>, Error>> = Seq::empty();
    let mut i: usize = 0;
    proof {
        assert(segments@.take(0) =~= Seq::empty());
        assert(begin + wanted.take(0) =~= begin);
        assert(piece_views(pieces@) =~= Seq::empty());
    }
    while i < segments.len()
        invariant
            block_size > 0 || data_size(segments@) == 0,
            bs == block_size,
            device == old(dev).dev(),
            begin == old(dev)@,
            dev.dev() == device,
            dev@ == begin + wanted.take(replies.len() as int),
            wanted == reads(segments@, bs),
            i <= segments@.len(),
            replies.len() == reads(segments@.take(i as int), bs).len(),
            all_read(replies),
            answered(device, block_size, wanted, replies),
            piece_views(pieces@) == pieces_of(segments@.take(i as int), bs, blocks_in(replies)),
        decreases segments@.len() - i,
    {
        let segment = segments[i];
        let ghost front = segments@.take(i as int);
        let ghost next = segments@.take(i + 1);
        proof {
            assert(next.drop_last() =~= front);
            assert(next.last() == segment);
            lemma_reads_grow(segments@, i + 1, bs);
        }
        match segment {
            Segment::Hole { .. } => {
                proof {
                    assert(blocks_in(replies).take(replies.len() as int) =~= blocks_in(replies));
                }
            },
            Segment::Data { start, .. } => {
                proof {
                    lemma_no_data(segments@, i as int);
                }
                let mut bytes: Vec<u8> = Vec::new();
                let ghost seen = dev@;
                let r = write_segment(dev, block_size, segment, &mut bytes);
                let ghost before = pieces@;
                let ghost read = bytes@;
                pieces.push(Piece { start, bytes });
                proof {
                    let (more, out) = choose|more: Seq<Result<Vec<u8>, Error>>, out: Seq<u8>|
                        {
                            &&& #[trigger] answered(
                                device,
                                block_size,
                                segment_reads(segment, bs),
                                more,
                            )
                            &&& #[trigger] segment_read_through(r, more, segment, bs, out)
                            &&& read == Seq::<u8>::empty() + out
                        };
                    assert(read =~= out);
                    let all = replies + more;
                    let n = choose|n: int|
                        {
                            &&& 0 <= n <= segment_reads(segment, bs).len()
                            &&& dev@ == seen + #[trigger] segment_reads(segment, bs).take(n)
                            &&& r is Ok ==> n == segment_reads(segment, bs).len()
                            &&& r is Err ==> n > 0
                        };
                    assert(wanted.take(replies.len() as int) + segment_reads(segment, bs).take(n)
                        =~= wanted.take(replies.len() + n));
                    assert(dev@ =~= begin + wanted.take(replies.len() + n));
                    assert forall|j: int| 0 <= j < all.len() implies call_ensures(
                        D::read_block,
                        (device, wanted[j], block_size),
                        #[trigger] all[j],
                    ) by {
                        if j < replies.len() {
                            assert(all[j] == replies[j]);
                        } else {
                            assert(all[j] == more[j - replies.len()]);
                            assert(wanted[j] == reads(next, bs)[j]);
                        }
                    }
                    assert(answered(device, block_size, wanted, all));
                    let good = if r is Ok {
                        more
                    } else {
                        more.drop_last()
                    };
                    let got = replies + good;
                    assert(blocks_in(got).take(replies.len() as int) =~= blocks_in(replies));
                    assert(blocks_in(got).skip(replies.len() as int) =~= blocks_in(good));
                    assert(piece_views(pieces@) =~= piece_views(before).push((start, out)));
                    assert(piece_views(pieces@) == pieces_of(next, bs, blocks_in(got)));
                    assert(all_read(got));
                    if r is Err {
                        assert(all.drop_last() =~= got);
                        assert(all.last() == more.last());
                        lemma_pieces_stop(segments@, i + 1, bs, blocks_in(got));
                    } else {
                        assert(got =~= all);
                    }
                    replies = all;
                }
                match r {
                    Ok(_) => {},
                    Err(error) => return Err(error),
                }
            },
        }
        i += 1;
    }
    proof {
        assert(segments@.take(i as int) =~= segments@);
        assert(wanted.take(replies.len() as int) =~= wanted);
    }
    Ok(())
}

/// The pieces of a file that was cut to `len` bytes.
pub open spec fn trimmed(pieces: Seq<(u64, Seq<u8>)>, len: u64) -> Seq<(u64, Seq<u8>)> {
    Seq::new(
        pieces.len(),
        |i: int|
            (
                pieces[i].0,
                if pieces[i].0 >= len {
                    Seq::empty()
                } else if pieces[i].0 + pieces[i].1.len() > len {
                    pieces[i].1.take(len - pieces[i].0)
                } else {
                    pieces[i].1
                },
            ),
    )
}

/// How long a file of `len` bytes is once `pieces` were written to it.
pub open spec fn reached(len: int, pieces: Seq<(u64, Seq<u8>)>) -> int
    decreases pieces.len(),
{
    if pieces.len() == 0 {
        len
    } else {
        let before = reached(len, pieces.drop_last());
        let (start, bytes) = pieces.last();
        if bytes.len() > 0 && start + bytes.len() > before {
            start + bytes.len()
        } else {
            before
        }
    }
}

/// Writing `pieces` to a file turned `before` into `after`. Only where it came to its
/// end did the file get its length of `size` bytes; what it held before and no piece
/// lies on stays.
pub open spec fn sparse_grown(
    before: SparseFile,
    after: SparseFile,
    pieces: Seq<(u64, Seq<u8>)>,
    size: u64,
    ended: bool,
) -> bool {
    if ended {
        &&& piece_views(after.pieces@) == trimmed(piece_views(before.pieces@), size) + pieces
        &&& after.len == size
    } else {
        &&& piece_views(after.pieces@) == piece_views(before.pieces@) + pieces
        &&& after.len == reached(before.len as int, pieces)
    }
}

/// Reading `segments` from `dev` ended with `r` and turned the file `before` into
/// `after`.
pub open spec fn sparse_written<D: BlockDevice>(
    dev: &D,
    block_size: u32,
    segments: Seq<Segment>,
    size: u64,
    r: Result<(), Error>,
    before: SparseFile,
    after: SparseFile,
) -> bool {
    exists|pieces: Seq<(u64, Seq<u8>)>| #[trigger]
        pieces_read(dev, block_size, segments, r, pieces) && sparse_grown(
            before,
            after,
            pieces,
            size,
            r is Ok,
        )
}

proof fn lemma_pieces_lie_within(segments: Seq<Segment>, end: int, bs: int, blocks: Seq<Seq<u8>>)
    requires
        tiles(segments, end),
        0 <= bs,
    ensures
        forall|i: int|
            0 <= i < pieces_of(segments, bs, blocks).len() ==> (#[trigger] pieces_of(
                segments,
                bs,
                blocks,
            )[i]).0 + pieces_of(segments, bs, blocks)[i].1.len() <= end,
    decreases segments.len(),
{
    if segments.len() > 0 {
        let front = segments.drop_last();
        let n = reads(front, bs).len() as int;
        lemma_pieces_lie_within(front, segments.last().start(), bs, blocks);
        lemma_pieces_lie_within(front, segments.last().start(), bs, blocks.take(n));
        if blocks.len() >= n {
            let last = segments.last();
            let own = blocks.skip(n).len();
            assert(0 <= own * bs) by (nonlinear_arith)
                requires
                    0 <= own,
                    0 <= bs,
            ;
            let inner = pieces_of(front, bs, blocks.take(n));
            let all = pieces_of(segments, bs, blocks);
            assert(last is Data ==> segment_bytes(last, bs, blocks.skip(n)).len() <= last.size());
            assert forall|i: int| 0 <= i < all.len() implies (#[trigger] all[i]).0 + all[i].1.len()
                <= end by {
                if i < inner.len() {
                    assert(all[i] == inner[i]);
                }
            }
        } else {
            let inner = pieces_of(front, bs, blocks);
            assert(pieces_of(segments, bs, blocks) == inner);
            assert forall|i: int| 0 <= i < inner.len() implies (#[trigger] inner[i]).0
                + inner[i].1.len() <= end by {}
        }
    }
}

fn trim_pieces(pieces: &mut Vec<Piece>, len: u64)
    ensures
        piece_views(final(pieces)@) == trimmed(piece_views(old(pieces)@), len),
{
    let ghost all = piece_views(pieces@);
    let mut out: Vec<Piece> = Vec::new();
    let count: usize = pieces.len();
    let mut i: usize = 0;
    while i < count
        invariant
            i <= count == pieces@.len(),
            pieces@ == old(pieces)@,
            all == piece_views(pieces@),
            piece_views(out@) =~= trimmed(all, len).take(i as int),
        decreases count - i,
    {
        let start: u64 = pieces[i].start;
        let size: usize = pieces[i].bytes.len();
        let mut bytes: Vec<u8> = Vec::new();
        let keep: usize = if start >= len {
            0
        } else if size as u64 > len - start {
            (len - start) as usize
        } else {
            size
        };
        write_part(&mut bytes, &pieces[i].bytes, keep);
        let ghost before = out@;
        let ghost kept = bytes@;
        out.push(Piece { start, bytes });
        proof {
            assert(all[i as int] == (start, pieces@[i as int].bytes@));
            assert(kept =~= pieces@[i as int].bytes@.take(keep as int));
            assert(kept =~= trimmed(all, len)[i as int].1);
            assert(piece_views(out@) =~= piece_views(before).push((start, kept)));
        }
        i += 1;
    }
    proof {
        assert(trimmed(all, len).take(count as int) =~= trimmed(all, len));
    }
    *pieces = out;
}

fn append_pieces(file: &mut SparseFile, pieces: Vec<Piece>, size: u64)
    requires
        forall|i: int|
            0 <= i < pieces@.len() ==> (#[trigger] pieces@[i]).start + pieces@[i].bytes@.len()
                <= size,
    ensures
        sparse_grown(*old(file), *final(file), piece_views(pieces@), size, false),
{
    let ghost views = piece_views(pieces@);
    let ghost held = piece_views(file.pieces@);
    let ghost given = pieces@;
    let count: usize = pieces.len();
    let mut i: usize = 0;
    proof {
        assert(views.take(0) =~= Seq::empty());
        assert(held + views.take(0) =~= held);
    }
    for piece in it: pieces.into_iter()
        invariant
            it.seq() == given,
            i == it.index(),
            count == given.len(),
            views == piece_views(given),
            held == piece_views(old(file).pieces@),
            piece_views(file.pieces@) == held + views.take(i as int),
            file.len == reached(old(file).len as int, views.take(i as int)),
            forall|i: int|
                0 <= i < given.len() ==> (#[trigger] given[i]).start + given[i].bytes@.len()
                    <= size,
    {
        proof {
            assert(piece == given[i as int]);
            assert(views.take(i + 1).drop_last() =~= views.take(i as int));
            assert(views.take(i + 1).last() == (piece.start, piece.bytes@));
        }
        let ghost before = file.pieces@;
        if piece.bytes.len() > 0 && piece.start + piece.bytes.len() as u64 > file.len {
            file.len = piece.start + piece.bytes.len() as u64;
        }
        let ghost view = (piece.start, piece.bytes@);
        file.pieces.push(piece);
        proof {
            assert(piece_views(file.pieces@) =~= piece_views(before).push(view));
            assert(piece_views(file.pieces@) =~= held + views.take(i + 1));
            assert(i < count);
        }
        i += 1;
    }
    proof {
        assert(views.take(i as int) =~= views);
    }
}

/// Reads the data of a file of `file_size` bytes into `file`, following the
/// logical layout of `extents` as [`write_extents`] does. Gaps and extents without
/// blocks are passed over, so that what `file` held there stays. Once all is read,
/// the length is that of the file, a hole at its end counted. Where a block cannot be
/// read, what was read before it stays in `file`.
pub fn write_extents_sparse<D: BlockDevice>(
    dev: &mut BlockReads<D>,
    block_size: u32,
    extents: &mut Vec<FileExtent>,
    file_size: u64,
    file: &mut SparseFile,
) -> (r: Result<Written, Error>)
    requires
        block_size > 0 || data_size(
            layout_of(by_address(old(extents)@), file_size as int).segments,
        ) == 0,
    ensures
        final(dev).dev() == old(dev).dev(),
        final(extents)@ == by_address(old(extents)@),
        ({
            let layout = layout_of(by_address(old(extents)@), file_size as int);
            &&& r matches Ok(written) ==> written == account(layout, file_size)
            &&& blocks_read(
                old(dev)@,
                final(dev)@,
                reads(layout.segments, block_size as int),
                outcome(r),
            )
            &&& sparse_written(
                old(dev).dev(),
                block_size,
                layout.segments,
                file_size,
                outcome(r),
                *old(file),
                *final(file),
            )
        }),
{
    let ghost sorted = by_address(extents@);
    let (laid_out, written) = plan(extents, file_size);
    let mut pieces: Vec<Piece> = Vec::new();
    let r = read_pieces(dev, block_size, &laid_out.segments, &mut pieces);
    let ghost views = piece_views(pieces@);
    let ghost segments = laid_out.segments@;
    let ghost device = old(dev).dev();
    proof {
        law_layout_tiles_the_file(sorted, file_size);
        assert(pieces_read(device, block_size, segments, r, views));
        let bs = block_size as int;
        let replies = choose|replies: Seq<Result<Vec<u8>, Error>>| #[trigger]
            answered(device, block_size, reads(segments, bs), replies) && match r {
                Ok(_) => replies.len() == reads(segments, bs).len() && all_read(replies) && views
                    == pieces_of(segments, bs, blocks_in(replies)),
                Err(error) => replies.len() > 0 && replies.last() == Err::<Vec<u8>, Error>(error)
                    && all_read(replies.drop_last()) && views == pieces_of(
                    segments,
                    bs,
                    blocks_in(replies.drop_last()),
                ),
            };
        lemma_pieces_lie_within(segments, file_size as int, bs, blocks_in(replies));
        lemma_pieces_lie_within(segments, file_size as int, bs, blocks_in(replies.drop_last()));
        assert forall|i: int| 0 <= i < pieces@.len() implies (#[trigger] pieces@[i]).start
            + pieces@[i].bytes@.len() <= file_size by {
            assert(views[i] == (pieces@[i].start, pieces@[i].bytes@));
        }
    }
    match r {
        Ok(done) => {
            proof {
                assert(done == ());
            }
            trim_pieces(&mut file.pieces, file_size);
            append_pieces(file, pieces, file_size);
            file.len = file_size;
            Ok(written)
        },
        Err(error) => {
            append_pieces(file, pieces, file_size);
            Err(error)
        },
    }
}

proof fn lemma_sparse_contents(
    segments: Seq<Segment>,
    end: int,
    size: int,
    bs: int,
    blocks: Seq<Seq<u8>>,
)
    requires
        bs > 0,
        tiles(segments, end),
        end <= size,
        complete(segments, bs, blocks),
    ensures
        laid_on_zeros(pieces_of(segments, bs, blocks), size) == file_bytes(segments, bs, blocks)
            + Seq::new((size - end) as nat, |o: int| 0u8),
    decreases segments.len(),
{
    lemma_file_size(segments, end, bs, blocks);
    let zeros = Seq::new((size - end) as nat, |o: int| 0u8);
    let whole = file_bytes(segments, bs, blocks) + zeros;
    let sparse = laid_on_zeros(pieces_of(segments, bs, blocks), size);
    if segments.len() > 0 {
        let front = segments.drop_last();
        let last = segments.last();
        let n = reads(front, bs).len() as int;
        lemma_sparse_contents(front, last.start(), size, bs, blocks.take(n));
        lemma_file_size(front, last.start(), bs, blocks.take(n));
        let below = laid_on_zeros(pieces_of(front, bs, blocks.take(n)), size);
        assert(pieces_of(segments, bs, blocks).len() > 0 && last is Data ==> pieces_of(
            segments,
            bs,
            blocks,
        ).drop_last() =~= pieces_of(front, bs, blocks.take(n)));
        assert(sparse.len() == size);
        assert(whole.len() == size);
        assert forall|o: int| 0 <= o < size implies sparse[o] == whole[o] by {
            assert(below[o] == (file_bytes(front, bs, blocks.take(n)) + Seq::new(
                (size - last.start()) as nat,
                |o: int| 0u8,
            ))[o]);
        }
    }
    assert(sparse =~= whole);
}

/// A sparse file reads exactly as the file that is written out in full: the same
/// layout and the same blocks give the same bytes.
pub proof fn law_sparse_file_reads_the_same(
    extents: Seq<FileExtent>,
    size: u64,
    bs: int,
    blocks: Seq<Seq<u8>>,
)
    requires
        bs > 0,
        complete(layout_of(extents, size as int).segments, bs, blocks),
    ensures
        ({
            let segments = layout_of(extents, size as int).segments;
            laid_on_zeros(pieces_of(segments, bs, blocks), size as int) == file_bytes(
                segments,
                bs,
                blocks,
            )
        }),
{
    let segments = layout_of(extents, size as int).segments;
    law_layout_tiles_the_file(extents, size);
    lemma_sparse_contents(segments, size as int, size as int, bs, blocks);
    assert(file_bytes(segments, bs, blocks) + Seq::new(0, |o: int| 0u8) =~= file_bytes(
        segments,
        bs,
        blocks,
    ));
}

// ---------------------------------------------------------------------------
// Two calls
// ---------------------------------------------------------------------------

/// Two answers say the same.
pub open spec fn same_reply(a: Result<Vec<u8>, Error>, b: Result<Vec<u8>, Error>) -> bool {
    match (a, b) {
        (Ok(x), Ok(y)) => x@ == y@,
        (Err(x), Err(y)) => x@ == y@,
        _ => false,
    }
}

/// Two calls came to the same end.
pub open spec fn same_outcome(a: Result<(), Error>, b: Result<(), Error>) -> bool {
    match (a, b) {
        (Ok(_), Ok(_)) => true,
        (Err(x), Err(y)) => x@ == y@,
        _ => false,
    }
}

/// The device answers alike however often a block is read.
pub open spec fn answers_alike<D: BlockDevice>(dev: &D, block_size: u32) -> bool {
    forall|block: u64, a: Result<Vec<u8>, Error>, b: Result<Vec<u8>, Error>| #[trigger]
        call_ensures(D::read_block, (dev, block, block_size), a) && #[trigger] call_ensures(
            D::read_block,
            (dev, block, block_size),
            b,
        ) ==> same_reply(a, b)
}

/// What the replies say of how the reading ended.
spec fn ended_as(
    r: Result<(), Error>,
    replies: Seq<Result<Vec<u8>, Error>>,
    wanted: Seq<u64>,
) -> bool {
    match r {
        Ok(_) => replies.len() == wanted.len() && all_read(replies),
        Err(error) => replies.len() > 0 && replies.last() == Err::<Vec<u8>, Error>(error)
            && all_read(replies.drop_last()),
    }
}

/// The blocks that came before the reading ended.
spec fn blocks_before_end(r: Result<(), Error>, replies: Seq<Result<Vec<u8>, Error>>) -> Seq<
    Seq<u8>,
> {
    match r {
        Ok(_) => blocks_in(replies),
        Err(_) => blocks_in(replies.drop_last()),
    }
}

proof fn lemma_replies_agree<D: BlockDevice>(
    dev: &D,
    block_size: u32,
    wanted: Seq<u64>,
    ra: Result<(), Error>,
    a: Seq<Result<Vec<u8>, Error>>,
    rb: Result<(), Error>,
    b: Seq<Result<Vec<u8>, Error>>,
)
    requires
        answers_alike(dev, block_size),
        answered(dev, block_size, wanted, a),
        answered(dev, block_size, wanted, b),
        ended_as(ra, a, wanted),
        ended_as(rb, b, wanted),
    ensures
        same_outcome(ra, rb),
        blocks_before_end(ra, a) == blocks_before_end(rb, b),
{
    assert forall|i: int| 0 <= i < a.len() && i < b.len() implies same_reply(
        #[trigger] a[i],
        b[i],
    ) by {
        assert(call_ensures(D::read_block, (dev, wanted[i], block_size), a[i]));
        assert(call_ensures(D::read_block, (dev, wanted[i], block_size), b[i]));
    }
    if ra is Err && a.len() <= b.len() {
        let i = a.len() - 1;
        assert(same_reply(a[i], b[i]));
        if i < b.len() - 1 || rb is Ok {
            assert(rb is Err ==> b.drop_last()[i] is Ok);
            assert(b[i] is Ok);
        }
    }
    if rb is Err && b.len() <= a.len() {
        let i = b.len() - 1;
        assert(same_reply(a[i], b[i]));
        if i < a.len() - 1 || ra is Ok {
            assert(ra is Err ==> a.drop_last()[i] is Ok);
            assert(a[i] is Ok);
        }
    }
    assert(a.len() == b.len());
    let x = blocks_before_end(ra, a);
    let y = blocks_before_end(rb, b);
    assert forall|i: int| 0 <= i < x.len() implies x[i] == y[i] by {
        assert(same_reply(a[i], b[i]));
        assert(ra is Err ==> a.drop_last()[i] is Ok);
        assert(a[i] is Ok);
    }
    assert(x =~= y);
}

proof fn lemma_ordered_lists_agree(a: Seq<FileExtent>, b: Seq<FileExtent>)
    requires
        is_ordered(a),
        is_ordered(b),
        forall|addr: u64| #[trigger] at_address(a, addr) == at_address(b, addr),
    ensures
        a == b,
    decreases a.len(),
{
    reveal(Seq::filter);
    if a.len() == 0 {
        if b.len() > 0 {
            assert(at_address(b, b.last().logical_addr).len() > 0);
            assert(at_address(a, b.last().logical_addr).len() == 0);
        }
        assert(a =~= b);
    } else {
        let x = a.last();
        assert(at_address(a, x.logical_addr).last() == x);
        assert(at_address(b, x.logical_addr) == at_address(a, x.logical_addr));
        if b.len() == 0 {
            assert(at_address(b, x.logical_addr).len() == 0);
        } else {
            let y = b.last();
            assert(at_address(b, y.logical_addr).last() == y);
            assert(at_address(b, y.logical_addr) == at_address(a, y.logical_addr));
            lemma_listed_at_address(a, y.logical_addr);
            lemma_listed_at_address(b, x.logical_addr);
            assert(x.logical_addr == y.logical_addr);
            assert(x == y);
            assert forall|addr: u64| #[trigger]
                at_address(a.drop_last(), addr) == at_address(b.drop_last(), addr) by {
                assert(at_address(a, addr) == at_address(b, addr));
                if addr == x.logical_addr {
                    assert(at_address(a, addr).drop_last() =~= at_address(a.drop_last(), addr));
                    assert(at_address(b, addr).drop_last() =~= at_address(b.drop_last(), addr));
                }
            }
            lemma_ordered_lists_agree(a.drop_last(), b.drop_last());
            assert(a =~= a.drop_last().push(x));
            assert(b =~= b.drop_last().push(y));
        }
    }
}

/// Extents that are in order stay as they are.
pub proof fn law_ordering_twice_changes_nothing(s: Seq<FileExtent>)
    ensures
        by_address(by_address(s)) == by_address(s),
{
    law_order_is_a_stable_sort(s);
    law_order_is_a_stable_sort(by_address(s));
    lemma_ordered_lists_agree(by_address(by_address(s)), by_address(s));
}

/// Where a list has extents at an address, one of them stands in it.
proof fn lemma_listed_at_address(s: Seq<FileExtent>, addr: u64)
    ensures
        at_address(s, addr).len() > 0 ==> exists|i: int|
            0 <= i < s.len() && (#[trigger] s[i]).logical_addr == addr,
    decreases s.len(),
{
    reveal(Seq::filter);
    if s.len() > 0 {
        lemma_listed_at_address(s.drop_last(), addr);
        if s.last().logical_addr == addr {
            assert(s[s.len() - 1].logical_addr == addr);
        } else if at_address(s, addr).len() > 0 {
            let front = s.drop_last();
            let i = choose|i: int| 0 <= i < front.len() && (#[trigger] front[i]).logical_addr == addr;
            assert(s[i].logical_addr == addr);
        }
    }
}

/// The order in which the extents of a file are given does not matter, as long as
/// those at one address keep theirs: on a device that answers alike, two calls write
/// the same bytes and come to the same end.
pub proof fn law_order_of_extents_does_not_matter<D: BlockDevice>(
    dev: &D,
    block_size: u32,
    a: Seq<FileExtent>,
    b: Seq<FileExtent>,
    size: u64,
    ra: Result<(), Error>,
    rb: Result<(), Error>,
    before: Seq<u8>,
    after_a: Seq<u8>,
    after_b: Seq<u8>,
)
    requires
        forall|addr: u64| #[trigger] at_address(a, addr) == at_address(b, addr),
        answers_alike(dev, block_size),
        extents_written(
            dev,
            block_size,
            layout_of(by_address(a), size as int).segments,
            ra,
            before,
            after_a,
        ),
        extents_written(
            dev,
            block_size,
            layout_of(by_address(b), size as int).segments,
            rb,
            before,
            after_b,
        ),
    ensures
        by_address(a) == by_address(b),
        same_outcome(ra, rb),
        after_a == after_b,
{
    law_order_is_a_stable_sort(a);
    law_order_is_a_stable_sort(b);
    assert forall|addr: u64| #[trigger]
        at_address(by_address(a), addr) == at_address(by_address(b), addr) by {
        assert(at_address(a, addr) == at_address(b, addr));
    }
    lemma_ordered_lists_agree(by_address(a), by_address(b));
    let segments = layout_of(by_address(a), size as int).segments;
    let bs = block_size as int;
    let wanted = reads(segments, bs);
    let (x, out_a) = choose|replies: Seq<Result<Vec<u8>, Error>>, out: Seq<u8>|
        {
            &&& #[trigger] answered(dev, block_size, wanted, replies)
            &&& #[trigger] read_through(ra, replies, wanted, segments, bs, out)
            &&& after_a == before + out
        };
    let (y, out_b) = choose|replies: Seq<Result<Vec<u8>, Error>>, out: Seq<u8>|
        {
            &&& #[trigger] answered(dev, block_size, wanted, replies)
            &&& #[trigger] read_through(rb, replies, wanted, segments, bs, out)
            &&& after_b == before + out
        };
    lemma_replies_agree(dev, block_size, wanted, ra, x, rb, y);
}

/// A sparse file reads exactly as the file that is written out in full: on a device
/// that answers alike, two calls on new outputs come to the same end, and once all is
/// read the sparse file holds the bytes of the dense one.
pub proof fn law_sparse_output_equals_dense_output<D: BlockDevice>(
    dev: &D,
    block_size: u32,
    extents: Seq<FileExtent>,
    size: u64,
    dense: Result<(), Error>,
    sparse: Result<(), Error>,
    out: Seq<u8>,
    before: SparseFile,
    file: SparseFile,
)
    requires
        block_size > 0,
        answers_alike(dev, block_size),
        before.pieces@.len() == 0,
        extents_written(
            dev,
            block_size,
            layout_of(extents, size as int).segments,
            dense,
            Seq::empty(),
            out,
        ),
        sparse_written(
            dev,
            block_size,
            layout_of(extents, size as int).segments,
            size,
            sparse,
            before,
            file,
        ),
    ensures
        same_outcome(dense, sparse),
        dense is Ok ==> file.contents() == out,
{
    let segments = layout_of(extents, size as int).segments;
    let bs = block_size as int;
    let wanted = reads(segments, bs);
    let (x, bytes) = choose|replies: Seq<Result<Vec<u8>, Error>>, bytes: Seq<u8>|
        {
            &&& #[trigger] answered(dev, block_size, wanted, replies)
            &&& #[trigger] read_through(dense, replies, wanted, segments, bs, bytes)
            &&& out == Seq::<u8>::empty() + bytes
        };
    let pieces = choose|pieces: Seq<(u64, Seq<u8>)>| #[trigger]
        pieces_read(dev, block_size, segments, sparse, pieces) && sparse_grown(
            before,
            file,
            pieces,
            size,
            sparse is Ok,
        );
    let y = choose|replies: Seq<Result<Vec<u8>, Error>>| #[trigger]
        answered(dev, block_size, wanted, replies) && match sparse {
            Ok(_) => replies.len() == wanted.len() && all_read(replies) && pieces == pieces_of(
                segments,
                bs,
                blocks_in(replies),
            ),
            Err(error) => replies.len() > 0 && replies.last() == Err::<Vec<u8>, Error>(error)
                && all_read(replies.drop_last()) && pieces == pieces_of(
                segments,
                bs,
                blocks_in(replies.drop_last()),
            ),
        };
    lemma_replies_agree(dev, block_size, wanted, dense, x, sparse, y);
    if dense is Ok {
        let blocks = blocks_in(x);
        assert forall|i: int| 0 <= i < blocks.len() implies (#[trigger] blocks[i]).len() == bs by {
            assert(x[i] is Ok);
            assert(call_ensures(D::read_block, (dev, wanted[i], block_size), x[i]));
        }
        law_sparse_file_reads_the_same(extents, size, bs, blocks);
        assert(trimmed(piece_views(before.pieces@), size) + pieces =~= pieces);
        assert(out =~= bytes);
    }
}

// ---------------------------------------------------------------------------
// Where each byte comes from
// ---------------------------------------------------------------------------

/// `kept` tells which of `extents`, in order, a file of `size` bytes is made of: those
/// that begin inside the file and not before the end of one that was kept earlier.
pub open spec fn keeps(extents: Seq<FileExtent>, size: int, kept: Seq<bool>) -> bool {
    &&& kept.len() == extents.len()
    &&& forall|i: int|
        0 <= i < kept.len() ==> (#[trigger] kept[i] <==> {
            &&& extents[i].logical_addr < size
            &&& forall|j: int|
                0 <= j < i && #[trigger] kept[j] ==> extents[j].logical_addr + extents[j].len
                    <= extents[i].logical_addr
        })
}

/// Where the kept ones among the first `n` extents end at the latest.
pub open spec fn kept_end(extents: Seq<FileExtent>, kept: Seq<bool>, n: int) -> int
    decreases n,
{
    if n <= 0 {
        0
    } else {
        let before = kept_end(extents, kept, n - 1);
        let end = extents[n - 1].logical_addr + extents[n - 1].len;
        if kept[n - 1] && end > before {
            end
        } else {
            before
        }
    }
}

/// How many bytes of a file of `size` bytes the first `n` extents supply.
pub open spec fn supplied(extents: Seq<FileExtent>, kept: Seq<bool>, size: int, n: int) -> int
    decreases n,
{
    if n <= 0 {
        0
    } else {
        let e = extents[n - 1];
        supplied(extents, kept, size, n - 1) + if kept[n - 1] && e.phys_block_num != 0 {
            if e.logical_addr + e.len < size {
                e.len as int
            } else {
                size - e.logical_addr
            }
        } else {
            0
        }
    }
}

/// How many of the first `n` extents are left out although the file was not yet laid out
/// to its end.
pub open spec fn left_out(extents: Seq<FileExtent>, kept: Seq<bool>, size: int, n: int) -> int
    decreases n,
{
    if n <= 0 {
        0
    } else {
        left_out(extents, kept, size, n - 1) + if !kept[n - 1] && extents[n - 1].logical_addr < size
            && kept_end(extents, kept, n - 1) < size {
            1int
        } else {
            0
        }
    }
}

/// How many holes the first `n` extents bring: one for each gap before a kept one, and
/// one for each kept one that has no blocks.
pub open spec fn holes_before(extents: Seq<FileExtent>, kept: Seq<bool>, n: int) -> int
    decreases n,
{
    if n <= 0 {
        0
    } else {
        let e = extents[n - 1];
        holes_before(extents, kept, n - 1) + if kept[n - 1] {
            (if e.logical_addr > kept_end(extents, kept, n - 1) {
                1int
            } else {
                0
            }) + (if e.phys_block_num == 0 {
                1int
            } else {
                0
            })
        } else {
            0
        }
    }
}

/// The run of data that a file of `size` bytes has from extent `e`.
spec fn own_run(e: FileExtent, size: int) -> Segment {
    Segment::Data {
        start: e.logical_addr,
        len: if e.logical_addr + e.len < size {
            e.len
        } else {
            (size - e.logical_addr) as u64
        },
        block: e.phys_block_num,
    }
}

/// The runs of data among `segments` are those of the kept ones among the first `n`
/// extents.
spec fn runs_match(
    segments: Seq<Segment>,
    extents: Seq<FileExtent>,
    size: int,
    kept: Seq<bool>,
    n: int,
) -> bool {
    &&& forall|k: int|
        0 <= k < segments.len() && #[trigger] segments[k] is Data ==> exists|j: int|
            0 <= j < n && #[trigger] kept[j] && extents[j].phys_block_num != 0 && segments[k]
                == own_run(extents[j], size)
    &&& forall|j: int|
        0 <= j < n && #[trigger] kept[j] && extents[j].phys_block_num != 0
            ==> segments.contains(own_run(extents[j], size))
}

/// What is known of a layout up to extent `i`.
spec fn laid_so_far(
    extents: Seq<FileExtent>,
    size: int,
    kept: Seq<bool>,
    cursor: int,
    done: LayoutView,
) -> bool {
    let i = kept.len() as int;
    &&& i <= extents.len()
    &&& keeps(extents.take(i), size, kept)
    &&& cursor == if kept_end(extents, kept, i) < size {
        kept_end(extents, kept, i)
    } else {
        size
    }
    &&& kept_end(extents, kept, i) == 0 || exists|j: int|
        0 <= j < i && #[trigger] kept[j] && extents[j].logical_addr + extents[j].len == kept_end(
            extents,
            kept,
            i,
        )
    &&& runs_match(done.segments, extents, size, kept, i)
    &&& data_size(done.segments) == supplied(extents, kept, size, i)
    &&& hole_count(done.segments) == holes_before(extents, kept, i)
    &&& done.overlaps == left_out(extents, kept, size, i)
}

proof fn lemma_kept_end(extents: Seq<FileExtent>, kept: Seq<bool>, n: int, j: int)
    requires
        0 <= j < n <= kept.len(),
        kept[j],
    ensures
        extents[j].logical_addr + extents[j].len <= kept_end(extents, kept, n),
    decreases n,
{
    if j < n - 1 {
        lemma_kept_end(extents, kept, n - 1, j);
    }
}

/// Facts on the first `n` extents do not depend on what follows.
proof fn lemma_kept_grows(
    extents: Seq<FileExtent>,
    kept: Seq<bool>,
    more: bool,
    size: int,
    n: int,
)
    requires
        0 <= n <= kept.len(),
    ensures
        kept_end(extents, kept.push(more), n) == kept_end(extents, kept, n),
        supplied(extents, kept.push(more), size, n) == supplied(extents, kept, size, n),
        left_out(extents, kept.push(more), size, n) == left_out(extents, kept, size, n),
        holes_before(extents, kept.push(more), n) == holes_before(extents, kept, n),
    decreases n,
{
    if n > 0 {
        lemma_kept_grows(extents, kept, more, size, n - 1);
        assert(kept.push(more)[n - 1] == kept[n - 1]);
    }
}

proof fn lemma_runs_grow(
    segments: Seq<Segment>,
    added: Seq<Segment>,
    extents: Seq<FileExtent>,
    size: int,
    kept: Seq<bool>,
    more: bool,
)
    requires
        runs_match(segments, extents, size, kept, kept.len() as int),
        forall|k: int|
            0 <= k < added.len() && #[trigger] added[k] is Data ==> more
                && extents[kept.len() as int].phys_block_num != 0 && added[k] == own_run(
                extents[kept.len() as int],
                size,
            ),
        more && extents[kept.len() as int].phys_block_num != 0 ==> added.contains(
            own_run(extents[kept.len() as int], size),
        ),
    ensures
        runs_match(segments + added, extents, size, kept.push(more), (kept.len() + 1) as int),
{
    let all = segments + added;
    let i = kept.len() as int;
    let next = kept.push(more);
    assert forall|k: int| 0 <= k < all.len() && #[trigger] all[k] is Data implies exists|j: int|
        0 <= j < i + 1 && #[trigger] next[j] && extents[j].phys_block_num != 0 && all[k] == own_run(
            extents[j],
            size,
        ) by {
        if k < segments.len() {
            assert(segments[k] is Data);
            let j = choose|j: int|
                0 <= j < i && #[trigger] kept[j] && extents[j].phys_block_num != 0 && segments[k]
                    == own_run(extents[j], size);
            assert(next[j] == kept[j]);
        } else {
            assert(added[k - segments.len()] is Data);
            assert(next[i]);
        }
    }
    assert forall|j: int|
        0 <= j < i + 1 && #[trigger] next[j] && extents[j].phys_block_num != 0 implies all.contains(
        own_run(extents[j], size),
    ) by {
        let run = own_run(extents[j], size);
        if j < i {
            assert(kept[j]);
            let k = choose|k: int| 0 <= k < segments.len() && segments[k] == run;
            assert(all[k] == run);
        } else {
            let k = choose|k: int| 0 <= k < added.len() && added[k] == run;
            assert(all[segments.len() + k] == run);
        }
    }
}

/// No extent is kept once the file is laid out to its end, or once the extents begin
/// behind it.
proof fn lemma_rest_is_not_kept(
    extents: Seq<FileExtent>,
    size: int,
    kept: Seq<bool>,
    cursor: int,
    done: LayoutView,
) -> (all: Seq<bool>)
    requires
        is_ordered(extents),
        laid_so_far(extents, size, kept, cursor, done),
        0 <= size,
        cursor >= size || kept.len() < extents.len() && extents[kept.len() as int].logical_addr
            >= size || kept.len() == extents.len(),
    ensures
        all.len() == extents.len(),
        laid_so_far(extents, size, all, cursor, done),
    decreases extents.len() - kept.len(),
{
    let i = kept.len() as int;
    if i == extents.len() {
        kept
    } else {
        let e = extents[i];
        let next = kept.push(false);
        if e.logical_addr < size {
            let j = choose|j: int|
                0 <= j < i && #[trigger] kept[j] && extents[j].logical_addr + extents[j].len
                    == kept_end(extents, kept, i);
            assert(kept[j]);
            assert(extents.take(i + 1)[j] == extents[j]);
        }
        lemma_decided(extents, size, kept, false);
        lemma_kept_grows(extents, kept, false, size, i);
        lemma_runs_grow(done.segments, Seq::empty(), extents, size, kept, false);
        assert(done.segments + Seq::<Segment>::empty() =~= done.segments);
        if kept_end(extents, kept, i) != 0 {
            let j = choose|j: int|
                0 <= j < i && #[trigger] kept[j] && extents[j].logical_addr + extents[j].len
                    == kept_end(extents, kept, i);
            assert(next[j]);
        }
        lemma_rest_is_not_kept(extents, size, next, cursor, done)
    }
}

/// Which extents are kept is decided one by one.
proof fn lemma_decided(extents: Seq<FileExtent>, size: int, kept: Seq<bool>, more: bool)
    requires
        kept.len() < extents.len(),
        keeps(extents.take(kept.len() as int), size, kept),
        ({
            let e = extents[kept.len() as int];
            more <==> {
                &&& e.logical_addr < size
                &&& forall|j: int|
                    0 <= j < kept.len() && #[trigger] kept[j] ==> extents[j].logical_addr
                        + extents[j].len <= e.logical_addr
            }
        }),
    ensures
        keeps(extents.take((kept.len() + 1) as int), size, kept.push(more)),
{
    let i = kept.len() as int;
    let part = extents.take(i);
    let longer = extents.take(i + 1);
    let next = kept.push(more);
    assert forall|k: int| 0 <= k < next.len() implies (#[trigger] next[k] <==> {
        &&& longer[k].logical_addr < size
        &&& forall|j: int|
            0 <= j < k && #[trigger] next[j] ==> longer[j].logical_addr + longer[j].len
                <= longer[k].logical_addr
    }) by {
        if k < i {
            assert(next[k] == kept[k]);
            assert(longer[k] == part[k]);
            if kept[k] {
                assert forall|j: int| 0 <= j < k && #[trigger] next[j] implies longer[j].logical_addr
                    + longer[j].len <= longer[k].logical_addr by {
                    assert(kept[j]);
                    assert(part[j] == longer[j]);
                }
            } else if longer[k].logical_addr < size {
                let j = choose|j: int|
                    0 <= j < k && #[trigger] kept[j] && !(part[j].logical_addr + part[j].len
                        <= part[k].logical_addr);
                assert(next[j]);
                assert(longer[j] == part[j]);
            }
        } else {
            if more {
                assert forall|j: int| 0 <= j < k && #[trigger] next[j] implies longer[j].logical_addr
                    + longer[j].len <= longer[k].logical_addr by {
                    assert(kept[j]);
                }
            } else if longer[k].logical_addr < size {
                let j = choose|j: int|
                    0 <= j < i && #[trigger] kept[j] && !(extents[j].logical_addr + extents[j].len
                        <= extents[i].logical_addr);
                assert(next[j]);
            }
        }
    }
}

/// An extent that begins where the layout has come to, or behind that, is kept.
proof fn lemma_next_is_kept(
    extents: Seq<FileExtent>,
    size: int,
    kept: Seq<bool>,
    cursor: int,
    done: LayoutView,
)
    requires
        is_ordered(extents),
        0 <= size <= u64::MAX,
        laid_so_far(extents, size, kept, cursor, done),
        kept.len() < extents.len(),
        cursor <= extents[kept.len() as int].logical_addr < size,
    ensures
        ({
            let e = extents[kept.len() as int];
            let segment = extent_segment(e, size);
            let before = if e.logical_addr > cursor {
                done.segments.push(hole(cursor, e.logical_addr as int))
            } else {
                done.segments
            };
            laid_so_far(
                extents,
                size,
                kept.push(true),
                segment.start() + segment.size(),
                LayoutView { segments: before.push(segment), ..done },
            )
        }),
{
    let i = kept.len() as int;
    let e = extents[i];
    let end = e.logical_addr + e.len;
    assert forall|j: int| 0 <= j < i && #[trigger] kept[j] implies extents[j].logical_addr
        + extents[j].len <= e.logical_addr by {
        lemma_kept_end(extents, kept, i, j);
    }
    lemma_decided(extents, size, kept, true);
    lemma_kept_grows(extents, kept, true, size, i);
    let next = kept.push(true);
    let segment = extent_segment(e, size);
    let gap = hole(cursor, e.logical_addr as int);
    let before = if e.logical_addr > cursor {
        done.segments.push(gap)
    } else {
        done.segments
    };
    let added = if e.logical_addr > cursor {
        seq![gap, segment]
    } else {
        seq![segment]
    };
    let all = before.push(segment);
    assert(all =~= done.segments + added);
    assert(all.drop_last() =~= before);
    assert(done.segments.push(gap).drop_last() =~= done.segments);
    assert(segment is Data ==> segment == own_run(e, size));
    assert(added[added.len() - 1] == segment);
    lemma_runs_grow(done.segments, added, extents, size, kept, true);
    assert(next[i]);
    assert(kept_end(extents, kept, i) <= e.logical_addr);
    assert(kept_end(extents, next, i + 1) == if end > kept_end(extents, kept, i) {
        end
    } else {
        kept_end(extents, kept, i)
    });
    assert(end >= kept_end(extents, kept, i));
    assert(kept_end(extents, next, i + 1) == end);
    assert(segment.start() + segment.size() == if end < size {
        end
    } else {
        size
    });
    assert(data_size(before) == data_size(done.segments)) by {
        reveal_with_fuel(data_size, 2);
    }
    assert(all.last() == segment);
    assert(data_size(all) == supplied(extents, next, size, i + 1));
    assert(hole_count(before) == hole_count(done.segments) + if e.logical_addr > cursor {
        1int
    } else {
        0
    });
    assert(hole_count(all) == holes_before(extents, next, i + 1));
}

#[verifier::rlimit(50)]
proof fn lemma_layout_keeps(
    extents: Seq<FileExtent>,
    size: int,
    kept: Seq<bool>,
    cursor: int,
    done: LayoutView,
) -> (all: Seq<bool>)
    requires
        is_ordered(extents),
        0 <= size <= u64::MAX,
        laid_so_far(extents, size, kept, cursor, done),
    ensures
        ({
            let n = extents.len() as int;
            let whole = layout_from(extents, kept.len() as int, cursor, size, done);
            &&& keeps(extents, size, all)
            &&& runs_match(whole.segments, extents, size, all, n)
            &&& data_size(whole.segments) == supplied(extents, all, size, n)
            &&& hole_count(whole.segments) == holes_before(extents, all, n) + if kept_end(
                extents,
                all,
                n,
            ) < size {
                1int
            } else {
                0
            }
            &&& whole.overlaps == left_out(extents, all, size, n)
        }),
    decreases extents.len() - kept.len(),
{
    let i = kept.len() as int;
    let n = extents.len() as int;
    if cursor >= size {
        let all = lemma_rest_is_not_kept(extents, size, kept, cursor, done);
        assert(extents.take(n) =~= extents);
        all
    } else if i == n || extents[i].logical_addr >= size {
        let all = lemma_rest_is_not_kept(extents, size, kept, cursor, done);
        assert(extents.take(n) =~= extents);
        let tail = hole(cursor, size);
        let segments = done.segments.push(tail);
        assert(segments.drop_last() =~= done.segments);
        assert forall|k: int| 0 <= k < segments.len() && #[trigger] segments[k] is Data implies
            exists|j: int|
            0 <= j < n && #[trigger] all[j] && extents[j].phys_block_num != 0 && segments[k]
                == own_run(extents[j], size) by {
            assert(done.segments[k] is Data);
        }
        assert forall|j: int| 0 <= j < n && #[trigger] all[j] && extents[j].phys_block_num
            != 0 implies segments.contains(own_run(extents[j], size)) by {
            let run = own_run(extents[j], size);
            assert(done.segments.contains(run));
            let k = choose|k: int| 0 <= k < done.segments.len() && done.segments[k] == run;
            assert(segments[k] == run);
        }
        all
    } else {
        let e = extents[i];
        if e.logical_addr < cursor {
            let j = choose|j: int|
                0 <= j < i && #[trigger] kept[j] && extents[j].logical_addr + extents[j].len
                    == kept_end(extents, kept, i);
            assert(kept[j]);
            lemma_decided(extents, size, kept, false);
            lemma_kept_grows(extents, kept, false, size, i);
            lemma_runs_grow(done.segments, Seq::empty(), extents, size, kept, false);
            assert(done.segments + Seq::<Segment>::empty() =~= done.segments);
            let next = kept.push(false);
            assert(next[j]);
            lemma_layout_keeps(
                extents,
                size,
                next,
                cursor,
                LayoutView { overlaps: done.overlaps + 1, ..done },
            )
        } else {
            let segment = extent_segment(e, size);
            let before = if e.logical_addr > cursor {
                done.segments.push(hole(cursor, e.logical_addr as int))
            } else {
                done.segments
            };
            lemma_next_is_kept(extents, size, kept, cursor, done);
            let next = kept.push(true);
            lemma_layout_keeps(
                extents,
                size,
                next,
                segment.start() + segment.size(),
                LayoutView { segments: before.push(segment), ..done },
            )
        }
    }
}

/// A file is made of its extents as they come in order, each where it says and as long as
/// it says: one is left out only if it begins before the end of one that was kept, and
/// the account counts the bytes that the kept ones supply, the holes between and behind
/// them and those that were left out.
pub proof fn law_account_follows_the_extents(extents: Seq<FileExtent>, size: u64) -> (kept: Seq<
    bool,
>)
    requires
        is_ordered(extents),
    ensures
        ({
            let n = extents.len() as int;
            let layout = layout_of(extents, size as int);
            let written = account(layout, size);
            &&& keeps(extents, size as int, kept)
            &&& written.bytes == size
            &&& written.data_bytes == supplied(extents, kept, size as int, n) as u64
            &&& written.holes == (holes_before(extents, kept, n) + if kept_end(extents, kept, n)
                < size {
                1int
            } else {
                0
            }) as u64
            &&& written.overlaps == left_out(extents, kept, size as int, n) as u64
            &&& written.missing == 0
        }),
{
    let none: Seq<bool> = Seq::empty();
    let empty = LayoutView { segments: Seq::empty(), overlaps: 0 };
    assert(extents.take(0) =~= Seq::empty());
    lemma_layout_keeps(extents, size as int, none, 0, empty)
}

proof fn lemma_keeps_once(extents: Seq<FileExtent>, size: int, a: Seq<bool>, b: Seq<bool>, n: int)
    requires
        keeps(extents, size, a),
        keeps(extents, size, b),
        0 <= n <= extents.len(),
    ensures
        a.take(n) == b.take(n),
    decreases n,
{
    if n > 0 {
        lemma_keeps_once(extents, size, a, b, n - 1);
        let i = n - 1;
        assert forall|j: int| 0 <= j < i implies a[j] == b[j] by {
            assert(a.take(i)[j] == b.take(i)[j]);
        }
        if a[i] && !b[i] {
            let j = choose|j: int|
                0 <= j < i && #[trigger] b[j] && !(extents[j].logical_addr + extents[j].len
                    <= extents[i].logical_addr);
            assert(a[j]);
        }
        if b[i] && !a[i] {
            let j = choose|j: int|
                0 <= j < i && #[trigger] a[j] && !(extents[j].logical_addr + extents[j].len
                    <= extents[i].logical_addr);
            assert(b[j]);
        }
        assert(a.take(n) =~= b.take(n));
    }
}

/// Byte `o` of a layout lies in one of its segments.
proof fn lemma_segment_at(segments: Seq<Segment>, end: int, o: int) -> (k: int)
    requires
        tiles(segments, end),
        0 <= o < end,
    ensures
        0 <= k < segments.len(),
        segments[k].start() <= o < segments[k].start() + segments[k].size(),
    decreases segments.len(),
{
    let last = segments.last();
    if o >= last.start() {
        segments.len() - 1
    } else {
        lemma_segment_at(segments.drop_last(), last.start(), o)
    }
}

/// The block that supplies byte `o` of a file from extent `e`. Block numbers wrap at 64
/// bits.
pub open spec fn block_for(e: FileExtent, o: int, bs: int) -> u64 {
    ((e.phys_block_num + (o - e.logical_addr) / bs) % 0x1_0000_0000_0000_0000) as u64
}

/// The device handed out block `block` with the byte `byte` at `at`.
pub open spec fn supplies<D: BlockDevice>(
    dev: &D,
    block_size: u32,
    block: u64,
    at: int,
    byte: u8,
) -> bool {
    exists|data: Vec<u8>| #[trigger]
        call_ensures(D::read_block, (dev, block, block_size), Ok(data)) && 0 <= at < data@.len()
            && data@[at] == byte
}

proof fn lemma_run_supplies<D: BlockDevice>(
    dev: &D,
    block_size: u32,
    segments: Seq<Segment>,
    size: int,
    replies: Seq<Result<Vec<u8>, Error>>,
    k: int,
    o: int,
)
    requires
        block_size > 0,
        tiles(segments, size),
        0 <= k < segments.len(),
        segments[k].start() <= o < segments[k].start() + segments[k].size(),
        answered(dev, block_size, reads(segments, block_size as int), replies),
        replies.len() == reads(segments, block_size as int).len(),
        all_read(replies),
    ensures
        ({
            let bs = block_size as int;
            let bytes = file_bytes(segments, bs, blocks_in(replies));
            &&& bytes.len() == size
            &&& 0 <= o < size
            &&& segments[k] is Hole ==> bytes[o] == 0
            &&& segments[k] matches Segment::Data { start, block, .. } ==> supplies(
                dev,
                block_size,
                ((block + (o - start) / bs) % 0x1_0000_0000_0000_0000) as u64,
                (o - start) % bs,
                bytes[o],
            )
        }),
{
    let bs = block_size as int;
    let wanted = reads(segments, bs);
    let blocks = blocks_in(replies);
    let bytes = file_bytes(segments, bs, blocks);
    assert forall|i: int| 0 <= i < blocks.len() implies (#[trigger] blocks[i]).len() == bs by {
        assert(replies[i] is Ok);
        assert(call_ensures(D::read_block, (dev, wanted[i], block_size), replies[i]));
    }
    law_output_follows_the_layout(segments, size, bs, blocks, k);
    let segment = segments[k];
    let from = segment.start();
    let first = reads(segments.take(k), bs).len() as int;
    let past = reads(segments.take(k + 1), bs).len() as int;
    let own = blocks.subrange(first, past);
    assert(bytes[o] == bytes.subrange(from, from + segment.size())[o - from]);
    match segment {
        Segment::Hole { .. } => {},
        Segment::Data { start, len, block } => {
            let x = (o - start) / bs;
            let y = (o - start) % bs;
            assert(0 <= x && 0 <= y < bs && x * bs <= o - start) by (nonlinear_arith)
                requires
                    bs > 0,
                    o >= start,
                    x == (o - start) / bs,
                    y == (o - start) % bs,
            ;
            lemma_block_count(len as int, bs, x);
            let next = segments.take(k + 1);
            assert(next.drop_last() =~= segments.take(k));
            assert(next.last() == segment);
            lemma_reads_grow(segments, k + 1, bs);
            assert(wanted[first + x] == reads(next, bs)[first + x]);
            assert(reads(next, bs)[first + x] == segment_reads(segment, bs)[x]);
            assert(own[x] == blocks[first + x]);
            assert(replies[first + x] is Ok);
            let data = replies[first + x]->Ok_0;
            assert(blocks[first + x] == data@);
            let number = ((block + x) % 0x1_0000_0000_0000_0000) as u64;
            assert(call_ensures(D::read_block, (dev, number, block_size), replies[first + x]));
            assert(call_ensures(D::read_block, (dev, number, block_size), Ok(data)));
            let run = segment_bytes(segment, bs, own);
            assert(run.len() == len);
            assert(run[o - start] == own[x][y]);
            assert(bytes[o] == data@[y]);
        },
    }
}

/// Each byte of a file comes from the extent that covers it. Where a kept extent with
/// blocks does, byte `o` is the one that the device holds `o - logical_addr` bytes behind
/// the beginning of the extent's first block; where none does, it is zero.
pub proof fn law_bytes_come_from_their_extents<D: BlockDevice>(
    dev: &D,
    block_size: u32,
    extents: Seq<FileExtent>,
    size: u64,
    kept: Seq<bool>,
    before: Seq<u8>,
    after: Seq<u8>,
    o: int,
)
    requires
        block_size > 0,
        is_ordered(extents),
        keeps(extents, size as int, kept),
        extents_written(
            dev,
            block_size,
            layout_of(extents, size as int).segments,
            Ok(()),
            before,
            after,
        ),
        0 <= o < size,
    ensures
        before.len() + size == after.len(),
        forall|j: int|
            0 <= j < extents.len() && #[trigger] kept[j] && extents[j].phys_block_num != 0
                && extents[j].logical_addr <= o < extents[j].logical_addr + extents[j].len
                ==> supplies(
                dev,
                block_size,
                block_for(extents[j], o, block_size as int),
                (o - extents[j].logical_addr) % (block_size as int),
                after[before.len() + o],
            ),
        (forall|j: int|
            0 <= j < extents.len() && #[trigger] kept[j] && extents[j].phys_block_num != 0
                ==> !(extents[j].logical_addr <= o < extents[j].logical_addr + extents[j].len))
            ==> after[before.len() + o] == 0,
{
    let bs = block_size as int;
    let n = extents.len() as int;
    let layout = layout_of(extents, size as int);
    let segments = layout.segments;
    let wanted = reads(segments, bs);
    let (replies, out) = choose|replies: Seq<Result<Vec<u8>, Error>>, out: Seq<u8>|
        {
            &&& #[trigger] answered(dev, block_size, wanted, replies)
            &&& #[trigger] read_through(Ok(()), replies, wanted, segments, bs, out)
            &&& after == before + out
        };
    law_layout_tiles_the_file(extents, size);
    let none: Seq<bool> = Seq::empty();
    assert(extents.take(0) =~= Seq::empty());
    let all = lemma_layout_keeps(
        extents,
        size as int,
        none,
        0,
        LayoutView { segments: Seq::empty(), overlaps: 0 },
    );
    lemma_keeps_once(extents, size as int, all, kept, n);
    assert(all.take(n) =~= all);
    assert(kept.take(n) =~= kept);
    let k = lemma_segment_at(segments, size as int, o);
    lemma_run_supplies(dev, block_size, segments, size as int, replies, k, o);
    assert(after[before.len() + o] == out[o]);
    assert forall|j: int|
        0 <= j < n && #[trigger] kept[j] && extents[j].phys_block_num != 0
            && extents[j].logical_addr <= o < extents[j].logical_addr
            + extents[j].len implies supplies(
        dev,
        block_size,
        block_for(extents[j], o, bs),
        (o - extents[j].logical_addr) % bs,
        after[before.len() + o],
    ) by {
        let run = own_run(extents[j], size as int);
        assert(segments.contains(run));
        let at = choose|at: int| 0 <= at < segments.len() && segments[at] == run;
        lemma_run_supplies(dev, block_size, segments, size as int, replies, at, o);
    }
    if forall|j: int|
        0 <= j < n && #[trigger] kept[j] && extents[j].phys_block_num != 0 ==> !(
        extents[j].logical_addr <= o < extents[j].logical_addr + extents[j].len) {
        if segments[k] is Data {
            let j = choose|j: int|
                0 <= j < n && #[trigger] kept[j] && extents[j].phys_block_num != 0 && segments[k]
                    == own_run(extents[j], size as int);
            assert(kept[j]);
        }
    }
}

/// Where no extent begins before the end of an earlier one, all of them count: each byte
/// that an extent with blocks covers is the one that the device holds for it, and each
/// byte that none covers is zero. The extents may be given in any order.
pub proof fn law_disjoint_extents_supply_their_bytes<D: BlockDevice>(
    dev: &D,
    block_size: u32,
    extents: Seq<FileExtent>,
    size: u64,
    before: Seq<u8>,
    after: Seq<u8>,
    o: int,
)
    requires
        block_size > 0,
        is_disjoint(by_address(extents)),
        extents_written(
            dev,
            block_size,
            layout_of(by_address(extents), size as int).segments,
            Ok(()),
            before,
            after,
        ),
        0 <= o < size,
    ensures
        before.len() + size == after.len(),
        forall|j: int|
            0 <= j < extents.len() && extents[j].phys_block_num != 0
                && #[trigger] extents[j].logical_addr <= o < extents[j].logical_addr
                + extents[j].len ==> supplies(
                dev,
                block_size,
                block_for(extents[j], o, block_size as int),
                (o - extents[j].logical_addr) % (block_size as int),
                after[before.len() + o],
            ),
        (forall|j: int|
            0 <= j < extents.len() && extents[j].phys_block_num != 0 ==> !(
            #[trigger] extents[j].logical_addr <= o < extents[j].logical_addr + extents[j].len))
            ==> after[before.len() + o] == 0,
{
    let sorted = by_address(extents);
    law_order_is_a_stable_sort(extents);
    let kept = Seq::new(sorted.len(), |i: int| sorted[i].logical_addr < size);
    assert(keeps(sorted, size as int, kept)) by {
        assert forall|i: int, j: int| 0 <= j < i < sorted.len() implies sorted[j].logical_addr
            + sorted[j].len <= sorted[i].logical_addr by {
            assert(sorted[j].logical_addr + sorted[j].len <= sorted[i].logical_addr);
        }
    }
    law_bytes_come_from_their_extents(
        dev,
        block_size,
        sorted,
        size,
        kept,
        before,
        after,
        o,
    );
    broadcast use vstd::seq_lib::group_to_multiset_ensures;

    assert forall|j: int|
        0 <= j < extents.len() && extents[j].phys_block_num != 0
            && #[trigger] extents[j].logical_addr <= o < extents[j].logical_addr
            + extents[j].len implies supplies(
        dev,
        block_size,
        block_for(extents[j], o, block_size as int),
        (o - extents[j].logical_addr) % (block_size as int),
        after[before.len() + o],
    ) by {
        assert(extents.contains(extents[j]));
        assert(extents.to_multiset().contains(extents[j]));
        assert(sorted.to_multiset().contains(extents[j]));
        assert(sorted.contains(extents[j]));
        let i = choose|i: int| 0 <= i < sorted.len() && sorted[i] == extents[j];
        assert(kept[i]);
    }
    if forall|j: int|
        0 <= j < extents.len() && extents[j].phys_block_num != 0 ==> !(
        #[trigger] extents[j].logical_addr <= o < extents[j].logical_addr + extents[j].len) {
        assert forall|i: int| 0 <= i < sorted.len() && #[trigger] kept[i]
            && sorted[i].phys_block_num != 0 implies !(sorted[i].logical_addr <= o
            < sorted[i].logical_addr + sorted[i].len) by {
            assert(sorted.contains(sorted[i]));
            assert(sorted.to_multiset().contains(sorted[i]));
            assert(extents.to_multiset().contains(sorted[i]));
            assert(extents.contains(sorted[i]));
            let j = choose|j: int| 0 <= j < extents.len() && extents[j] == sorted[i];
            assert(!(extents[j].logical_addr <= o < extents[j].logical_addr + extents[j].len));
        }
    }
}

impl Written {
    /// The anomalies that the note of this account names, in order.
    pub open spec fn anomalies(self) -> Seq<Seq<char>> {
        let holes = if self.holes > 0 {
            seq![dec(self.holes as nat) + " hole(s)"@]
        } else {
            Seq::empty()
        };
        let overlaps = if self.overlaps > 0 {
            holes.push(dec(self.overlaps as nat) + " overlap(s)"@)
        } else {
            holes
        };
        if self.missing > 0 {
            overlaps.push(dec(self.missing as nat) + " missing byte(s)"@)
        } else {
            overlaps
        }
    }

    /// A short note for people that names the anomalies, or nothing where there
    /// are none.
    pub fn note(&self) -> (r: Option<String>)
        ensures
            match r {
                Some(text) => self.anomalies().len() > 0 && text@ == joined(
                    self.anomalies(),
                    ", "@,
                ),
                None => self.anomalies().len() == 0,
            },
    {
        let mut parts: Vec<String> = Vec::new();
        if self.holes > 0 {
            parts.push(counted(self.holes, " hole(s)"));
        }
        if self.overlaps > 0 {
            parts.push(counted(self.overlaps, " overlap(s)"));
        }
        if self.missing > 0 {
            parts.push(counted(self.missing, " missing byte(s)"));
        }
        proof {
            assert(texts(parts@) =~= self.anomalies());
        }
        if parts.is_empty() {
            None
        } else {
            Some(join(&parts, ", "))
        }
    }
}

fn counted(n: u64, what: &str) -> (r: String)
    ensures
        r@ == dec(n as nat) + what@,
{
    let mut text = String::new();
    push_dec(&mut text, n);
    text.append(what);
    proof {
        assert(text@ =~= dec(n as nat) + what@);
    }
    text
}

} // verus!
