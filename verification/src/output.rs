//! Writing a file's data out while it is read.
//!
//! A file is never held as a whole: what a block supplies goes to the destination
//! before the next block is read. The first request that fails, be it to the device or
//! to the destination, ends the writing.
use crate::destination::Destination;
use crate::device::{BlockDevice, BlockReads};
use crate::error::{is_failed, Error, ErrorKind};
use crate::extract::{
    account, all_read, answered, block_count, blocks_in, by_address, data_size, extents_written,
    file_bytes, law_layout_tiles_the_file, law_ordering_twice_changes_nothing, layout_of,
    lemma_data_size, lemma_file_size, lemma_no_data, lemma_segment_bytes_grow,
    lemma_segment_lies_within, outcome, plan, read_through, reads, segment_bytes, segment_reads,
    tiles, Segment, Written,
};
use crate::image::ApfsImage;
use crate::journal::{did, Event, Journal, TempFile, TempView};
use crate::jrec::{record_views, FileExtent, Record};
use crate::vol::{collect_extents, extents_in, needs_blocks, no_block_size, Volume};
use vstd::prelude::*;

verus! {

/// Where a file's data goes.
pub enum Place {
    /// To the output stream, with zeros for holes.
    Stream,
    /// To a temporary file, with zeros for holes.
    Dense(TempView),
    /// To a temporary file in which holes are passed over.
    Sparse(TempView),
}

/// Where a file's data goes, for those who send it.
pub enum Output<'a, T> {
    Stream,
    Dense(&'a TempFile<T>),
    Sparse(&'a TempFile<T>),
}

impl<'a, T> Output<'a, T> {
    /// Which place it is.
    pub open spec fn place(&self) -> Place {
        match self {
            Output::Stream => Place::Stream,
            Output::Dense(temp) => Place::Dense(temp.id()),
            Output::Sparse(temp) => Place::Sparse(temp.id()),
        }
    }
}

// ---------------------------------------------------------------------------
// Steps
// ---------------------------------------------------------------------------

/// One step of writing a file out.
pub enum Step {
    /// A block is read, and its first `len` bytes are written.
    Block { block: u64, len: u64 },
    /// Zeros are written.
    Zeros { len: u64 },
    /// The file is passed over up to `to`.
    Skip { to: u64 },
}

/// The size of part `k` of `len` bytes that are cut into parts of `size` bytes.
pub open spec fn share(len: int, size: int, k: int) -> u64 {
    if len - k * size < size {
        (len - k * size) as u64
    } else {
        size as u64
    }
}

/// The size of the parts in which `len` zeros are written: that of a block, where
/// blocks have a size.
pub open spec fn zeros_at_once(len: int, bs: int) -> int {
    if bs > 0 {
        bs
    } else {
        len
    }
}

/// The steps of writing one segment. Block numbers wrap at 64 bits.
pub open spec fn segment_steps(segment: Segment, bs: int, sparse: bool) -> Seq<Step> {
    match segment {
        Segment::Data { len, block, .. } => Seq::new(
            block_count(len as int, bs),
            |k: int|
                Step::Block {
                    block: ((block + k) % 0x1_0000_0000_0000_0000) as u64,
                    len: share(len as int, bs, k),
                },
        ),
        Segment::Hole { start, len } => if sparse {
            seq![Step::Skip { to: (start + len) as u64 }]
        } else {
            let part = zeros_at_once(len as int, bs);
            Seq::new(
                block_count(len as int, part),
                |k: int| Step::Zeros { len: share(len as int, part, k) },
            )
        },
    }
}

/// The steps of writing a layout.
pub open spec fn steps(segments: Seq<Segment>, bs: int, sparse: bool) -> Seq<Step>
    decreases segments.len(),
{
    if segments.len() == 0 {
        Seq::empty()
    } else {
        steps(segments.drop_last(), bs, sparse) + segment_steps(segments.last(), bs, sparse)
    }
}

/// How far the writing has come: which blocks were read, and what was asked of the
/// destination.
pub struct Course {
    pub seen: Seq<u64>,
    pub log: Seq<Event>,
}

/// Some zeros.
pub open spec fn zeros(len: int) -> Seq<u8> {
    Seq::new(len as nat, |o: int| 0u8)
}

/// Sending `bytes` to `place` was answered with `r`.
pub open spec fn bytes_sent(
    place: Place,
    bytes: Seq<u8>,
    at: Seq<Event>,
    to: Seq<Event>,
    r: Result<(), Error>,
) -> bool {
    match place {
        Place::Stream => did(at, Event::Stream { bytes, reply: r }, to),
        Place::Dense(temp) => did(at, Event::Fill { temp, bytes, reply: r }, to),
        Place::Sparse(temp) => did(at, Event::Fill { temp, bytes, reply: r }, to),
    }
}

/// Taking one step led from `before` to `after` and was answered with `r`. A block
/// that cannot be read sends nothing.
pub open spec fn step_taken<D: BlockDevice>(
    dev: &D,
    block_size: u32,
    place: Place,
    step: Step,
    before: Course,
    after: Course,
    r: Result<(), Error>,
) -> bool {
    match step {
        Step::Block { block, len } => {
            &&& after.seen == before.seen.push(block)
            &&& exists|reply: Result<Vec<u8>, Error>| #[trigger]
                call_ensures(D::read_block, (dev, block, block_size), reply) && match reply {
                    Err(error) => after.log == before.log && r == Err::<(), Error>(error),
                    Ok(data) => bytes_sent(
                        place,
                        data@.take(len as int),
                        before.log,
                        after.log,
                        r,
                    ),
                }
        },
        Step::Zeros { len } => {
            &&& after.seen == before.seen
            &&& bytes_sent(place, zeros(len as int), before.log, after.log, r)
        },
        Step::Skip { to } => {
            &&& after.seen == before.seen
            &&& place matches Place::Sparse(temp) && did(
                before.log,
                Event::Skip { temp, to, reply: r },
                after.log,
            )
        },
    }
}

/// The first `n` of `steps` were taken one after the other, which led from `before` to
/// `after`.
pub open spec fn steps_done<D: BlockDevice>(
    dev: &D,
    block_size: u32,
    place: Place,
    steps: Seq<Step>,
    n: int,
    before: Course,
    after: Course,
) -> bool
    decreases n,
{
    if n <= 0 {
        n == 0 && after == before
    } else {
        exists|prev: Course|
            steps_done(dev, block_size, place, steps, n - 1, before, prev) && #[trigger] step_taken(
                dev,
                block_size,
                place,
                steps[n - 1],
                prev,
                after,
                Ok(()),
            )
    }
}

/// Writing by `steps` led from `before` to `after` and ended with `r`: either all of
/// them were taken, or one failed behind those that were.
pub open spec fn steps_written<D: BlockDevice>(
    dev: &D,
    block_size: u32,
    place: Place,
    steps: Seq<Step>,
    before: Course,
    after: Course,
    r: Result<(), Error>,
) -> bool {
    match r {
        Ok(_) => steps_done(dev, block_size, place, steps, steps.len() as int, before, after),
        Err(_) => exists|n: int, mid: Course|
            0 <= n < steps.len() && #[trigger] steps_done(
                dev,
                block_size,
                place,
                steps,
                n,
                before,
                mid,
            ) && step_taken(dev, block_size, place, steps[n], mid, after, r),
    }
}

/// What follows once all of a file of `size` bytes was written: a sparse file gets its
/// length.
pub open spec fn writing_ended(
    place: Place,
    size: u64,
    before: Course,
    after: Course,
    r: Result<(), Error>,
) -> bool {
    match place {
        Place::Sparse(temp) => after.seen == before.seen && did(
            before.log,
            Event::SetLen { temp, len: size, reply: r },
            after.log,
        ),
        _ => after == before && r is Ok,
    }
}

/// Writing out a file of `size` bytes that is laid out as `segments` led from `before`
/// to `after` and ended with `r`.
pub open spec fn extents_sent<D: BlockDevice>(
    dev: &D,
    block_size: u32,
    segments: Seq<Segment>,
    size: u64,
    place: Place,
    before: Course,
    after: Course,
    r: Result<(), Error>,
) -> bool {
    let all = steps(segments, block_size as int, place is Sparse);
    exists|written: Result<(), Error>, mid: Course| #[trigger]
        steps_written(dev, block_size, place, all, before, mid, written) && match written {
            Err(_) => after == mid && r == written,
            Ok(_) => writing_ended(place, size, mid, after, r),
        }
}

proof fn lemma_next_step<D: BlockDevice>(
    dev: &D,
    block_size: u32,
    place: Place,
    steps: Seq<Step>,
    n: int,
    before: Course,
    prev: Course,
    after: Course,
    r: Result<(), Error>,
)
    requires
        0 <= n,
        r is Ok,
        steps_done(dev, block_size, place, steps, n, before, prev),
        step_taken(dev, block_size, place, steps[n], prev, after, r),
    ensures
        steps_done(dev, block_size, place, steps, n + 1, before, after),
{
    assert(r->Ok_0 == ());
    let last = (n + 1) - 1;
    assert(step_taken(dev, block_size, place, steps[last], prev, after, Ok(())));
}

proof fn lemma_steps_join<D: BlockDevice>(
    dev: &D,
    block_size: u32,
    place: Place,
    all: Seq<Step>,
    own: Seq<Step>,
    first: int,
    n: int,
    before: Course,
    mid: Course,
    after: Course,
)
    requires
        0 <= first,
        0 <= n <= own.len(),
        first + own.len() <= all.len(),
        own == all.subrange(first, first + own.len()),
        steps_done(dev, block_size, place, all, first, before, mid),
        steps_done(dev, block_size, place, own, n, mid, after),
    ensures
        steps_done(dev, block_size, place, all, first + n, before, after),
    decreases n,
{
    if n > 0 {
        let prev = choose|prev: Course|
            steps_done(dev, block_size, place, own, n - 1, mid, prev) && #[trigger] step_taken(
                dev,
                block_size,
                place,
                own[n - 1],
                prev,
                after,
                Ok(()),
            );
        lemma_steps_join(dev, block_size, place, all, own, first, n - 1, before, mid, prev);
        assert(own[n - 1] == all[first + n - 1]);
    }
}

proof fn lemma_steps_grow(segments: Seq<Segment>, i: int, bs: int, sparse: bool)
    requires
        0 <= i <= segments.len(),
    ensures
        steps(segments.take(i), bs, sparse).is_prefix_of(steps(segments, bs, sparse)),
    decreases segments.len() - i,
{
    if i == segments.len() {
        assert(segments.take(i) =~= segments);
    } else {
        let front = segments.drop_last();
        assert(front.take(i) =~= segments.take(i));
        lemma_steps_grow(front, i, bs, sparse);
    }
}

proof fn lemma_part_count(len: int, size: int, k: int)
    by (nonlinear_arith)
    requires
        size > 0,
        len >= 0,
        k >= 0,
    ensures
        k * size < len ==> k < block_count(len, size),
        k * size >= len && (k == 0 || (k - 1) * size < len) ==> k == block_count(len, size),
        (k + 1) * size == k * size + size,
{
}

// ---------------------------------------------------------------------------
// Writing
// ---------------------------------------------------------------------------

fn send_bytes<O: Destination>(
    dest: &mut Journal<O>,
    out: &Output<O::Temp>,
    bytes: &Vec<u8>,
) -> (r: Result<(), Error>)
    ensures
        final(dest).dest() == old(dest).dest(),
        bytes_sent(out.place(), bytes@, old(dest)@, final(dest)@, r),
{
    match out {
        Output::Stream => dest.stream(bytes),
        Output::Dense(temp) => dest.fill(temp, bytes),
        Output::Sparse(temp) => dest.fill(temp, bytes),
    }
}

fn send_zeros<O: Destination, D: BlockDevice>(
    dev: &BlockReads<D>,
    block_size: u32,
    len: u64,
    dest: &mut Journal<O>,
    out: &Output<O::Temp>,
) -> (r: Result<(), Error>)
    ensures
        final(dest).dest() == old(dest).dest(),
        forall|start: u64|
            steps_written(
                dev.dev(),
                block_size,
                out.place(),
                #[trigger] segment_steps(Segment::Hole { start, len }, block_size as int, false),
                (Course { seen: dev@, log: old(dest)@ }),
                (Course { seen: dev@, log: final(dest)@ }),
                r,
            ),
{
    let ghost device = dev.dev();
    let ghost place = out.place();
    let ghost bs = block_size as int;
    let ghost own = segment_steps(Segment::Hole { start: 0, len }, bs, false);
    let ghost part = zeros_at_once(len as int, bs);
    let ghost begin = Course { seen: dev@, log: dest@ };
    proof {
        assert forall|start: u64| #[trigger]
            segment_steps(Segment::Hole { start, len }, bs, false) == own by {
            assert(segment_steps(Segment::Hole { start, len }, bs, false) =~= own);
        }
    }
    let size: u64 = if block_size > 0 {
        block_size as u64
    } else {
        len
    };
    let mut zero: Vec<u8> = Vec::new();
    let mut i: u64 = 0;
    while i < size && i < len
        invariant
            i <= size,
            i <= len,
            zero@ =~= zeros(i as int),
        decreases size - i,
    {
        zero.push(0);
        i += 1;
    }
    let mut done: u64 = 0;
    let ghost mut k: int = 0;
    while done < len
        invariant
            dest.dest() == old(dest).dest(),
            device == dev.dev(),
            place == out.place(),
            bs == block_size,
            part == zeros_at_once(len as int, bs),
            part == size,
            own == segment_steps(Segment::Hole { start: 0, len }, bs, false),
            begin == (Course { seen: dev@, log: old(dest)@ }),
            len > 0 ==> size > 0,
            k >= 0,
            done <= len,
            done == if len < k * part {
                len as int
            } else {
                k * part
            },
            k == 0 || (k - 1) * part < len,
            done < len ==> zero@.len() == size || zero@.len() == len - done,
            zero@.len() <= size,
            zero@ == zeros(zero@.len() as int),
            steps_done(
                device,
                block_size,
                place,
                own,
                k,
                begin,
                Course { seen: dev@, log: dest@ },
            ),
            forall|start: u64| #[trigger]
                segment_steps(Segment::Hole { start, len }, bs, false) == own,
        decreases len - done,
    {
        let left: u64 = len - done;
        let ghost before = Course { seen: dev@, log: dest@ };
        if left < zero.len() as u64 {
            zero.truncate(left as usize);
            proof {
                assert(zero@ =~= zeros(left as int));
            }
        }
        proof {
            lemma_part_count(len as int, part, k);
            assert(own[k] == (Step::Zeros { len: share(len as int, part, k) }));
            assert(zero@.len() == share(len as int, part, k));
        }
        let n: u64 = zero.len() as u64;
        let r = send_bytes(dest, out, &zero);
        let ghost after = Course { seen: dev@, log: dest@ };
        proof {
            assert(step_taken(device, block_size, place, own[k], before, after, r));
        }
        let ghost sent = r;
        match r {
            Err(error) => return Err(error),
            Ok(_) => {
                proof {
                    lemma_next_step(
                        device,
                        block_size,
                        place,
                        own,
                        k,
                        begin,
                        before,
                        after,
                        sent,
                    );
                    k = k + 1;
                }
            },
        }
        done += n;
    }
    proof {
        if len > 0 {
            lemma_part_count(len as int, part, k);
        } else {
            assert(k == 0);
        }
    }
    Ok(())
}

fn send_blocks<O: Destination, D: BlockDevice>(
    dev: &mut BlockReads<D>,
    block_size: u32,
    segment: Segment,
    dest: &mut Journal<O>,
    out: &Output<O::Temp>,
) -> (r: Result<(), Error>)
    requires
        segment is Data,
        block_size > 0 || segment.size() == 0,
    ensures
        final(dev).dev() == old(dev).dev(),
        final(dest).dest() == old(dest).dest(),
        forall|sparse: bool|
            steps_written(
                old(dev).dev(),
                block_size,
                out.place(),
                #[trigger] segment_steps(segment, block_size as int, sparse),
                (Course { seen: old(dev)@, log: old(dest)@ }),
                (Course { seen: final(dev)@, log: final(dest)@ }),
                r,
            ),
{
    let ghost device = dev.dev();
    let ghost place = out.place();
    let ghost bs = block_size as int;
    let ghost own = segment_steps(segment, bs, false);
    let ghost begin = Course { seen: dev@, log: dest@ };
    let (len, block): (u64, u64) = match segment {
        Segment::Data { len, block, .. } => (len, block),
        Segment::Hole { .. } => (0, 0),
    };
    let mut done: u64 = 0;
    let mut at: u64 = block;
    let ghost mut k: int = 0;
    while done < len
        invariant
            dest.dest() == old(dest).dest(),
            dev.dev() == old(dev).dev(),
            device == dev.dev(),
            place == out.place(),
            bs == block_size,
            block_size > 0 || len == 0,
            segment == (Segment::Data { start: segment->Data_start, len, block }),
            own == segment_steps(segment, bs, false),
            forall|sparse: bool| #[trigger] segment_steps(segment, bs, sparse) == own,
            begin == (Course { seen: old(dev)@, log: old(dest)@ }),
            k >= 0,
            done <= len,
            done == if len < k * bs {
                len as int
            } else {
                k * bs
            },
            k == 0 || (k - 1) * bs < len,
            at == ((block + k) % 0x1_0000_0000_0000_0000) as u64,
            steps_done(
                device,
                block_size,
                place,
                own,
                k,
                begin,
                Course { seen: dev@, log: dest@ },
            ),
        decreases len - done,
    {
        let ghost before = Course { seen: dev@, log: dest@ };
        proof {
            lemma_part_count(len as int, bs, k);
            assert(own[k] == (Step::Block { block: at, len: share(len as int, bs, k) }));
        }
        let reply = dev.read_block(at, block_size);
        let ghost given = reply;
        let mut data = match reply {
            Err(error) => {
                proof {
                    assert(call_ensures(D::read_block, (device, at, block_size), given));
                    assert(step_taken(
                        device,
                        block_size,
                        place,
                        own[k],
                        before,
                        Course { seen: dev@, log: dest@ },
                        Err(error),
                    ));
                }
                return Err(error);
            },
            Ok(data) => data,
        };
        let ghost whole = data@;
        let left: u64 = len - done;
        let n: u64 = if left < block_size as u64 {
            left
        } else {
            block_size as u64
        };
        data.truncate(n as usize);
        let r = send_bytes(dest, out, &data);
        let ghost after = Course { seen: dev@, log: dest@ };
        proof {
            assert(data@ =~= whole.take(n as int));
            assert(n == share(len as int, bs, k));
            assert(call_ensures(D::read_block, (device, at, block_size), given));
            assert(step_taken(device, block_size, place, own[k], before, after, r));
        }
        let ghost sent = r;
        match r {
            Err(error) => return Err(error),
            Ok(_) => {
                proof {
                    lemma_next_step(
                        device,
                        block_size,
                        place,
                        own,
                        k,
                        begin,
                        before,
                        after,
                        sent,
                    );
                    k = k + 1;
                }
            },
        }
        done += n;
        at = at.wrapping_add(1);
    }
    proof {
        if len > 0 {
            lemma_part_count(len as int, bs, k);
        } else {
            assert(k == 0);
        }
    }
    Ok(())
}

fn send_segment<O: Destination, D: BlockDevice>(
    dev: &mut BlockReads<D>,
    block_size: u32,
    segment: Segment,
    dest: &mut Journal<O>,
    out: &Output<O::Temp>,
) -> (r: Result<(), Error>)
    requires
        segment.start() + segment.size() <= u64::MAX,
        block_size > 0 || segment is Hole || segment.size() == 0,
    ensures
        final(dev).dev() == old(dev).dev(),
        final(dest).dest() == old(dest).dest(),
        steps_written(
            old(dev).dev(),
            block_size,
            out.place(),
            segment_steps(segment, block_size as int, out.place() is Sparse),
            (Course { seen: old(dev)@, log: old(dest)@ }),
            (Course { seen: final(dev)@, log: final(dest)@ }),
            r,
        ),
{
    let ghost own = segment_steps(segment, block_size as int, out.place() is Sparse);
    match segment {
        Segment::Data { .. } => {
            let r = send_blocks(dev, block_size, segment, dest, out);
            proof {
                let sparse = out.place() is Sparse;
                assert(segment_steps(segment, block_size as int, sparse) == own);
                assert(steps_written(
                    old(dev).dev(),
                    block_size,
                    out.place(),
                    own,
                    (Course { seen: old(dev)@, log: old(dest)@ }),
                    (Course { seen: dev@, log: dest@ }),
                    r,
                ));
            }
            r
        },
        Segment::Hole { start, len } => match out {
            Output::Sparse(temp) => {
                let ghost before = Course { seen: dev@, log: dest@ };
                let r = dest.skip(temp, start + len);
                proof {
                    let after = Course { seen: dev@, log: dest@ };
                    assert(steps_done(
                        dev.dev(),
                        block_size,
                        out.place(),
                        own,
                        0,
                        before,
                        before,
                    ));
                    assert(step_taken(
                        dev.dev(),
                        block_size,
                        out.place(),
                        own[0],
                        before,
                        after,
                        r,
                    ));
                    if r is Ok {
                        lemma_next_step(
                            dev.dev(),
                            block_size,
                            out.place(),
                            own,
                            0,
                            before,
                            before,
                            after,
                            r,
                        );
                    }
                }
                r
            },
            _ => {
                let r = send_zeros(dev, block_size, len, dest, out);
                proof {
                    let hole = Segment::Hole { start, len };
                    assert(segment_steps(hole, block_size as int, false) == own);
                }
                r
            },
        },
    }
}

fn send_segments<O: Destination, D: BlockDevice>(
    dev: &mut BlockReads<D>,
    block_size: u32,
    segments: &Vec<Segment>,
    size: u64,
    dest: &mut Journal<O>,
    out: &Output<O::Temp>,
) -> (r: Result<(), Error>)
    requires
        tiles(segments@, size as int),
        block_size > 0 || data_size(segments@) == 0,
    ensures
        final(dev).dev() == old(dev).dev(),
        final(dest).dest() == old(dest).dest(),
        steps_written(
            old(dev).dev(),
            block_size,
            out.place(),
            steps(segments@, block_size as int, out.place() is Sparse),
            (Course { seen: old(dev)@, log: old(dest)@ }),
            (Course { seen: final(dev)@, log: final(dest)@ }),
            r,
        ),
{
    let ghost device = dev.dev();
    let ghost place = out.place();
    let ghost sparse = place is Sparse;
    let ghost bs = block_size as int;
    let ghost all = steps(segments@, bs, sparse);
    let ghost begin = Course { seen: dev@, log: dest@ };
    let mut i: usize = 0;
    proof {
        assert(segments@.take(0) =~= Seq::empty());
    }
    while i < segments.len()
        invariant
            dest.dest() == old(dest).dest(),
            dev.dev() == old(dev).dev(),
            device == dev.dev(),
            place == out.place(),
            sparse == place is Sparse,
            bs == block_size,
            all == steps(segments@, bs, sparse),
            begin == (Course { seen: old(dev)@, log: old(dest)@ }),
            tiles(segments@, size as int),
            block_size > 0 || data_size(segments@) == 0,
            i <= segments@.len(),
            steps_done(
                device,
                block_size,
                place,
                all,
                steps(segments@.take(i as int), bs, sparse).len() as int,
                begin,
                Course { seen: dev@, log: dest@ },
            ),
        decreases segments@.len() - i,
    {
        let ghost mid = Course { seen: dev@, log: dest@ };
        let segment = segments[i];
        let ghost own = segment_steps(segment, bs, sparse);
        let ghost first = steps(segments@.take(i as int), bs, sparse).len() as int;
        proof {
            lemma_no_data(segments@, i as int);
            lemma_segment_lies_within(segments@, size as int, i as int);
            let next = segments@.take(i + 1);
            assert(next.drop_last() =~= segments@.take(i as int));
            assert(next.last() == segment);
            lemma_steps_grow(segments@, i + 1, bs, sparse);
            assert(own =~= steps(next, bs, sparse).subrange(first, first + own.len()));
            assert(own =~= all.subrange(first, first + own.len()));
        }
        let r = send_segment(dev, block_size, segment, dest, out);
        let ghost after = Course { seen: dev@, log: dest@ };
        match r {
            Err(error) => {
                proof {
                    let (n, then) = choose|n: int, then: Course|
                        0 <= n < own.len() && #[trigger] steps_done(
                            device,
                            block_size,
                            place,
                            own,
                            n,
                            mid,
                            then,
                        ) && step_taken(device, block_size, place, own[n], then, after, r);
                    lemma_steps_join(
                        device,
                        block_size,
                        place,
                        all,
                        own,
                        first,
                        n,
                        begin,
                        mid,
                        then,
                    );
                    assert(all[first + n] == own[n]);
                }
                return Err(error);
            },
            Ok(_) => {
                proof {
                    lemma_steps_join(
                        device,
                        block_size,
                        place,
                        all,
                        own,
                        first,
                        own.len() as int,
                        begin,
                        mid,
                        after,
                    );
                }
            },
        }
        i += 1;
    }
    proof {
        assert(segments@.take(i as int) =~= segments@);
    }
    Ok(())
}

/// Writes the `file_size` bytes of a file out, following the logical layout of
/// `extents` as [`write_extents`](crate::extract::write_extents) does.
pub fn send_extents<O: Destination, D: BlockDevice>(
    dev: &mut BlockReads<D>,
    block_size: u32,
    extents: &mut Vec<FileExtent>,
    file_size: u64,
    dest: &mut Journal<O>,
    out: &Output<O::Temp>,
) -> (r: Result<Written, Error>)
    requires
        block_size > 0 || data_size(
            layout_of(by_address(old(extents)@), file_size as int).segments,
        ) == 0,
    ensures
        final(dev).dev() == old(dev).dev(),
        final(dest).dest() == old(dest).dest(),
        final(extents)@ == by_address(old(extents)@),
        ({
            let layout = layout_of(by_address(old(extents)@), file_size as int);
            &&& r matches Ok(written) ==> written == account(layout, file_size)
            &&& extents_sent(
                old(dev).dev(),
                block_size,
                layout.segments,
                file_size,
                out.place(),
                (Course { seen: old(dev)@, log: old(dest)@ }),
                (Course { seen: final(dev)@, log: final(dest)@ }),
                outcome(r),
            )
        }),
{
    let ghost before = Course { seen: dev@, log: dest@ };
    let ghost sorted = by_address(extents@);
    let (laid_out, written) = plan(extents, file_size);
    let ghost segments = laid_out.segments@;
    proof {
        law_layout_tiles_the_file(sorted, file_size);
    }
    let sent = send_segments(dev, block_size, &laid_out.segments, file_size, dest, out);
    let ghost given = sent;
    let ghost mid = Course { seen: dev@, log: dest@ };
    proof {
        assert(steps_written(
            dev.dev(),
            block_size,
            out.place(),
            steps(segments, block_size as int, out.place() is Sparse),
            before,
            mid,
            given,
        ));
    }
    match sent {
        Err(error) => return Err(error),
        Ok(_) => {},
    }
    match out {
        Output::Sparse(temp) => match dest.set_len(temp, file_size) {
            Err(error) => Err(error),
            Ok(unit) => {
                proof {
                    assert(unit == ());
                }
                Ok(written)
            },
        },
        _ => Ok(written),
    }
}

/// Writing out a file of a volume that is laid out as `segments` ended with `r`.
pub open spec fn segments_sent<D: ApfsImage>(
    vol: &Volume<D>,
    segments: Seq<Segment>,
    size: u64,
    place: Place,
    at: Seq<Event>,
    to: Seq<Event>,
    r: Result<(), Error>,
) -> bool {
    exists|after: Course| #[trigger]
        extents_sent(
            &vol.dev,
            vol.block_size,
            segments,
            size,
            place,
            Course { seen: Seq::empty(), log: at },
            after,
            r,
        ) && after.log == to
}

/// `r` is what writing out the data of `size` bytes that `records` describe gives.
/// Where these cannot be read, or blocks have no size, nothing is asked of the
/// destination.
pub open spec fn data_sent<D: ApfsImage>(
    vol: &Volume<D>,
    records: Seq<Record>,
    size: u64,
    place: Place,
    at: Seq<Event>,
    to: Seq<Event>,
    r: Result<Written, Error>,
) -> bool {
    match extents_in(record_views(records)) {
        Err(error) => to == at && is_failed(r, error),
        Ok(extents) => {
            let layout = layout_of(by_address(extents), size as int);
            if vol.block_size == 0 && data_size(layout.segments) != 0 {
                to == at && is_failed(r, no_block_size())
            } else {
                &&& r matches Ok(written) ==> written == account(layout, size)
                &&& segments_sent(vol, layout.segments, size, place, at, to, outcome(r))
            }
        },
    }
}

/// Writes out the data of a file of `file_size` bytes, from the extents among its
/// records.
pub fn send_file_data<O: Destination, D: ApfsImage>(
    dest: &mut Journal<O>,
    vol: &Volume<D>,
    records: &[Record],
    file_size: u64,
    out: &Output<O::Temp>,
) -> (r: Result<Written, Error>)
    ensures
        final(dest).dest() == old(dest).dest(),
        data_sent(vol, records@, file_size, out.place(), old(dest)@, final(dest)@, r),
{
    match collect_extents(records) {
        Err(error) => Err(error),
        Ok(extents) => {
            let mut extents = extents;
            let ghost given = extents@;
            proof {
                law_ordering_twice_changes_nothing(given);
            }
            if vol.block_size == 0 && needs_blocks(&mut extents, file_size) {
                return Err(Error::fixed(ErrorKind::Corrupt, "volume has a block size of zero"));
            }
            let mut dev = BlockReads::new(&vol.dev);
            let ghost before = Course { seen: Seq::empty(), log: dest@ };
            let r = send_extents(&mut dev, vol.block_size, &mut extents, file_size, dest, out);
            proof {
                let after = Course { seen: dev@, log: dest@ };
                assert(extents_sent(
                    &vol.dev,
                    vol.block_size,
                    layout_of(by_address(given), file_size as int).segments,
                    file_size,
                    out.place(),
                    before,
                    after,
                    outcome(r),
                ));
                assert(segments_sent(
                    vol,
                    layout_of(by_address(given), file_size as int).segments,
                    file_size,
                    out.place(),
                    old(dest)@,
                    dest@,
                    outcome(r),
                ));
            }
            r
        },
    }
}

// ---------------------------------------------------------------------------
// Laws
// ---------------------------------------------------------------------------

/// The event writes to `place`.
pub open spec fn writes_to(event: Event, place: Place) -> bool {
    match place {
        Place::Stream => event is Stream,
        Place::Dense(temp) => event matches Event::Fill { temp: t, .. } && t == temp,
        Place::Sparse(temp) => match event {
            Event::Fill { temp: t, .. } => t == temp,
            Event::Skip { temp: t, .. } => t == temp,
            Event::SetLen { temp: t, .. } => t == temp,
            _ => false,
        },
    }
}

/// The event is a request to write that was refused.
pub open spec fn write_refused(event: Event) -> bool {
    match event {
        Event::Stream { reply, .. } => reply is Err,
        Event::Fill { reply, .. } => reply is Err,
        Event::Skip { reply, .. } => reply is Err,
        Event::SetLen { reply, .. } => reply is Err,
        _ => false,
    }
}

/// All that was asked between `at` and `to` writes to `place`; none of it was refused
/// where `well` holds.
pub open spec fn only_writes(place: Place, at: Seq<Event>, to: Seq<Event>, well: bool) -> bool {
    &&& at.is_prefix_of(to)
    &&& forall|i: int|
        at.len() <= i < to.len() ==> {
            &&& writes_to(#[trigger] to[i], place)
            &&& well ==> !write_refused(to[i])
        }
}

proof fn lemma_writes_join(
    place: Place,
    at: Seq<Event>,
    mid: Seq<Event>,
    to: Seq<Event>,
    well: bool,
)
    requires
        only_writes(place, at, mid, true),
        only_writes(place, mid, to, well),
    ensures
        only_writes(place, at, to, well),
{
    assert(to.take(at.len() as int) =~= mid.take(at.len() as int));
    assert forall|i: int| at.len() <= i < to.len() implies {
        &&& writes_to(#[trigger] to[i], place)
        &&& well ==> !write_refused(to[i])
    } by {
        if i < mid.len() {
            assert(to[i] == mid[i]);
            assert(writes_to(mid[i], place));
        }
    }
}

proof fn lemma_step_writes<D: BlockDevice>(
    dev: &D,
    block_size: u32,
    place: Place,
    step: Step,
    before: Course,
    after: Course,
    r: Result<(), Error>,
)
    requires
        step_taken(dev, block_size, place, step, before, after, r),
    ensures
        only_writes(place, before.log, after.log, r is Ok),
{
    assert(after.log == before.log || after.log == before.log.push(after.log.last()));
}

proof fn lemma_steps_write<D: BlockDevice>(
    dev: &D,
    block_size: u32,
    place: Place,
    all: Seq<Step>,
    n: int,
    before: Course,
    after: Course,
)
    requires
        steps_done(dev, block_size, place, all, n, before, after),
    ensures
        only_writes(place, before.log, after.log, true),
    decreases n,
{
    if n > 0 {
        let prev = choose|prev: Course|
            steps_done(dev, block_size, place, all, n - 1, before, prev) && #[trigger] step_taken(
                dev,
                block_size,
                place,
                all[n - 1],
                prev,
                after,
                Ok(()),
            );
        lemma_steps_write(dev, block_size, place, all, n - 1, before, prev);
        lemma_step_writes(dev, block_size, place, all[n - 1], prev, after, Ok(()));
        lemma_writes_join(place, before.log, prev.log, after.log, true);
    }
}

/// Writing a file's data out asks for nothing but to write to its place. Where it ends
/// well, no request was refused.
pub proof fn law_only_its_place_is_written<D: ApfsImage>(
    vol: &Volume<D>,
    records: Seq<Record>,
    size: u64,
    place: Place,
    at: Seq<Event>,
    to: Seq<Event>,
    r: Result<Written, Error>,
)
    requires
        data_sent(vol, records, size, place, at, to, r),
    ensures
        only_writes(place, at, to, r is Ok),
{
    if let Ok(extents) = extents_in(record_views(records)) {
        let segments = layout_of(by_address(extents), size as int).segments;
        if vol.block_size > 0 || data_size(segments) == 0 {
            let before = Course { seen: Seq::empty(), log: at };
            let after = choose|after: Course| #[trigger]
                extents_sent(
                    &vol.dev,
                    vol.block_size,
                    segments,
                    size,
                    place,
                    before,
                    after,
                    outcome(r),
                ) && after.log == to;
            let all = steps(segments, vol.block_size as int, place is Sparse);
            let (written, mid) = choose|written: Result<(), Error>, mid: Course| #[trigger]
                steps_written(
                    &vol.dev,
                    vol.block_size,
                    place,
                    all,
                    before,
                    mid,
                    written,
                ) && match written {
                    Err(_) => after == mid && outcome(r) == written,
                    Ok(_) => writing_ended(place, size, mid, after, outcome(r)),
                };
            if written is Ok {
                lemma_steps_write(
                    &vol.dev,
                    vol.block_size,
                    place,
                    all,
                    all.len() as int,
                    before,
                    mid,
                );
                assert(only_writes(place, mid.log, to, r is Ok));
                lemma_writes_join(place, at, mid.log, to, r is Ok);
            } else {
                let (n, then) = choose|n: int, then: Course|
                    0 <= n < all.len() && #[trigger] steps_done(
                        &vol.dev,
                        vol.block_size,
                        place,
                        all,
                        n,
                        before,
                        then,
                    ) && step_taken(
                        &vol.dev,
                        vol.block_size,
                        place,
                        all[n],
                        then,
                        mid,
                        written,
                    );
                lemma_steps_write(&vol.dev, vol.block_size, place, all, n, before, then);
                lemma_step_writes(
                    &vol.dev,
                    vol.block_size,
                    place,
                    all[n],
                    then,
                    mid,
                    written,
                );
                lemma_writes_join(place, at, then.log, to, r is Ok);
            }
        }
    }
}

/// What requests leave of a file that was empty, and where the next bytes go.
pub struct Sheet {
    pub bytes: Seq<u8>,
    pub cursor: int,
}

/// The file `sheet` with `bytes` written at its cursor. What lies between its end and the
/// cursor reads as zero.
pub open spec fn written_on(sheet: Sheet, bytes: Seq<u8>) -> Sheet {
    let end = sheet.cursor + bytes.len();
    if bytes.len() == 0 {
        sheet
    } else {
        Sheet {
            bytes: Seq::new(
                if end > sheet.bytes.len() {
                    end as nat
                } else {
                    sheet.bytes.len()
                },
                |o: int|
                    if sheet.cursor <= o < end {
                        bytes[o - sheet.cursor]
                    } else if o < sheet.bytes.len() {
                        sheet.bytes[o]
                    } else {
                        0u8
                    },
            ),
            cursor: end,
        }
    }
}

/// The first `len` bytes of a file, or as many with zeros behind its end.
pub open spec fn cut_to(bytes: Seq<u8>, len: int) -> Seq<u8> {
    Seq::new(
        len as nat,
        |o: int|
            if o < bytes.len() {
                bytes[o]
            } else {
                0u8
            },
    )
}

/// What a request makes of a file.
pub open spec fn after_request(sheet: Sheet, event: Event) -> Sheet {
    match event {
        Event::Stream { bytes, .. } => written_on(sheet, bytes),
        Event::Fill { bytes, .. } => written_on(sheet, bytes),
        Event::Skip { to, .. } => Sheet { cursor: to as int, ..sheet },
        Event::SetLen { len, .. } => Sheet { bytes: cut_to(sheet.bytes, len as int), ..sheet },
        _ => sheet,
    }
}

/// What the requests from `from` on leave of a file that was empty.
pub open spec fn left_by(log: Seq<Event>, from: nat) -> Sheet
    decreases log.len(),
{
    if log.len() <= from {
        Sheet { bytes: Seq::empty(), cursor: 0 }
    } else {
        after_request(left_by(log.drop_last(), from), log.last())
    }
}

/// Requests that leave an empty file as it is can be left out of account.
pub(crate) proof fn lemma_left_by_later(log: Seq<Event>, from: nat, later: nat)
    requires
        from <= later <= log.len(),
        forall|i: int, sheet: Sheet|
            from <= i < later ==> #[trigger] after_request(sheet, log[i]) == sheet,
    ensures
        left_by(log, from) == left_by(log, later),
    decreases log.len(),
{
    if log.len() > from {
        let front = log.drop_last();
        if log.len() > later {
            assert forall|i: int, sheet: Sheet| from <= i < later implies #[trigger] after_request(
                sheet,
                front[i],
            ) == sheet by {
                assert(after_request(sheet, log[i]) == sheet);
            }
            lemma_left_by_later(front, from, later);
        } else {
            assert forall|i: int, sheet: Sheet|
                from <= i < later - 1 implies #[trigger] after_request(
                sheet,
                front[i],
            ) == sheet by {
                assert(after_request(sheet, log[i]) == sheet);
            }
            lemma_left_by_later(front, from, (later - 1) as nat);
            let sheet = left_by(front, from);
            assert(after_request(sheet, log[log.len() - 1]) == sheet);
        }
    }
}

/// The file holds `bytes` up to its cursor, where it may end before that only if it is
/// sparse.
spec fn shows(sheet: Sheet, bytes: Seq<u8>, sparse: bool) -> bool {
    &&& sheet.cursor == bytes.len()
    &&& sheet.bytes.len() <= sheet.cursor
    &&& cut_to(sheet.bytes, sheet.cursor) == bytes
    &&& !sparse ==> sheet.bytes == bytes
}

proof fn lemma_sent_bytes_show(
    place: Place,
    bytes: Seq<u8>,
    at: Seq<Event>,
    to: Seq<Event>,
    r: Result<(), Error>,
    from: nat,
    before: Seq<u8>,
    sparse: bool,
)
    requires
        bytes_sent(place, bytes, at, to, r),
        bytes.len() > 0,
        from <= at.len(),
        shows(left_by(at, from), before, sparse),
    ensures
        from <= to.len(),
        shows(left_by(to, from), before + bytes, sparse),
{
    let sheet = left_by(at, from);
    assert(to.drop_last() =~= at);
    let after = left_by(to, from);
    assert(after == written_on(sheet, bytes));
    let whole = before + bytes;
    assert forall|o: int| 0 <= o < whole.len() implies after.bytes[o] == whole[o] by {
        if o < before.len() {
            assert(cut_to(sheet.bytes, sheet.cursor)[o] == before[o]);
        }
    }
    assert(after.bytes =~= whole);
    assert(cut_to(after.bytes, after.cursor) =~= whole);
}

proof fn lemma_steps_prefix<D: BlockDevice>(
    dev: &D,
    block_size: u32,
    place: Place,
    a: Seq<Step>,
    b: Seq<Step>,
    n: int,
    before: Course,
    after: Course,
)
    requires
        0 <= n <= a.len(),
        steps_done(dev, block_size, place, a + b, n, before, after),
    ensures
        steps_done(dev, block_size, place, a, n, before, after),
    decreases n,
{
    if n > 0 {
        let prev = choose|prev: Course|
            steps_done(dev, block_size, place, a + b, n - 1, before, prev) && #[trigger] step_taken(
                dev,
                block_size,
                place,
                (a + b)[n - 1],
                prev,
                after,
                Ok(()),
            );
        lemma_steps_prefix(dev, block_size, place, a, b, n - 1, before, prev);
        assert((a + b)[n - 1] == a[n - 1]);
    }
}

proof fn lemma_steps_split<D: BlockDevice>(
    dev: &D,
    block_size: u32,
    place: Place,
    a: Seq<Step>,
    b: Seq<Step>,
    k: int,
    before: Course,
    after: Course,
) -> (mid: Course)
    requires
        0 <= k <= b.len(),
        steps_done(dev, block_size, place, a + b, a.len() + k, before, after),
    ensures
        steps_done(dev, block_size, place, a, a.len() as int, before, mid),
        steps_done(dev, block_size, place, b, k, mid, after),
    decreases k,
{
    if k == 0 {
        lemma_steps_prefix(dev, block_size, place, a, b, a.len() as int, before, after);
        after
    } else {
        let n = a.len() + k;
        let prev = choose|prev: Course|
            steps_done(dev, block_size, place, a + b, n - 1, before, prev) && #[trigger] step_taken(
                dev,
                block_size,
                place,
                (a + b)[n - 1],
                prev,
                after,
                Ok(()),
            );
        let mid = lemma_steps_split(dev, block_size, place, a, b, k - 1, before, prev);
        assert((a + b)[n - 1] == b[k - 1]);
        mid
    }
}

proof fn lemma_part_is_some(len: int, size: int, k: int)
    by (nonlinear_arith)
    requires
        size > 0,
        0 <= k < block_count(len, size),
    ensures
        k * size < len,
        (k + 1) * size == k * size + size,
        0 <= k * size,
{
}

proof fn lemma_blocks_show<D: BlockDevice>(
    dev: &D,
    block_size: u32,
    place: Place,
    segment: Segment,
    k: int,
    mid: Course,
    after: Course,
    from: nat,
    before: Seq<u8>,
) -> (replies: Seq<Result<Vec<u8>, Error>>)
    requires
        segment is Data,
        block_size > 0,
        0 <= k <= block_count(segment.size(), block_size as int),
        steps_done(
            dev,
            block_size,
            place,
            segment_steps(segment, block_size as int, place is Sparse),
            k,
            mid,
            after,
        ),
        from <= mid.log.len(),
        shows(left_by(mid.log, from), before, place is Sparse),
    ensures
        replies.len() == k,
        answered(dev, block_size, segment_reads(segment, block_size as int), replies),
        all_read(replies),
        after.seen == mid.seen + segment_reads(segment, block_size as int).take(k),
        from <= after.log.len(),
        shows(
            left_by(after.log, from),
            before + segment_bytes(segment, block_size as int, blocks_in(replies)),
            place is Sparse,
        ),
    decreases k,
{
    let bs = block_size as int;
    let sparse = place is Sparse;
    let own = segment_steps(segment, bs, sparse);
    let wanted = segment_reads(segment, bs);
    if k == 0 {
        let none: Seq<Result<Vec<u8>, Error>> = Seq::empty();
        assert(blocks_in(none) =~= Seq::empty());
        assert(segment_bytes(segment, bs, blocks_in(none)) =~= Seq::empty());
        assert(before + segment_bytes(segment, bs, blocks_in(none)) =~= before);
        assert(mid.seen + wanted.take(0) =~= mid.seen);
        none
    } else {
        let prev = choose|prev: Course|
            steps_done(dev, block_size, place, own, k - 1, mid, prev) && #[trigger] step_taken(
                dev,
                block_size,
                place,
                own[k - 1],
                prev,
                after,
                Ok(()),
            );
        let replies = lemma_blocks_show(
            dev,
            block_size,
            place,
            segment,
            k - 1,
            mid,
            prev,
            from,
            before,
        );
        let len = segment.size();
        lemma_part_is_some(len, bs, k - 1);
        let block = wanted[k - 1];
        let part = share(len, bs, k - 1);
        assert(own[k - 1] == (Step::Block { block, len: part }));
        let reply = choose|reply: Result<Vec<u8>, Error>| #[trigger]
            call_ensures(D::read_block, (dev, block, block_size), reply) && match reply {
                Err(error) => after.log == prev.log && Ok::<(), Error>(()) == Err::<(), Error>(
                    error,
                ),
                Ok(data) => bytes_sent(
                    place,
                    data@.take(part as int),
                    prev.log,
                    after.log,
                    Ok(()),
                ),
            };
        assert(call_ensures(D::read_block, (dev, block, block_size), reply));
        let data = reply->Ok_0@;
        let so_far = segment_bytes(segment, bs, blocks_in(replies));
        lemma_sent_bytes_show(
            place,
            data.take(part as int),
            prev.log,
            after.log,
            Ok(()),
            from,
            before + so_far,
            sparse,
        );
        let all = replies.push(reply);
        lemma_segment_bytes_grow(segment, bs, blocks_in(replies), data);
        assert(blocks_in(all) =~= blocks_in(replies).push(data));
        assert(before + so_far + data.take(part as int) =~= before + segment_bytes(
            segment,
            bs,
            blocks_in(all),
        ));
        assert(mid.seen + wanted.take(k) =~= (mid.seen + wanted.take(k - 1)).push(block));
        all
    }
}

proof fn lemma_zeros_show<D: BlockDevice>(
    dev: &D,
    block_size: u32,
    place: Place,
    segment: Segment,
    k: int,
    mid: Course,
    after: Course,
    from: nat,
    before: Seq<u8>,
)
    requires
        segment is Hole,
        !(place is Sparse),
        0 <= k <= block_count(
            segment.size(),
            zeros_at_once(segment.size(), block_size as int),
        ),
        steps_done(
            dev,
            block_size,
            place,
            segment_steps(segment, block_size as int, false),
            k,
            mid,
            after,
        ),
        from <= mid.log.len(),
        shows(left_by(mid.log, from), before, false),
    ensures
        after.seen == mid.seen,
        from <= after.log.len(),
        ({
            let part = zeros_at_once(segment.size(), block_size as int);
            let len = if segment.size() < k * part {
                segment.size()
            } else {
                k * part
            };
            shows(left_by(after.log, from), before + zeros(len), false)
        }),
    decreases k,
{
    let bs = block_size as int;
    let own = segment_steps(segment, bs, false);
    let size = segment.size();
    let part = zeros_at_once(size, bs);
    if k == 0 {
        assert(k * part == 0) by (nonlinear_arith)
            requires
                k == 0,
        ;
        assert(before + zeros(0) =~= before);
    } else {
        let prev = choose|prev: Course|
            steps_done(dev, block_size, place, own, k - 1, mid, prev) && #[trigger] step_taken(
                dev,
                block_size,
                place,
                own[k - 1],
                prev,
                after,
                Ok(()),
            );
        lemma_zeros_show(dev, block_size, place, segment, k - 1, mid, prev, from, before);
        lemma_part_is_some(size, part, k - 1);
        assert(k * part == (k - 1) * part + part) by (nonlinear_arith);
        let n = share(size, part, k - 1);
        assert(own[k - 1] == (Step::Zeros { len: n }));
        lemma_sent_bytes_show(
            place,
            zeros(n as int),
            prev.log,
            after.log,
            Ok(()),
            from,
            before + zeros((k - 1) * part),
            false,
        );
        assert(before + zeros((k - 1) * part) + zeros(n as int) =~= before + zeros(
            (k - 1) * part + n,
        ));
    }
}

proof fn lemma_segment_shows<D: BlockDevice>(
    dev: &D,
    block_size: u32,
    place: Place,
    segment: Segment,
    mid: Course,
    after: Course,
    from: nat,
    before: Seq<u8>,
) -> (replies: Seq<Result<Vec<u8>, Error>>)
    requires
        block_size > 0 || segment is Hole || segment.size() == 0,
        before.len() == segment.start(),
        segment.start() + segment.size() <= u64::MAX,
        ({
            let own = segment_steps(segment, block_size as int, place is Sparse);
            steps_done(dev, block_size, place, own, own.len() as int, mid, after)
        }),
        from <= mid.log.len(),
        shows(left_by(mid.log, from), before, place is Sparse),
    ensures
        replies.len() == segment_reads(segment, block_size as int).len(),
        answered(dev, block_size, segment_reads(segment, block_size as int), replies),
        all_read(replies),
        after.seen == mid.seen + segment_reads(segment, block_size as int),
        from <= after.log.len(),
        shows(
            left_by(after.log, from),
            before + segment_bytes(segment, block_size as int, blocks_in(replies)),
            place is Sparse,
        ),
{
    let bs = block_size as int;
    let sparse = place is Sparse;
    let own = segment_steps(segment, bs, sparse);
    let wanted = segment_reads(segment, bs);
    let none: Seq<Result<Vec<u8>, Error>> = Seq::empty();
    match segment {
        Segment::Data { len, .. } => {
            if len == 0 {
                assert(before + segment_bytes(segment, bs, blocks_in(none)) =~= before);
                assert(mid.seen + wanted =~= mid.seen);
                none
            } else {
                assert(wanted.take(wanted.len() as int) =~= wanted);
                lemma_blocks_show(
                    dev,
                    block_size,
                    place,
                    segment,
                    own.len() as int,
                    mid,
                    after,
                    from,
                    before,
                )
            }
        },
        Segment::Hole { start, len } => {
            let bytes = segment_bytes(segment, bs, blocks_in(none));
            assert(bytes =~= zeros(len as int));
            assert(mid.seen + wanted =~= mid.seen);
            if sparse {
                let to = (start + len) as u64;
                assert(own[0] == (Step::Skip { to }));
                assert(own.len() == 1);
                let prev = choose|prev: Course|
                    steps_done(dev, block_size, place, own, 0, mid, prev) && #[trigger] step_taken(
                        dev,
                        block_size,
                        place,
                        own[0],
                        prev,
                        after,
                        Ok(()),
                    );
                assert(after.log.drop_last() =~= mid.log);
                let sheet = left_by(mid.log, from);
                let passed = left_by(after.log, from);
                assert(passed == Sheet { cursor: to as int, ..sheet });
                let whole = before + bytes;
                assert forall|o: int| 0 <= o < whole.len() implies cut_to(
                    passed.bytes,
                    passed.cursor,
                )[o] == whole[o] by {
                    if o < before.len() {
                        assert(cut_to(sheet.bytes, sheet.cursor)[o] == before[o]);
                    }
                }
                assert(cut_to(passed.bytes, passed.cursor) =~= whole);
            } else {
                let k = own.len() as int;
                let part = zeros_at_once(len as int, bs);
                lemma_zeros_show(dev, block_size, place, segment, k, mid, after, from, before);
                if len > 0 {
                    assert(k * part >= len) by (nonlinear_arith)
                        requires
                            k == (len + part - 1) / part,
                            part > 0,
                    ;
                } else {
                    assert(k == 0);
                }
            }
            none
        },
    }
}

proof fn lemma_segments_show<D: BlockDevice>(
    dev: &D,
    block_size: u32,
    place: Place,
    segments: Seq<Segment>,
    end: int,
    before: Course,
    after: Course,
) -> (replies: Seq<Result<Vec<u8>, Error>>)
    requires
        block_size > 0 || data_size(segments) == 0,
        tiles(segments, end),
        end <= u64::MAX,
        ({
            let all = steps(segments, block_size as int, place is Sparse);
            steps_done(dev, block_size, place, all, all.len() as int, before, after)
        }),
    ensures
        replies.len() == reads(segments, block_size as int).len(),
        answered(dev, block_size, reads(segments, block_size as int), replies),
        all_read(replies),
        after.seen == before.seen + reads(segments, block_size as int),
        before.log.len() <= after.log.len(),
        file_bytes(segments, block_size as int, blocks_in(replies)).len() == end,
        shows(
            left_by(after.log, before.log.len()),
            file_bytes(segments, block_size as int, blocks_in(replies)),
            place is Sparse,
        ),
    decreases segments.len(),
{
    let bs = block_size as int;
    let sparse = place is Sparse;
    let from = before.log.len();
    if segments.len() == 0 {
        let none: Seq<Result<Vec<u8>, Error>> = Seq::empty();
        let empty: Seq<u8> = Seq::empty();
        assert(cut_to(empty, 0) =~= empty);
        assert(before.seen + reads(segments, bs) =~= before.seen);
        none
    } else {
        let front = segments.drop_last();
        let last = segments.last();
        let a = steps(front, bs, sparse);
        let own = segment_steps(last, bs, sparse);
        assert(steps(segments, bs, sparse) == a + own);
        let mid = lemma_steps_split(
            dev,
            block_size,
            place,
            a,
            own,
            own.len() as int,
            before,
            after,
        );
        lemma_no_data(segments, segments.len() - 1);
        lemma_data_size(segments, segments.len() - 1);
        assert(segments.take(segments.len() - 1) =~= front);
        let replies = lemma_segments_show(
            dev,
            block_size,
            place,
            front,
            last.start(),
            before,
            mid,
        );
        let so_far = file_bytes(front, bs, blocks_in(replies));
        let more = lemma_segment_shows(
            dev,
            block_size,
            place,
            last,
            mid,
            after,
            from,
            so_far,
        );
        let all = replies + more;
        let n = replies.len() as int;
        assert(blocks_in(all).take(n) =~= blocks_in(replies));
        assert(blocks_in(all).skip(n) =~= blocks_in(more));
        assert(file_bytes(segments, bs, blocks_in(all)) == so_far + segment_bytes(
            last,
            bs,
            blocks_in(more),
        ));
        let wanted = reads(segments, bs);
        assert forall|i: int| 0 <= i < all.len() implies call_ensures(
            D::read_block,
            (dev, wanted[i], block_size),
            #[trigger] all[i],
        ) by {
            if i < n {
                assert(all[i] == replies[i]);
            } else {
                assert(all[i] == more[i - n]);
            }
        }
        let blocks = blocks_in(all);
        assert forall|i: int| 0 <= i < blocks.len() implies (#[trigger] blocks[i]).len() == bs by {
            assert(all[i] is Ok);
            assert(call_ensures(D::read_block, (dev, wanted[i], block_size), all[i]));
        }
        lemma_file_size(segments, end, bs, blocks);
        assert(before.seen + wanted =~= before.seen + reads(front, bs) + segment_reads(last, bs));
        all
    }
}

/// What is sent to a place, dense or sparse, is the file: the requests leave of an empty
/// file exactly what [`write_extents`](crate::extract::write_extents) writes, and the
/// blocks that the layout reads are read once each, in its order.
pub proof fn law_sent_extents_are_the_file<D: BlockDevice>(
    dev: &D,
    block_size: u32,
    extents: Seq<FileExtent>,
    size: u64,
    place: Place,
    before: Course,
    after: Course,
)
    requires
        block_size > 0 || data_size(layout_of(extents, size as int).segments) == 0,
        extents_sent(
            dev,
            block_size,
            layout_of(extents, size as int).segments,
            size,
            place,
            before,
            after,
            Ok(()),
        ),
    ensures
        after.seen == before.seen + reads(
            layout_of(extents, size as int).segments,
            block_size as int,
        ),
        extents_written(
            dev,
            block_size,
            layout_of(extents, size as int).segments,
            Ok(()),
            Seq::empty(),
            left_by(after.log, before.log.len()).bytes,
        ),
{
    let bs = block_size as int;
    let segments = layout_of(extents, size as int).segments;
    let all = steps(segments, bs, place is Sparse);
    let (written, mid) = choose|written: Result<(), Error>, mid: Course| #[trigger]
        steps_written(dev, block_size, place, all, before, mid, written) && match written {
            Err(_) => after == mid && Ok::<(), Error>(()) == written,
            Ok(_) => writing_ended(place, size, mid, after, Ok(())),
        };
    law_layout_tiles_the_file(extents, size);
    let replies = lemma_segments_show(
        dev,
        block_size,
        place,
        segments,
        size as int,
        before,
        mid,
    );
    let bytes = file_bytes(segments, bs, blocks_in(replies));
    let out = left_by(after.log, before.log.len()).bytes;
    if place is Sparse {
        assert(after.log.drop_last() =~= mid.log);
        assert(out =~= bytes);
    }
    assert(out == bytes);
    assert(read_through(Ok(()), replies, reads(segments, bs), segments, bs, out));
    assert(out =~= Seq::<u8>::empty() + out);
}

/// A file that was sent out as a whole is the file that
/// [`Volume::write_file_data`] writes.
pub proof fn law_sent_data_is_the_file<D: ApfsImage>(
    vol: &Volume<D>,
    records: Seq<Record>,
    size: u64,
    place: Place,
    at: Seq<Event>,
    to: Seq<Event>,
    written: Written,
)
    requires
        data_sent(vol, records, size, place, at, to, Ok(written)),
    ensures
        vol.data_written(
            records,
            size,
            Ok(written),
            Seq::empty(),
            left_by(to, at.len()).bytes,
        ),
{
    let extents = extents_in(record_views(records))->Ok_0;
    let segments = layout_of(by_address(extents), size as int).segments;
    let before = Course { seen: Seq::empty(), log: at };
    let after = choose|after: Course| #[trigger]
        extents_sent(
            &vol.dev,
            vol.block_size,
            segments,
            size,
            place,
            before,
            after,
            Ok(()),
        ) && after.log == to;
    law_sent_extents_are_the_file(
        &vol.dev,
        vol.block_size,
        by_address(extents),
        size,
        place,
        before,
        after,
    );
}

/// In a sparse place no zeros are written for a hole, and in no other place is a hole passed
/// over. Nothing longer than a block is written at once.
pub proof fn law_only_sparse_places_pass_over_holes(
    segments: Seq<Segment>,
    bs: int,
    sparse: bool,
    i: int,
)
    requires
        0 < bs <= u32::MAX,
        0 <= i < steps(segments, bs, sparse).len(),
    ensures
        sparse ==> !(steps(segments, bs, sparse)[i] is Zeros),
        !sparse ==> !(steps(segments, bs, sparse)[i] is Skip),
        steps(segments, bs, sparse)[i] matches Step::Block { len, .. } ==> 0 < len <= bs,
        steps(segments, bs, sparse)[i] matches Step::Zeros { len } ==> 0 < len <= bs,
    decreases segments.len(),
{
    let front = steps(segments.drop_last(), bs, sparse);
    if i < front.len() {
        law_only_sparse_places_pass_over_holes(segments.drop_last(), bs, sparse, i);
    } else {
        let k = i - front.len();
        let last = segments.last();
        assert(steps(segments, bs, sparse)[i] == segment_steps(last, bs, sparse)[k]);
        let len = match last {
            Segment::Data { len, .. } => len,
            Segment::Hole { len, .. } => len,
        };
        if last is Data || !sparse {
            lemma_share_of_blocks(len as int, bs, k);
        }
    }
}

proof fn lemma_share_of_blocks(len: int, bs: int, k: int)
    requires
        0 < bs <= u32::MAX,
        0 <= k < block_count(len, bs),
        0 <= len <= u64::MAX,
    ensures
        0 < share(len, bs, k) <= bs,
{
    assert(k * bs < len) by (nonlinear_arith)
        requires
            0 < bs,
            0 <= k,
            k < (len + bs - 1) / bs,
    ;
}

/// A file that was sent as a whole to a sparse place was given its length last. To any other
/// place nothing but bytes was sent.
pub proof fn law_sparse_file_gets_its_length<D: ApfsImage>(
    vol: &Volume<D>,
    records: Seq<Record>,
    size: u64,
    place: Place,
    at: Seq<Event>,
    to: Seq<Event>,
    written: Written,
)
    requires
        data_sent(vol, records, size, place, at, to, Ok(written)),
    ensures
        place is Sparse ==> to.len() > at.len() && (to[to.len() - 1] matches Event::SetLen {
            len,
            ..
        } && len == size),
        !(place is Sparse) ==> forall|i: int|
            at.len() <= i < to.len() ==> #[trigger] to[i] is Stream || to[i] is Fill,
{
    law_only_its_place_is_written(vol, records, size, place, at, to, Ok(written));
    if place is Sparse {
        let extents = extents_in(record_views(records))->Ok_0;
        let segments = layout_of(by_address(extents), size as int).segments;
        let before = Course { seen: Seq::empty(), log: at };
        let after = choose|after: Course| #[trigger]
            extents_sent(
                &vol.dev,
                vol.block_size,
                segments,
                size,
                place,
                before,
                after,
                Ok(()),
            ) && after.log == to;
        let all = steps(segments, vol.block_size as int, place is Sparse);
        let (done, mid) = choose|done: Result<(), Error>, mid: Course| #[trigger]
            steps_written(&vol.dev, vol.block_size, place, all, before, mid, done) && match done {
                Err(_) => after == mid && Ok::<(), Error>(()) == done,
                Ok(_) => writing_ended(place, size, mid, after, Ok(())),
            };
        lemma_steps_write(
            &vol.dev,
            vol.block_size,
            place,
            all,
            all.len() as int,
            before,
            mid,
        );
        assert(at.is_prefix_of(mid.log));
    } else {
        assert forall|i: int| at.len() <= i < to.len() implies #[trigger] to[i] is Stream || to[i]
            is Fill by {
            assert(writes_to(to[i], place));
        }
    }
}

} // verus!
