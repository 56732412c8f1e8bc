//! A model of the ring of segments, and what the writer's cycles do to it.
//!
//! Nothing here runs. The model says what the segment files hold while every
//! file operation that the writer asks for succeeds, and the laws below are
//! proved of it: a segment is left once it has taken its share, the segment
//! that the writer moves to starts out empty, the ring never holds more than
//! a bounded number of records, and what a reader finds while the writer is
//! stopped always splits into whole records.

use crate::entry::{
    all_fit, frame, frames, lemma_all_fit_concat, lemma_frames_concat, lemma_unframe_frames,
    unframe,
};
use crate::reader::visiting_order;
use crate::writer::{framed, next_segment, WriterState};
use crate::RING_SIZE;
use vstd::prelude::*;

verus! {

/// What the segment files hold: for each segment, the payloads of the
/// frames in it, oldest first.
pub struct Ring {
    /// The segment with index `i` stands at place `i - 1`.
    pub segments: Seq<Seq<Seq<u8>>>,
}

impl Ring {
    /// A ring has one place for each segment, and holds only payloads that
    /// fit a frame.
    pub open spec fn wf(self) -> bool {
        &&& self.segments.len() == RING_SIZE
        &&& forall|i: int| 0 <= i < self.segments.len() ==> all_fit(#[trigger] self.segments[i])
    }

    /// A ring whose segments are all empty.
    pub open spec fn fresh() -> Ring {
        Ring { segments: Seq::new(RING_SIZE as nat, |i: int| Seq::<Seq<u8>>::empty()) }
    }

    /// The payloads in the segment with index `index`. An index outside the
    /// ring names no file, and so nothing.
    pub open spec fn records(self, index: u8) -> Seq<Seq<u8>> {
        if 1 <= index <= self.segments.len() {
            self.segments[index - 1]
        } else {
            Seq::empty()
        }
    }

    /// The bytes of the file of the segment with index `index`.
    pub open spec fn bytes(self, index: u8) -> Seq<u8> {
        frames(self.records(index))
    }

    /// The ring after the frames of `batch` were appended to the segment
    /// with index `index`.
    pub open spec fn appended(self, index: u8, batch: Seq<Seq<u8>>) -> Ring {
        if 1 <= index <= self.segments.len() {
            Ring { segments: self.segments.update(index - 1, self.segments[index - 1] + batch) }
        } else {
            self
        }
    }

    /// The ring after the segment with index `index` was emptied.
    pub open spec fn emptied(self, index: u8) -> Ring {
        if 1 <= index <= self.segments.len() {
            Ring { segments: self.segments.update(index - 1, Seq::empty()) }
        } else {
            self
        }
    }

    /// The payloads that a reader comes by when it visits the segments in
    /// the order `order`.
    pub open spec fn scan_records(self, order: Seq<u8>) -> Seq<Seq<u8>>
        decreases order.len(),
    {
        if order.len() == 0 {
            Seq::empty()
        } else {
            self.records(order.first()) + self.scan_records(order.drop_first())
        }
    }

    /// The bytes that a reader gathers when it visits the segments in the
    /// order `order`.
    pub open spec fn scan(self, order: Seq<u8>) -> Seq<u8>
        decreases order.len(),
    {
        if order.len() == 0 {
            Seq::empty()
        } else {
            self.bytes(order.first()) + self.scan(order.drop_first())
        }
    }

    /// Number of records in the whole ring.
    pub open spec fn total(self) -> nat
        recommends
            self.segments.len() == RING_SIZE,
    {
        self.segments[0].len() + self.segments[1].len() + self.segments[2].len()
            + self.segments[3].len() + self.segments[4].len()
    }
}

/// Bytes chunks joined in their order.
pub open spec fn joined(chunks: Seq<Seq<u8>>) -> Seq<u8>
    decreases chunks.len(),
{
    if chunks.len() == 0 {
        Seq::empty()
    } else {
        chunks.first() + joined(chunks.drop_first())
    }
}

/// One cycle of the writer with `batch` pending, where every file operation
/// succeeds: the frames of the batch are appended to the current segment
/// and counted; if the segment has then taken its share, the next segment is
/// emptied and the writer moves to it.
pub open spec fn cycle(writer: WriterState, ring: Ring, batch: Seq<Seq<u8>>) -> (
    WriterState,
    Ring,
) {
    let counted = writer.flushed(batch.len());
    let written = ring.appended(writer.pointer, batch);
    if counted.due() {
        (counted.rotated(), written.emptied(next_segment(writer.pointer)))
    } else {
        (counted, written)
    }
}

/// Appending the chunks that the writer hands out for a batch, one after
/// the other, appends the frames of the batch.
pub proof fn lemma_joined_framed(batch: Seq<Seq<u8>>)
    ensures
        joined(framed(batch)) == frames(batch),
    decreases batch.len(),
{
    if batch.len() > 0 {
        lemma_joined_framed(batch.drop_first());
        assert(framed(batch).drop_first() =~= framed(batch.drop_first()));
        assert(framed(batch).first() == frame(batch.first()));
    }
}

/// Appending a batch to a segment appends the frames of the batch to the
/// bytes of that segment, and leaves the other segments as they were.
pub proof fn lemma_appended(ring: Ring, index: u8, batch: Seq<Seq<u8>>, other: u8)
    requires
        ring.wf(),
        all_fit(batch),
        1 <= index <= RING_SIZE,
        other != index,
    ensures
        ring.appended(index, batch).wf(),
        ring.appended(index, batch).bytes(index) == ring.bytes(index) + frames(batch),
        ring.appended(index, batch).records(other) == ring.records(other),
{
    let after = ring.appended(index, batch);
    lemma_frames_concat(ring.records(index), batch);
    assert forall|i: int| 0 <= i < after.segments.len() implies all_fit(
        #[trigger] after.segments[i],
    ) by {
        if i == index - 1 {
            lemma_all_fit_concat(ring.segments[i], batch);
        } else {
            assert(after.segments[i] == ring.segments[i]);
        }
    }
}

/// No torn frames: whatever the order in which a reader visits the
/// segments, the bytes it gathers split into whole frames, and they carry
/// exactly the payloads of the segments visited, in that order.
pub proof fn lemma_scan_splits(ring: Ring, order: Seq<u8>)
    requires
        ring.wf(),
    ensures
        ring.scan(order) == frames(ring.scan_records(order)),
        all_fit(ring.scan_records(order)),
        unframe(ring.scan(order)) == Some(ring.scan_records(order)),
    decreases order.len(),
{
    if order.len() > 0 {
        let first = ring.records(order.first());
        let rest = ring.scan_records(order.drop_first());
        lemma_scan_splits(ring, order.drop_first());
        lemma_frames_concat(first, rest);
        if 1 <= order.first() <= RING_SIZE {
            assert(all_fit(ring.segments[order.first() - 1]));
        }
        lemma_all_fit_concat(first, rest);
    }
    lemma_unframe_frames(ring.scan_records(order));
}

/// The cycles of the writer keep the ring well formed.
pub proof fn lemma_cycle_wf(writer: WriterState, ring: Ring, batch: Seq<Seq<u8>>)
    requires
        ring.wf(),
        all_fit(batch),
        1 <= writer.pointer <= RING_SIZE,
    ensures
        cycle(writer, ring, batch).1.wf(),
        1 <= cycle(writer, ring, batch).0.pointer <= RING_SIZE,
        cycle(writer, ring, batch).0.capacity_per_file == writer.capacity_per_file,
{
    let other: u8 = if writer.pointer == 1 {
        2
    } else {
        1
    };
    lemma_appended(ring, writer.pointer, batch, other);
    let written = ring.appended(writer.pointer, batch);
    let next = next_segment(writer.pointer);
    let cleared = written.emptied(next);
    assert forall|i: int| 0 <= i < cleared.segments.len() implies all_fit(
        #[trigger] cleared.segments[i],
    ) by {
        if i != next - 1 {
            assert(cleared.segments[i] == written.segments[i]);
        }
    }
}

/// Rotation: a cycle that brings the count of the current segment up to its
/// share or beyond moves the writer to the next segment of the ring, which
/// is another one; that segment holds nothing any more, whatever it held
/// before; the count starts again at zero; and the segment that was left
/// holds what it held and the batch.
pub proof fn lemma_rotation(writer: WriterState, ring: Ring, batch: Seq<Seq<u8>>)
    requires
        ring.wf(),
        1 <= writer.pointer <= RING_SIZE,
        writer.filled + batch.len() >= writer.capacity_per_file,
    ensures
        cycle(writer, ring, batch).0.pointer == next_segment(writer.pointer),
        cycle(writer, ring, batch).0.pointer != writer.pointer,
        cycle(writer, ring, batch).0.filled == 0,
        cycle(writer, ring, batch).1.records(next_segment(writer.pointer)) == Seq::<
            Seq<u8>,
        >::empty(),
        cycle(writer, ring, batch).1.bytes(next_segment(writer.pointer)) == Seq::<u8>::empty(),
        cycle(writer, ring, batch).1.records(writer.pointer) == ring.records(writer.pointer)
            + batch,
{
}

/// No rotation before its time: a cycle that leaves the count of the
/// current segment below its share leaves the writer where it is, and no
/// segment loses anything.
pub proof fn lemma_no_rotation(writer: WriterState, ring: Ring, batch: Seq<Seq<u8>>, index: u8)
    requires
        ring.wf(),
        1 <= writer.pointer <= RING_SIZE,
        writer.filled + batch.len() < writer.capacity_per_file,
    ensures
        cycle(writer, ring, batch).0.pointer == writer.pointer,
        cycle(writer, ring, batch).0.filled == writer.filled + batch.len(),
        cycle(writer, ring, batch).1.records(index) == if index == writer.pointer {
            ring.records(index) + batch
        } else {
            ring.records(index)
        },
{
}

/// The ring is a ring: as many moves as there are segments bring the writer
/// back to where it was.
pub proof fn lemma_ring_wraps(pointer: u8)
    requires
        1 <= pointer <= RING_SIZE,
    ensures
        next_segment(next_segment(next_segment(next_segment(next_segment(pointer)))))
            == pointer,
{
}

/// What bounds the ring between two cycles of a writer that never takes
/// more than `batch_limit` records at once: the count of the current
/// segment is below its share, the current segment holds no more records
/// than were counted for it, and no segment holds more than a share less
/// one and one batch.
pub open spec fn bounded(writer: WriterState, ring: Ring, batch_limit: nat) -> bool {
    &&& ring.segments.len() == RING_SIZE
    &&& 1 <= writer.pointer <= RING_SIZE
    &&& writer.capacity_per_file >= 1
    &&& writer.filled < writer.capacity_per_file
    &&& ring.records(writer.pointer).len() <= writer.filled
    &&& forall|i: int|
        0 <= i < RING_SIZE ==> (#[trigger] ring.segments[i]).len() + 1
            <= writer.capacity_per_file + batch_limit
}

/// A writer that starts on an empty ring starts within bounds.
pub proof fn lemma_bounded_fresh(capacity_per_file: nat, batch_limit: nat)
    requires
        capacity_per_file >= 1,
    ensures
        bounded(
            (WriterState { capacity_per_file, filled: 0, pointer: 1 }),
            Ring::fresh(),
            batch_limit,
        ),
{
}

/// A cycle with no more than `batch_limit` records keeps the ring within
/// bounds.
pub proof fn lemma_bounded_cycle(
    writer: WriterState,
    ring: Ring,
    batch: Seq<Seq<u8>>,
    batch_limit: nat,
)
    requires
        bounded(writer, ring, batch_limit),
        batch.len() <= batch_limit,
    ensures
        bounded(cycle(writer, ring, batch).0, cycle(writer, ring, batch).1, batch_limit),
{
    let (after, ring2) = cycle(writer, ring, batch);
    let written = ring.appended(writer.pointer, batch);
    assert forall|i: int| 0 <= i < RING_SIZE implies (#[trigger] ring2.segments[i]).len() + 1
        <= after.capacity_per_file + batch_limit by {
        assert(ring.segments[i].len() + 1 <= writer.capacity_per_file + batch_limit);
        if i == writer.pointer - 1 {
            assert(written.segments[i].len() == ring.segments[i].len() + batch.len());
        } else {
            assert(written.segments[i] == ring.segments[i]);
        }
    }
}

/// Retention: a ring within bounds holds, over all its segments, no more
/// records than as many shares as there are segments, each less one and
/// with one batch added. For a writer that takes one record at a time that
/// is the number of segments times the share of each, and so no more than
/// the capacity that the engine was made with.
pub proof fn lemma_retention(writer: WriterState, ring: Ring, batch_limit: nat)
    requires
        bounded(writer, ring, batch_limit),
    ensures
        ring.total() + RING_SIZE <= RING_SIZE * (writer.capacity_per_file + batch_limit),
        batch_limit <= 1 ==> ring.total() <= RING_SIZE * writer.capacity_per_file,
{
    let c = writer.capacity_per_file + batch_limit;
    assert(ring.segments[0].len() + 1 <= c);
    assert(ring.segments[1].len() + 1 <= c);
    assert(ring.segments[2].len() + 1 <= c);
    assert(ring.segments[3].len() + 1 <= c);
    assert(ring.segments[4].len() + 1 <= c);
}

/// What a reader gathers, where the writer is at `pointer`, holds the
/// records of every segment of the ring.
pub proof fn lemma_scan_length(ring: Ring, pointer: u8)
    requires
        ring.segments.len() == RING_SIZE,
        1 <= pointer <= RING_SIZE,
    ensures
        ring.scan_records(visiting_order(pointer)).len() == ring.total(),
{
    let order = visiting_order(pointer);
    let o1 = order.drop_first();
    let o2 = o1.drop_first();
    let o3 = o2.drop_first();
    let o4 = o3.drop_first();
    let o5 = o4.drop_first();
    assert(o5.len() == 0);
    assert(ring.scan_records(o5).len() == 0);
    assert(ring.scan_records(o4).len() == ring.records(order[4]).len());
    assert(ring.scan_records(o3).len() == ring.records(order[3]).len() + ring.records(
        order[4],
    ).len());
    assert(ring.scan_records(o2).len() == ring.records(order[2]).len() + ring.records(
        order[3],
    ).len() + ring.records(order[4]).len());
    assert(ring.scan_records(o1).len() == ring.records(order[1]).len() + ring.records(
        order[2],
    ).len() + ring.records(order[3]).len() + ring.records(order[4]).len());
}

/// Read back: after the first cycle of a writer on an empty ring, a reader
/// that starts from where the writer then is comes by exactly the batch of
/// that cycle, in its order, whether the writer has moved on or not.
pub proof fn lemma_first_batch_read_back(capacity_per_file: nat, batch: Seq<Seq<u8>>)
    ensures
        ({
            let start = WriterState { capacity_per_file, filled: 0, pointer: 1 };
            let (writer, ring) = cycle(start, Ring::fresh(), batch);
            ring.scan_records(visiting_order(writer.pointer)) == batch
        }),
{
    let start = WriterState { capacity_per_file, filled: 0, pointer: 1 };
    let (writer, ring) = cycle(start, Ring::fresh(), batch);
    let none = Seq::<Seq<u8>>::empty();
    let order = visiting_order(writer.pointer);
    let o1 = order.drop_first();
    let o2 = o1.drop_first();
    let o3 = o2.drop_first();
    let o4 = o3.drop_first();
    let o5 = o4.drop_first();
    assert(ring.records(1) =~= batch);
    assert(ring.records(2) =~= none);
    assert(ring.records(3) =~= none);
    assert(ring.records(4) =~= none);
    assert(ring.records(5) =~= none);
    assert(o5.len() == 0);
    assert(ring.scan_records(o5) =~= none);
    assert(ring.scan_records(o4) =~= ring.records(order[4]));
    assert(ring.scan_records(o3) =~= ring.records(order[3]) + ring.records(order[4]));
    assert(ring.scan_records(o2) =~= ring.records(order[2]) + ring.records(order[3])
        + ring.records(order[4]));
    assert(ring.scan_records(o1) =~= ring.records(order[1]) + ring.records(order[2])
        + ring.records(order[3]) + ring.records(order[4]));
    assert(ring.scan_records(order) =~= ring.records(order[0]) + ring.records(order[1])
        + ring.records(order[2]) + ring.records(order[3]) + ring.records(order[4]));
}

} // verus!
