//! The writer's side of the log: what it appends, and when it moves on to
//! the next segment.
//!
//! The writer works in cycles. In each cycle it takes what is pending, has
//! the frames appended to the segment it is at, and, once that segment has
//! taken as many records as a segment is meant to hold, moves to the next
//! one, which is emptied first. The file operations themselves are the
//! caller's; the functions here say what to do and keep the count. What the
//! cycles do to the files, as long as those operations succeed, is laid down
//! in `crate::ring`.

use crate::entry::{all_fit, fits, frame, LogEntry};
use crate::lock::LockState;
use crate::{Wal, RING_SIZE};
use vstd::prelude::*;

verus! {

/// The segment that follows `pointer` in the ring.
pub open spec fn next_segment(pointer: u8) -> u8 {
    if pointer >= RING_SIZE {
        1
    } else {
        (pointer + 1) as u8
    }
}

/// What the writer keeps between cycles.
pub struct WriterState {
    /// Number of records after which a segment is left for the next.
    pub capacity_per_file: nat,
    /// Number of records handed out for the current segment since the
    /// writer came to it.
    pub filled: nat,
    /// Index of the current segment.
    pub pointer: u8,
}

impl WriterState {
    /// The state after `n` more records were handed out for the current
    /// segment.
    pub open spec fn flushed(self, n: nat) -> WriterState {
        WriterState { filled: self.filled + n, ..self }
    }

    /// Whether the current segment has taken its share, so that the writer
    /// is to move on.
    pub open spec fn due(self) -> bool {
        self.filled >= self.capacity_per_file
    }

    /// The state after the move to the next segment.
    pub open spec fn rotated(self) -> WriterState {
        WriterState { filled: 0, pointer: next_segment(self.pointer), ..self }
    }
}

/// The frames of `payloads`, each on its own.
pub open spec fn framed(payloads: Seq<Seq<u8>>) -> Seq<Seq<u8>> {
    Seq::new(payloads.len(), |i: int| frame(payloads[i]))
}

/// What a run of byte vectors holds.
pub open spec fn contents(chunks: Seq<Vec<u8>>) -> Seq<Seq<u8>> {
    Seq::new(chunks.len(), |i: int| chunks[i]@)
}

/// The writer.
pub struct WalWriter {
    capacity_per_file: usize,
    filled: usize,
    pointer: u8,
}

impl View for WalWriter {
    type V = WriterState;

    closed spec fn view(&self) -> WriterState {
        WriterState {
            capacity_per_file: self.capacity_per_file as nat,
            filled: self.filled as nat,
            pointer: self.pointer,
        }
    }
}

impl WalWriter {
    /// The writer is always at a segment of the ring.
    #[verifier::type_invariant]
    pub open spec fn inv(self) -> bool {
        1 <= self@.pointer <= RING_SIZE
    }

    /// A writer for `wal`, at the first segment, with nothing handed out
    /// yet. Each segment gets an equal share of the records that the log
    /// retains.
    pub fn new(wal: &Wal) -> (writer: Self)
        ensures
            writer@ == (WriterState {
                capacity_per_file: wal.spec_capacity() / (RING_SIZE as nat),
                filled: 0,
                pointer: 1,
            }),
            writer@.capacity_per_file >= 20,
    {
        let share: usize = wal.capacity() / (RING_SIZE as usize);
        WalWriter { capacity_per_file: share, filled: 0, pointer: 1 }
    }

    /// Index of the segment that the writer is at.
    pub fn pointer(&self) -> (pointer: u8)
        ensures
            pointer == self@.pointer,
            1 <= pointer <= RING_SIZE,
    {
        proof {
            use_type_invariant(self);
        }
        self.pointer
    }

    /// Number of records counted for the current segment.
    pub fn filled(&self) -> (filled: usize)
        ensures
            filled == self@.filled,
    {
        self.filled
    }

    /// Number of records after which a segment is left for the next.
    pub fn capacity_per_file(&self) -> (share: usize)
        ensures
            share == self@.capacity_per_file,
    {
        self.capacity_per_file
    }

    /// Whether the writer may go on to wait for records: it may not while a
    /// reader has asked it to stop, and is then to ask again after a pause.
    pub fn ready(&self, wal: &Wal) -> (yes: bool)
        ensures
            yes == (wal.state() == LockState::Running),
    {
        wal.lock.can_write()
    }

    /// One wake-up of the writer: takes everything that is pending and
    /// returns the frames to append to the current segment, one for each
    /// record and in the order in which the records came. Nothing is left
    /// pending, and the records count towards the share of the current
    /// segment. Where nothing was pending, nothing is returned.
    pub fn run(&mut self, wal: &mut Wal) -> (chunks: Vec<Vec<u8>>)
        requires
            old(self)@.filled + old(wal).pending().len() <= usize::MAX,
        ensures
            chunks@.len() == old(wal).pending().len(),
            contents(chunks@) == framed(old(wal).pending()),
            all_fit(old(wal).pending()),
            final(self)@ == old(self)@.flushed(old(wal).pending().len()),
            final(wal).pending() == Seq::<Seq<u8>>::empty(),
            final(wal).state() == old(wal).state(),
            final(wal).same_settings(old(wal)),
    {
        proof {
            use_type_invariant(&*self);
        }
        let data: Vec<LogEntry> = wal.buffer.drain();
        let ghost pending = old(wal).pending();
        let n: usize = data.len();
        let mut chunks: Vec<Vec<u8>> = Vec::with_capacity(n);
        let mut i: usize = 0;
        while i < n
            invariant
                i <= n,
                n == data@.len(),
                pending.len() == n,
                forall|j: int| 0 <= j < n ==> #[trigger] pending[j] == data@[j]@,
                chunks@.len() == i,
                forall|j: int| 0 <= j < i ==> (#[trigger] chunks@[j])@ == frame(pending[j]),
                forall|j: int| 0 <= j < i ==> fits(#[trigger] pending[j]),
            decreases n - i,
        {
            let chunk: Vec<u8> = data[i].frame();
            chunks.push(chunk);
            i = i + 1;
        }
        self.filled = self.filled + n;
        assert(contents(chunks@) =~= framed(pending));
        chunks
    }

    /// The segment to move to, where the current one has taken its share;
    /// nothing where it has room left. The caller empties that segment,
    /// records its index in the pointer file and, if all of that went well,
    /// calls `rotate`.
    pub fn next_file(&self) -> (next: Option<u8>)
        ensures
            next == if self@.due() {
                Some(next_segment(self@.pointer))
            } else {
                None
            },
    {
        proof {
            use_type_invariant(self);
        }
        if self.filled >= self.capacity_per_file {
            let mut next_pointer: u8 = self.pointer + 1;
            if next_pointer > RING_SIZE {
                next_pointer = 1;
            }
            Some(next_pointer)
        } else {
            None
        }
    }

    /// Moves the writer to the next segment, with nothing counted for it
    /// yet.
    pub fn rotate(&mut self)
        ensures
            final(self)@ == old(self)@.rotated(),
    {
        proof {
            use_type_invariant(&*self);
        }
        let next: u8 = if self.pointer >= RING_SIZE {
            1
        } else {
            self.pointer + 1
        };
        self.filled = 0;
        self.pointer = next;
    }

    /// The end of a cycle: where a reader asked for a stop while the writer
    /// was at work, the writer acknowledges it.
    pub fn finish(&self, wal: &mut Wal)
        ensures
            final(wal).state() == match old(wal).state() {
                LockState::Running => LockState::Running,
                _ => LockState::Stopped,
            },
            final(wal).pending() == old(wal).pending(),
            final(wal).same_settings(old(wal)),
    {
        if !wal.lock.can_write() {
            wal.lock.stop();
        }
    }
}

} // verus!
