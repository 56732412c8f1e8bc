//! An embeddable write-ahead log: records are framed, staged in memory and
//! flushed in order to a bounded ring of segment files.
//!
//! This crate holds the rules of the log and nothing that touches a disk or
//! a thread: how a record is framed, what the staging buffer hands to the
//! writer, when the writer moves to the next segment, how a reader pauses
//! the writer and what it makes of the bytes it finds. Whoever embeds it
//! serialises the records, performs the file operations that the writer asks
//! for, and shares the engine among threads behind a lock of its choice.
//!
//! Capacity is counted in records, not in bytes. The ring has `RING_SIZE`
//! segments, and each of them takes an equal share of the capacity before
//! the writer leaves it for the next.

use vstd::prelude::*;

pub mod buffer;
pub mod entry;
pub mod lock;
pub mod pointer;
pub mod reader;
pub mod ring;
pub mod writer;

use crate::buffer::{wakes, Buffer};
use crate::entry::{fits, payloads, LogEntry};
use crate::lock::{after_request, Lock, LockState};

verus! {

/// Number of segment files in the ring.
pub const RING_SIZE: u8 = 5;

/// Smallest capacity, in records, that an engine accepts.
pub const MIN_CAPACITY: usize = 100;

/// What can go wrong in the log.
#[derive(Debug)]
pub enum WalError {
    /// The capacity asked for is below the minimum.
    Capacity(String),
    /// A segment or the pointer file could not be opened, read or written.
    File(String),
    /// Bytes that do not make up well-formed records.
    Serialization(String),
}

/// The items of `items` that are there, in their order.
pub open spec fn present<T>(items: Seq<Option<T>>) -> Seq<T>
    decreases items.len(),
{
    if items.len() == 0 {
        Seq::empty()
    } else {
        match items.last() {
            Some(item) => present(items.drop_last()).push(item),
            None => present(items.drop_last()),
        }
    }
}

/// The newest `capacity` of `records`, or all of them where there are no
/// more than that.
pub open spec fn keep_latest<T>(records: Seq<T>, capacity: nat) -> Seq<T> {
    if records.len() > capacity {
        records.skip(records.len() - capacity)
    } else {
        records
    }
}

/// What the log takes of one attempt to encode a record: the payload, where
/// the encoding succeeded and the payload fits a frame.
pub open spec fn taken(encoded: Option<Vec<u8>>) -> Option<Seq<u8>> {
    match encoded {
        Some(payload) => if fits(payload@) {
            Some(payload@)
        } else {
            None
        },
        None => None,
    }
}

/// The payloads that the log takes of a batch of attempts, in their order.
pub open spec fn accepted(encoded: Seq<Option<Vec<u8>>>) -> Seq<Seq<u8>> {
    present(Seq::new(encoded.len(), |i: int| taken(encoded[i])))
}

/// How often the writer is woken by the batches `batches`, handed to an
/// engine one after the other while `pending` waits and the writer does not
/// drain meanwhile. Each batch is given by the payloads that the log takes
/// of it; a batch of which it takes nothing wakes nobody.
pub open spec fn notifications(pending: Seq<Seq<u8>>, batches: Seq<Seq<Seq<u8>>>) -> nat
    decreases batches.len(),
{
    if batches.len() == 0 {
        0
    } else {
        let rest = notifications(pending + batches.first(), batches.drop_first());
        if batches.first().len() > 0 && wakes(pending) {
            rest + 1
        } else {
            rest
        }
    }
}

/// While something is pending, no batch wakes the writer.
pub proof fn lemma_quiet_while_pending(pending: Seq<Seq<u8>>, batches: Seq<Seq<Seq<u8>>>)
    requires
        pending.len() > 0,
    ensures
        notifications(pending, batches) == 0,
    decreases batches.len(),
{
    if batches.len() > 0 {
        lemma_quiet_while_pending(pending + batches.first(), batches.drop_first());
    }
}

/// Coalescing: of any run of writes and batch writes into an engine with
/// nothing pending, with no drain between them, exactly one wakes the
/// writer if any record was taken at all, and none otherwise.
pub proof fn lemma_notifies_once(batches: Seq<Seq<Seq<u8>>>)
    ensures
        notifications(Seq::empty(), batches) == if exists|i: int|
            0 <= i < batches.len() && (#[trigger] batches[i]).len() > 0 {
            1nat
        } else {
            0nat
        },
    decreases batches.len(),
{
    let none = Seq::<Seq<u8>>::empty();
    if batches.len() > 0 {
        let first = batches.first();
        let rest = batches.drop_first();
        if first.len() > 0 {
            assert(batches[0].len() > 0);
            lemma_quiet_while_pending(none + first, rest);
        } else {
            assert(none + first =~= none);
            lemma_notifies_once(rest);
            if exists|i: int| 0 <= i < rest.len() && (#[trigger] rest[i]).len() > 0 {
                let i = choose|i: int| 0 <= i < rest.len() && (#[trigger] rest[i]).len() > 0;
                assert(batches[i + 1].len() > 0);
            }
            if exists|i: int| 0 <= i < batches.len() && (#[trigger] batches[i]).len() > 0 {
                let i = choose|i: int|
                    0 <= i < batches.len() && (#[trigger] batches[i]).len() > 0;
                assert(rest[i - 1].len() > 0);
            }
        }
    }
}

/// Taking one more attempt into account adds its payload, if the log takes
/// it, behind those of the attempts before it.
pub proof fn lemma_accepted_step(encoded: Seq<Option<Vec<u8>>>, k: int)
    requires
        0 <= k < encoded.len(),
    ensures
        accepted(encoded.take(k + 1)) == match taken(encoded[k]) {
            Some(payload) => accepted(encoded.take(k)).push(payload),
            None => accepted(encoded.take(k)),
        },
{
    let longer = encoded.take(k + 1);
    let shorter = encoded.take(k);
    let a = Seq::new(longer.len(), |i: int| taken(longer[i]));
    let b = Seq::new(shorter.len(), |i: int| taken(shorter[i]));
    assert(a.drop_last() =~= b);
    assert(a.last() == taken(encoded[k]));
}

/// The engine as its users see it: the staging buffer, the handshake with
/// the writer, and the number of records that a read returns at most.
pub struct Wal {
    settings: Settings,
    pub(crate) buffer: Buffer,
    pub(crate) lock: Lock,
}

/// What an engine is made with and keeps for good.
struct Settings {
    location: String,
    capacity: usize,
}

impl Settings {
    /// No engine retains fewer records than the minimum.
    #[verifier::type_invariant]
    closed spec fn inv(self) -> bool {
        self.capacity >= MIN_CAPACITY
    }
}

impl Wal {
    /// The directory that holds the ring.
    pub closed spec fn spec_location(&self) -> Seq<char> {
        self.settings.location@
    }

    /// The number of records that the log retains.
    pub closed spec fn spec_capacity(&self) -> nat {
        self.settings.capacity as nat
    }

    /// The payloads that wait for the writer, oldest first.
    pub closed spec fn pending(&self) -> Seq<Seq<u8>> {
        self.buffer@
    }

    /// The state of the handshake with the writer.
    pub closed spec fn state(&self) -> LockState {
        self.lock@
    }

    /// Whether `other` is this engine but for what is pending and for the
    /// state of the handshake.
    pub open spec fn same_settings(&self, other: &Wal) -> bool {
        &&& self.spec_location() == other.spec_location()
        &&& self.spec_capacity() == other.spec_capacity()
    }

    /// An engine for the ring under `location` that retains `capacity`
    /// records. Nothing is pending and the writer may write.
    ///
    /// Fails where `capacity` is below the minimum.
    pub fn new(location: &str, capacity: usize) -> (result: Result<Self, WalError>)
        ensures
            match result {
                Ok(wal) => {
                    &&& capacity >= MIN_CAPACITY
                    &&& wal.spec_location() == location@
                    &&& wal.spec_capacity() == capacity
                    &&& wal.pending() == Seq::<Seq<u8>>::empty()
                    &&& wal.state() == LockState::Running
                },
                Err(e) => capacity < MIN_CAPACITY && (e matches WalError::Capacity(msg) && msg@
                    == "Capacity should be at least 100"@),
            },
    {
        if capacity < MIN_CAPACITY {
            return Err(WalError::Capacity("Capacity should be at least 100".to_owned()));
        }
        let buffer = Buffer::new();
        let lock = Lock::new();
        let settings = Settings { location: location.to_owned(), capacity };
        Ok(Wal { settings, buffer, lock })
    }

    /// The directory that holds the ring.
    pub fn location(&self) -> (location: &String)
        ensures
            location@ == self.spec_location(),
    {
        &self.settings.location
    }

    /// The number of records that the log retains.
    pub fn capacity(&self) -> (capacity: usize)
        ensures
            capacity == self.spec_capacity(),
            capacity >= MIN_CAPACITY,
    {
        proof {
            use_type_invariant(&self.settings);
        }
        self.settings.capacity
    }

    /// Number of records that wait for the writer.
    pub fn pending_len(&self) -> (n: usize)
        ensures
            n == self.pending().len(),
    {
        self.buffer.len()
    }

    /// Hands one record to the log, as the encoder returned it. A record
    /// that could not be encoded, or whose payload is too long for a frame,
    /// is dropped. Returns whether the writer is to be woken: that is when
    /// the record was taken and nothing was pending before.
    pub fn write(&mut self, entry: Option<Vec<u8>>) -> (notify: bool)
        ensures
            final(self).pending() == match taken(entry) {
                Some(payload) => old(self).pending().push(payload),
                None => old(self).pending(),
            },
            notify == (taken(entry) is Some && wakes(old(self).pending())),
            final(self).state() == old(self).state(),
            final(self).same_settings(old(self)),
    {
        let entry = match entry {
            Some(payload) => LogEntry::new(payload),
            None => None,
        };
        match entry {
            Some(e) => self.buffer.add(e),
            None => false,
        }
    }

    /// Hands a batch of records to the log, each as the encoder returned it.
    /// Those that could not be encoded, or are too long for a frame, are
    /// dropped; the others go behind what is pending, in their order.
    /// Returns whether the writer is to be woken: that is when at least one
    /// record was taken and nothing was pending before, whatever the size of
    /// the batch.
    pub fn batch_write(&mut self, entries: Vec<Option<Vec<u8>>>) -> (notify: bool)
        ensures
            final(self).pending() == old(self).pending() + accepted(entries@),
            notify == (accepted(entries@).len() > 0 && wakes(old(self).pending())),
            final(self).state() == old(self).state(),
            final(self).same_settings(old(self)),
    {
        let ghost all = entries@;
        let mut data: Vec<LogEntry> = Vec::with_capacity(entries.len());
        assert(all.take(0) =~= Seq::<Option<Vec<u8>>>::empty());
        for entry in iter: entries
            invariant
                iter.seq() == all,
                payloads(data@) == accepted(all.take(iter.index() as int)),
        {
            let ghost k = iter.index() as int;
            proof {
                lemma_accepted_step(all, k);
            }
            match entry {
                Some(payload) => match LogEntry::new(payload) {
                    Some(e) => {
                        data.push(e);
                    },
                    None => {},
                },
                None => {},
            }
            assert(payloads(data@) =~= accepted(all.take(k + 1)));
        }
        assert(all.take(all.len() as int) =~= all);
        if data.is_empty() {
            assert(self.pending() + accepted(all) =~= self.pending());
            return false;
        }
        self.buffer.bulk_add(data)
    }

    /// Opens a read: asks the writer to stop. The caller then waits until
    /// `can_read` says that the writer has stopped.
    pub fn request_read(&mut self)
        ensures
            final(self).state() == after_request(old(self).state()),
            final(self).pending() == old(self).pending(),
            final(self).same_settings(old(self)),
    {
        self.lock.request_to_stop();
    }

    /// Whether the writer has stopped, so that the segments can be read as
    /// they stand.
    pub fn can_read(&self) -> (yes: bool)
        ensures
            yes == (self.state() == LockState::Stopped),
    {
        if self.lock.can_write() {
            false
        } else {
            self.lock.has_stopped()
        }
    }

    /// Closes a read. `decoded` holds, for each entry found in the segments
    /// and in the order in which it was found, the record that it decoded
    /// to, or nothing where it could not be decoded. Returns the records
    /// that were decoded, in that order, cut down to the newest ones where
    /// there are more than the log retains, and lets the writer write again.
    pub fn read<T>(&mut self, decoded: Vec<Option<T>>) -> (data: Vec<T>)
        ensures
            data@ == keep_latest(present(decoded@), old(self).spec_capacity()),
            final(self).state() == LockState::Running,
            final(self).pending() == old(self).pending(),
            final(self).same_settings(old(self)),
    {
        let ghost all = decoded@;
        let mut data: Vec<T> = Vec::with_capacity(decoded.len());
        assert(all.take(0) =~= Seq::<Option<T>>::empty());
        for item in iter: decoded
            invariant
                iter.seq() == all,
                data@ == present(all.take(iter.index() as int)),
        {
            let ghost k = iter.index() as int;
            assert(all.take(k + 1).drop_last() =~= all.take(k));
            match item {
                Some(record) => {
                    data.push(record);
                },
                None => {},
            }
        }
        assert(all.take(all.len() as int) =~= all);
        let capacity: usize = self.capacity();
        if data.len() > capacity {
            let cutoff: usize = data.len() - capacity;
            data = data.split_off(cutoff);
        }
        self.lock.start();
        data
    }
}

} // verus!
