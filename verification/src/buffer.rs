//! The staging buffer: entries that producers have handed in and that the
//! writer has not yet taken, in the order in which they came.

use crate::entry::{payloads, LogEntry};
use vstd::prelude::*;

verus! {

/// Pending entries, oldest first.
pub struct Buffer {
    inner: Vec<LogEntry>,
}

impl View for Buffer {
    type V = Seq<Seq<u8>>;

    /// The payloads of the pending entries, oldest first.
    closed spec fn view(&self) -> Seq<Seq<u8>> {
        payloads(self.inner@)
    }
}

/// Whether an insertion into a buffer that holds `pending` is the one that
/// takes it from empty to non-empty, and so the one that wakes the writer.
pub open spec fn wakes(pending: Seq<Seq<u8>>) -> bool {
    pending.len() == 0
}

/// How many of the insertions `batches`, made one after the other into a
/// buffer that holds `pending` and is not drained meanwhile, report that the
/// buffer was empty.
pub open spec fn signals(pending: Seq<Seq<u8>>, batches: Seq<Seq<Seq<u8>>>) -> nat
    decreases batches.len(),
{
    if batches.len() == 0 {
        0
    } else {
        let rest = signals(pending + batches.first(), batches.drop_first());
        if wakes(pending) {
            rest + 1
        } else {
            rest
        }
    }
}

/// Insertions into a buffer that already holds something signal nothing.
pub proof fn lemma_no_signal_when_pending(pending: Seq<Seq<u8>>, batches: Seq<Seq<Seq<u8>>>)
    requires
        pending.len() > 0,
    ensures
        signals(pending, batches) == 0,
    decreases batches.len(),
{
    if batches.len() > 0 {
        lemma_no_signal_when_pending(pending + batches.first(), batches.drop_first());
    }
}

/// Coalescing: however many insertions follow one another into an empty
/// buffer without a drain between them, and however many entries each
/// brings, exactly one of them reports that the buffer was empty. This is
/// so whenever the first insertion brings an entry or is the only one: an
/// insertion of nothing leaves the buffer empty, and the next one reports
/// an empty buffer again.
pub proof fn lemma_signals_once(batches: Seq<Seq<Seq<u8>>>)
    requires
        batches.len() > 0,
        batches.first().len() > 0 || batches.len() == 1,
    ensures
        signals(Seq::empty(), batches) == 1,
{
    let pending = Seq::<Seq<u8>>::empty() + batches.first();
    if batches.len() == 1 {
        assert(signals(pending, batches.drop_first()) == 0);
    } else {
        lemma_no_signal_when_pending(pending, batches.drop_first());
    }
}

/// Where an insertion of nothing comes first and another follows, both
/// report an empty buffer: the buffer cannot tell them apart.
pub proof fn lemma_signals_twice(batches: Seq<Seq<Seq<u8>>>)
    requires
        batches.len() > 1,
        batches.first().len() == 0,
    ensures
        signals(Seq::empty(), batches) >= 2,
{
    let none = Seq::<Seq<u8>>::empty();
    assert(none + batches.first() =~= none);
    let rest = batches.drop_first();
    assert(signals(none, rest) == signals(none + rest.first(), rest.drop_first()) + 1);
    assert(signals(none, batches) == signals(none, rest) + 1);
}

impl Buffer {
    /// An empty buffer.
    pub fn new() -> (buffer: Self)
        ensures
            buffer@ == Seq::<Seq<u8>>::empty(),
    {
        let buffer = Buffer { inner: Vec::new() };
        assert(buffer@ =~= Seq::<Seq<u8>>::empty());
        buffer
    }

    /// Puts `entry` behind the pending ones. Returns whether the buffer was
    /// empty before.
    pub fn add(&mut self, entry: LogEntry) -> (notify: bool)
        ensures
            final(self)@ == old(self)@.push(entry@),
            notify == wakes(old(self)@),
    {
        let notify = self.inner.is_empty();
        self.inner.push(entry);
        assert(self@ =~= old(self)@.push(entry@));
        notify
    }

    /// Puts the entries of `entry`, in their order, behind the pending ones.
    /// Returns whether the buffer was empty before.
    pub fn bulk_add(&mut self, entry: Vec<LogEntry>) -> (notify: bool)
        ensures
            final(self)@ == old(self)@ + payloads(entry@),
            notify == wakes(old(self)@),
    {
        let ghost added = payloads(entry@);
        let mut entry = entry;
        let notify = self.inner.is_empty();
        self.inner.append(&mut entry);
        assert(self@ =~= old(self)@ + added);
        notify
    }

    /// Takes everything that is pending, oldest first, and leaves the buffer
    /// empty.
    pub fn drain(&mut self) -> (data: Vec<LogEntry>)
        ensures
            data@.len() == old(self)@.len(),
            payloads(data@) == old(self)@,
            final(self)@ == Seq::<Seq<u8>>::empty(),
    {
        let mut data: Vec<LogEntry> = Vec::new();
        if !self.inner.is_empty() {
            std::mem::swap(&mut self.inner, &mut data);
        }
        assert(self@ =~= Seq::<Seq<u8>>::empty());
        assert(payloads(data@) =~= old(self)@);
        data
    }

    /// Number of pending entries.
    pub fn len(&self) -> (n: usize)
        ensures
            n == self@.len(),
    {
        self.inner.len()
    }
}

} // verus!
