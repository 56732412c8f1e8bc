//! Reading the ring back: where to start, in which order to visit the
//! segments, and how to split what they hold into entries.
//!
//! A reader starts at the segment that the writer is at, goes down from
//! there to the first segment, and then on from the last one, until it has
//! been to as many segments as the ring has. What it finds it takes in that
//! order: within a segment the records stand oldest first, but where more
//! than one segment holds records, those of a newer segment come before
//! those of an older one.

use crate::entry::{payloads, u32_from_ne_bytes, unframe, LogEntry};
use crate::pointer::{pointer_of, read_pointer};
use crate::{WalError, RING_SIZE};
use vstd::prelude::*;
use vstd::slice::{slice_subrange, slice_to_vec};

verus! {

/// The segment that a reader visits in place `i`, counted from 0, where the
/// writer is at `pointer`: first the writer's own, then down to the first,
/// then on from the last.
pub open spec fn visit(pointer: u8, i: int) -> u8 {
    if i < pointer {
        (pointer - i) as u8
    } else {
        (RING_SIZE - (i - pointer)) as u8
    }
}

/// The segments in the order in which a reader visits them where the writer
/// is at `pointer`.
pub open spec fn visiting_order(pointer: u8) -> Seq<u8> {
    Seq::new(RING_SIZE as nat, |i: int| visit(pointer, i))
}

/// Where the pointer is that of a segment of the ring, the reader visits
/// each segment of the ring, and each of them once.
pub proof fn lemma_visits_each_once(pointer: u8, segment: u8)
    requires
        1 <= pointer <= RING_SIZE,
        1 <= segment <= RING_SIZE,
    ensures
        exists|i: int|
            0 <= i < RING_SIZE && #[trigger] visiting_order(pointer)[i] == segment && (forall|
                j: int,
            |
                0 <= j < RING_SIZE && #[trigger] visiting_order(pointer)[j] == segment ==> j == i),
{
    let i: int = if segment <= pointer {
        pointer - segment
    } else {
        pointer + RING_SIZE - segment
    };
    assert(visiting_order(pointer)[i] == segment);
}

/// Reads the segments of the ring under one directory.
pub struct WalReader {
    location: String,
}

impl WalReader {
    /// The directory that this reader was made for.
    pub closed spec fn spec_location(&self) -> Seq<char> {
        self.location@
    }

    /// A reader for the ring under `location`.
    pub fn new(location: String) -> (reader: Self)
        ensures
            reader.spec_location() == location@,
    {
        WalReader { location }
    }

    /// The directory that holds the ring.
    pub fn location(&self) -> (location: &String)
        ensures
            location@ == self.spec_location(),
    {
        &self.location
    }

    /// Splits `buffer`, the bytes of the segments joined in visiting order,
    /// into the entries it holds, in the order in which their frames stand.
    ///
    /// Fails, and yields no entry at all, where the bytes are not a run of
    /// complete frames: a header cut short, or a length that reaches past
    /// the end.
    pub fn read(&self, buffer: &[u8]) -> (result: Result<Vec<LogEntry>, WalError>)
        ensures
            match result {
                Ok(entries) => unframe(buffer@) == Some(payloads(entries@)),
                Err(e) => unframe(buffer@) is None && (e matches WalError::Serialization(msg)
                    && msg@ == "Failed to split log file into entries"@),
            },
    {
        let len: usize = buffer.len();
        let mut data: Vec<LogEntry> = Vec::new();
        let mut offset: usize = 0;
        assert(buffer@.skip(0) =~= buffer@);
        assert(payloads(data@) =~= Seq::<Seq<u8>>::empty());
        while offset < len
            invariant
                len == buffer@.len(),
                offset <= len,
                unframe(buffer@) == match unframe(buffer@.skip(offset as int)) {
                    Some(rest) => Some(payloads(data@) + rest),
                    None => None,
                },
            decreases len - offset,
        {
            let ghost tail = buffer@.skip(offset as int);
            if len - offset < 4 {
                return Err(
                    WalError::Serialization("Failed to split log file into entries".to_owned()),
                );
            }
            let head: [u8; 4] = [
                buffer[offset],
                buffer[offset + 1],
                buffer[offset + 2],
                buffer[offset + 3],
            ];
            assert(head@ =~= tail.subrange(0, 4));
            let size: usize = u32_from_ne_bytes(head) as usize;
            if len - offset - 4 < size {
                return Err(
                    WalError::Serialization("Failed to split log file into entries".to_owned()),
                );
            }
            let start: usize = offset + 4;
            let end: usize = start + size;
            let d: Vec<u8> = slice_to_vec(slice_subrange(buffer, start, end));
            let ghost before = payloads(data@);
            data.push(LogEntry::from_vec(d));
            proof {
                let rest_bytes = tail.skip(4 + size);
                assert(rest_bytes =~= buffer@.skip(end as int));
                assert(tail.subrange(4, 4 + size) =~= d@);
                assert(payloads(data@) =~= before.push(d@));
                match unframe(rest_bytes) {
                    Some(rest) => {
                        assert(before.push(d@) + rest =~= before + (seq![d@] + rest));
                    },
                    None => {},
                }
            }
            offset = end;
        }
        assert(buffer@.skip(offset as int) =~= Seq::<u8>::empty());
        Ok(data)
    }

    /// The index of the segment that the writer is at, from the text of the
    /// pointer file.
    ///
    /// Fails where the text is no index: see `pointer_of`.
    pub fn current_pointer(meta: &[u8]) -> (result: Result<u8, WalError>)
        ensures
            match result {
                Ok(pointer) => pointer_of(meta@) == Some(pointer),
                Err(e) => pointer_of(meta@) is None && (e matches WalError::File(msg) && msg@
                    == "Failed to read pointer file"@),
            },
    {
        match read_pointer(meta) {
            Some(pointer) => Ok(pointer),
            None => Err(WalError::File("Failed to read pointer file".to_owned())),
        }
    }

    /// The indices of the segments in the order in which they are to be
    /// read where the writer is at `pointer`: the writer's own first, then
    /// down to the first segment, then on from the last.
    pub fn read_order(pointer: u8) -> (order: Vec<u8>)
        requires
            pointer >= 1,
        ensures
            order@ == visiting_order(pointer),
    {
        let mut d: Vec<u8> = Vec::with_capacity(RING_SIZE as usize);
        let mut next: u8 = pointer;
        while d.len() < RING_SIZE as usize
            invariant
                pointer >= 1,
                d@.len() <= RING_SIZE,
                next == visit(pointer, d@.len() as int),
                next >= 1,
                forall|i: int| 0 <= i < d@.len() ==> d@[i] == visit(pointer, i),
            decreases RING_SIZE - d@.len(),
        {
            d.push(next);
            next = next - 1;
            if next < 1 {
                next = RING_SIZE;
            }
        }
        assert(d@ =~= visiting_order(pointer));
        d
    }
}

} // verus!
