//! The unit of the log: one payload, and the frame that carries it on disk.
//!
//! A frame is a header of four bytes, the payload's length as a `u32` in the
//! byte order of the machine, followed by the payload itself.

use vstd::endian::{endianness, Endian};
use vstd::prelude::*;

verus! {

/// The four bytes of `n`, least significant first.
pub open spec fn le_bytes(n: u32) -> Seq<u8> {
    seq![
        (n % 256) as u8,
        ((n / 256) % 256) as u8,
        ((n / 65536) % 256) as u8,
        ((n / 16777216) % 256) as u8,
    ]
}

/// The number whose four bytes, least significant first, are `b`.
pub open spec fn le_value(b: Seq<u8>) -> u32
    recommends
        b.len() == 4,
{
    (b[0] + 256 * b[1] + 65536 * b[2] + 16777216 * b[3]) as u32
}

/// The header of a frame whose payload has `n` bytes: `n` in the byte order
/// of the machine.
pub open spec fn header(n: u32) -> Seq<u8> {
    match endianness() {
        Endian::Little => le_bytes(n),
        Endian::Big => le_bytes(n).reverse(),
    }
}

/// The length that the four bytes of a header announce.
pub open spec fn header_value(h: Seq<u8>) -> u32
    recommends
        h.len() == 4,
{
    match endianness() {
        Endian::Little => le_value(h),
        Endian::Big => le_value(h.reverse()),
    }
}

/// The bytes of a number, least significant first, stand for that number.
pub proof fn lemma_le_value(n: u32)
    ensures
        le_bytes(n).len() == 4,
        le_value(le_bytes(n)) == n,
{
}

/// Four bytes are the bytes, least significant first, of the number they
/// stand for.
pub proof fn lemma_le_bytes(b: Seq<u8>)
    requires
        b.len() == 4,
    ensures
        le_bytes(le_value(b)) == b,
{
    let v: int = b[0] + 256 * b[1] + 65536 * b[2] + 16777216 * b[3];
    assert(0 <= v <= u32::MAX);
    assert(v % 256 == b[0]);
    assert((v / 256) % 256 == b[1]);
    assert((v / 65536) % 256 == b[2]);
    assert((v / 16777216) % 256 == b[3]);
    assert(le_bytes(le_value(b)) =~= b);
}

/// A header holds four bytes and announces the length it was made from.
pub proof fn lemma_header_value(n: u32)
    ensures
        header(n).len() == 4,
        header_value(header(n)) == n,
{
    lemma_le_value(n);
    assert(le_bytes(n).reverse().reverse() =~= le_bytes(n));
}

/// Four bytes are the header of the length they announce.
pub proof fn lemma_value_header(h: Seq<u8>)
    requires
        h.len() == 4,
    ensures
        header(header_value(h)) == h,
{
    lemma_le_bytes(h);
    lemma_le_bytes(h.reverse());
    assert(h.reverse().reverse() =~= h);
}

/// Calls `u32::to_ne_bytes`. Taken on trust, as its documentation has it:
/// the result is the four bytes of `n` as the machine keeps them in memory,
/// least significant first on a little-endian machine and most significant
/// first on a big-endian one. Which of the two the machine is, is what
/// `vstd::endian::endianness` stands for.
#[verifier::external_body]
fn u32_to_ne_bytes(n: u32) -> (bytes: [u8; 4])
    ensures
        bytes@ == header(n),
{
    n.to_ne_bytes()
}

/// Calls `u32::from_ne_bytes`. Taken on trust, as its documentation has it:
/// the result is the number whose bytes in the memory of the machine are
/// `bytes`, the first of them the least significant on a little-endian
/// machine and the most significant on a big-endian one.
#[verifier::external_body]
pub(crate) fn u32_from_ne_bytes(bytes: [u8; 4]) -> (n: u32)
    ensures
        n == header_value(bytes@),
{
    u32::from_ne_bytes(bytes)
}

/// The frame that carries `payload`.
pub open spec fn frame(payload: Seq<u8>) -> Seq<u8> {
    header(payload.len() as u32) + payload
}

/// The frames of `payloads`, one after the other.
pub open spec fn frames(payloads: Seq<Seq<u8>>) -> Seq<u8>
    decreases payloads.len(),
{
    if payloads.len() == 0 {
        Seq::empty()
    } else {
        frame(payloads.first()) + frames(payloads.drop_first())
    }
}

/// Whether a payload is short enough for its length to fit the header.
pub open spec fn fits(payload: Seq<u8>) -> bool {
    payload.len() <= u32::MAX
}

/// Whether every payload fits the header.
pub open spec fn all_fit(payloads: Seq<Seq<u8>>) -> bool {
    forall|i: int| 0 <= i < payloads.len() ==> fits(#[trigger] payloads[i])
}

/// The payloads that `bytes` carries, where `bytes` is a run of complete
/// frames; `None` where a header is cut short or announces more bytes than
/// are left.
pub open spec fn unframe(bytes: Seq<u8>) -> Option<Seq<Seq<u8>>>
    decreases bytes.len(),
{
    if bytes.len() == 0 {
        Some(Seq::empty())
    } else if bytes.len() < 4 {
        None
    } else {
        let n = header_value(bytes.subrange(0, 4)) as int;
        if bytes.len() - 4 < n {
            None
        } else {
            match unframe(bytes.skip(4 + n)) {
                Some(rest) => Some(seq![bytes.subrange(4, 4 + n)] + rest),
                None => None,
            }
        }
    }
}

/// The frames of two runs of payloads, joined, are the frames of the joined
/// runs.
pub proof fn lemma_frames_concat(a: Seq<Seq<u8>>, b: Seq<Seq<u8>>)
    ensures
        frames(a + b) == frames(a) + frames(b),
    decreases a.len(),
{
    if a.len() == 0 {
        assert(a + b =~= b);
        assert(frames(a) + frames(b) =~= frames(b));
    } else {
        lemma_frames_concat(a.drop_first(), b);
        assert((a + b).drop_first() =~= a.drop_first() + b);
        assert(frame(a.first()) + (frames(a.drop_first()) + frames(b)) =~= (frame(a.first())
            + frames(a.drop_first())) + frames(b));
    }
}

/// Appending one payload to a run appends its frame to the run's frames.
pub proof fn lemma_frames_push(a: Seq<Seq<u8>>, payload: Seq<u8>)
    ensures
        frames(a.push(payload)) == frames(a) + frame(payload),
{
    let one = seq![payload];
    assert(one.drop_first() =~= Seq::<Seq<u8>>::empty());
    assert(frames(one.drop_first()) =~= Seq::<u8>::empty());
    assert(frames(one) =~= frame(payload));
    assert(a.push(payload) =~= a + one);
    lemma_frames_concat(a, one);
}

/// Round trip: payloads that fit the header come back from their frames,
/// each as it went in and in the same order.
pub proof fn lemma_unframe_frames(payloads: Seq<Seq<u8>>)
    requires
        all_fit(payloads),
    ensures
        unframe(frames(payloads)) == Some(payloads),
    decreases payloads.len(),
{
    if payloads.len() > 0 {
        let first = payloads.first();
        let rest = payloads.drop_first();
        let bytes = frames(payloads);
        assert(fits(first));
        lemma_header_value(first.len() as u32);
        lemma_unframe_frames(rest);
        assert(bytes.subrange(0, 4) =~= header(first.len() as u32));
        let end: int = first.len() as int + 4;
        assert(bytes.subrange(4, end) =~= first);
        assert(bytes.skip(end) =~= frames(rest));
        assert(seq![first] + rest =~= payloads);
    }
}

/// Bytes that split into frames are exactly the frames of the payloads they
/// split into, and each of those payloads fits the header.
pub proof fn lemma_frames_unframe(bytes: Seq<u8>)
    requires
        unframe(bytes) is Some,
    ensures
        all_fit(unframe(bytes).unwrap()),
        frames(unframe(bytes).unwrap()) == bytes,
    decreases bytes.len(),
{
    if bytes.len() == 0 {
        assert(unframe(bytes).unwrap() =~= Seq::<Seq<u8>>::empty());
    } else {
        let head = bytes.subrange(0, 4);
        let n = header_value(head) as int;
        let tail = bytes.skip(4 + n);
        let first = bytes.subrange(4, 4 + n);
        let rest = unframe(tail).unwrap();
        let all = seq![first] + rest;
        assert(unframe(bytes) == Some(all));
        lemma_frames_unframe(tail);
        assert(header(first.len() as u32) == head) by {
            lemma_value_header(head);
        }
        assert(all.first() == first);
        assert(all.drop_first() =~= rest);
        assert(frames(all) == frame(first) + frames(rest));
        assert(frame(first) + tail =~= bytes);
        assert forall|i: int| 0 <= i < all.len() implies fits(#[trigger] all[i]) by {
            if i > 0 {
                assert(all[i] == rest[i - 1]);
            }
        }
    }
}

/// Two runs of payloads with the same frames are the same run: a segment
/// can be read in one way only.
pub proof fn lemma_frames_injective(a: Seq<Seq<u8>>, b: Seq<Seq<u8>>)
    requires
        all_fit(a),
        all_fit(b),
        frames(a) == frames(b),
    ensures
        a == b,
{
    lemma_unframe_frames(a);
    lemma_unframe_frames(b);
}

/// Joining runs of payloads that fit the header gives a run of payloads
/// that fit.
pub proof fn lemma_all_fit_concat(a: Seq<Seq<u8>>, b: Seq<Seq<u8>>)
    requires
        all_fit(a),
        all_fit(b),
    ensures
        all_fit(a + b),
{
    let all = a + b;
    assert forall|i: int| 0 <= i < all.len() implies fits(#[trigger] all[i]) by {
        if i < a.len() {
            assert(all[i] == a[i]);
        } else {
            assert(all[i] == b[i - a.len()]);
        }
    }
}

/// Bytes that split into frames, followed by bytes that split into frames,
/// split into the frames of both: segments can be read one after the other
/// as one.
pub proof fn lemma_unframe_concat(a: Seq<u8>, b: Seq<u8>)
    requires
        unframe(a) is Some,
        unframe(b) is Some,
    ensures
        unframe(a + b) == Some(unframe(a).unwrap() + unframe(b).unwrap()),
{
    let pa = unframe(a).unwrap();
    let pb = unframe(b).unwrap();
    lemma_frames_unframe(a);
    lemma_frames_unframe(b);
    lemma_frames_concat(pa, pb);
    lemma_all_fit_concat(pa, pb);
    lemma_unframe_frames(pa + pb);
}

/// A file that splits into frames still does after the frame of one more
/// payload is appended to it, and the payload comes last.
pub proof fn lemma_unframe_append(bytes: Seq<u8>, payload: Seq<u8>)
    requires
        unframe(bytes) is Some,
        fits(payload),
    ensures
        unframe(bytes + frame(payload)) == Some(unframe(bytes).unwrap().push(payload)),
{
    let before = unframe(bytes).unwrap();
    lemma_frames_unframe(bytes);
    lemma_frames_push(before, payload);
    lemma_all_fit_concat(before, seq![payload]);
    assert(before + seq![payload] =~= before.push(payload));
    lemma_unframe_frames(before.push(payload));
}

/// One record of the log, held as its encoded payload.
#[derive(Debug)]
pub struct LogEntry {
    inner: Vec<u8>,
}

impl View for LogEntry {
    type V = Seq<u8>;

    closed spec fn view(&self) -> Seq<u8> {
        self.inner@
    }
}

/// The payloads of a run of entries, in order.
pub open spec fn payloads(entries: Seq<LogEntry>) -> Seq<Seq<u8>> {
    Seq::new(entries.len(), |i: int| entries[i]@)
}

impl LogEntry {
    /// Every entry holds a payload whose length the header of a frame can
    /// announce.
    #[verifier::type_invariant]
    pub open spec fn inv(self) -> bool {
        fits(self@)
    }

    /// An entry for `payload`, or `None` where the payload is too long for
    /// the header of a frame.
    pub fn new(payload: Vec<u8>) -> (entry: Option<LogEntry>)
        ensures
            match entry {
                Some(e) => fits(payload@) && e@ == payload@,
                None => !fits(payload@),
            },
    {
        if payload.len() > 0xffff_ffff {
            None
        } else {
            Some(LogEntry { inner: payload })
        }
    }

    /// An entry for a payload that is known to fit the header.
    pub fn from_vec(v: Vec<u8>) -> (entry: Self)
        requires
            fits(v@),
        ensures
            entry@ == v@,
    {
        LogEntry { inner: v }
    }

    /// The payload.
    pub fn payload(&self) -> (bytes: &Vec<u8>)
        ensures
            bytes@ == self@,
            fits(self@),
    {
        proof {
            use_type_invariant(self);
        }
        &self.inner
    }

    /// The frame of this entry, as it is appended to a segment.
    pub fn frame(&self) -> (bytes: Vec<u8>)
        ensures
            bytes@ == frame(self@),
            fits(self@),
    {
        proof {
            use_type_invariant(self);
        }
        let size: [u8; 4] = u32_to_ne_bytes(self.inner.len() as u32);
        let mut out: Vec<u8> = Vec::with_capacity(4);
        out.push(size[0]);
        out.push(size[1]);
        out.push(size[2]);
        out.push(size[3]);
        let mut i: usize = 0;
        while i < self.inner.len()
            invariant
                i <= self.inner@.len(),
                out@ == header(self.inner@.len() as u32) + self.inner@.take(i as int),
            decreases self.inner@.len() - i,
        {
            out.push(self.inner[i]);
            i = i + 1;
        }
        assert(self.inner@.take(i as int) =~= self.inner@);
        out
    }

    /// The frame of this entry, which is given up for it.
    pub fn to_vec(self) -> (bytes: Vec<u8>)
        ensures
            bytes@ == frame(self@),
    {
        self.frame()
    }
}

} // verus!
