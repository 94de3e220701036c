//! A growable byte buffer with a read cursor.
//!
//! Bytes arrive from the socket in chunks of any size and are appended at the
//! tail. Spans are taken from the front once enough bytes have arrived. The
//! view of a buffer is the sequence of bytes that were appended and not yet
//! taken: how the bytes were split into chunks does not show in it.

use vstd::prelude::*;
use vstd::slice::{slice_subrange, slice_to_vec};

verus! {

/// `needle` lies in `haystack` at position `i`.
pub open spec fn occurs_at(haystack: Seq<u8>, needle: Seq<u8>, i: int) -> bool {
    &&& 0 <= i
    &&& i + needle.len() <= haystack.len()
    &&& haystack.subrange(i, i + needle.len()) == needle
}

/// `needle` lies at no position of `haystack` below `i`.
pub open spec fn no_occurrence_before(haystack: Seq<u8>, needle: Seq<u8>, i: int) -> bool {
    forall|j: int| 0 <= j < i ==> !occurs_at(haystack, needle, j)
}

/// Bytes received and not yet consumed, in arrival order.
pub struct ByteBuffer {
    data: Vec<u8>,
    head: usize,
}

impl View for ByteBuffer {
    type V = Seq<u8>;

    closed spec fn view(&self) -> Seq<u8> {
        self.data@.subrange(self.head as int, self.data@.len() as int)
    }
}

impl ByteBuffer {
    /// The read cursor lies within the stored bytes.
    pub closed spec fn wf(&self) -> bool {
        self.head <= self.data@.len()
    }

    /// Number of consumed bytes that the buffer still holds in memory.
    pub closed spec fn reclaimable(&self) -> nat {
        self.head as nat
    }

    /// An empty buffer.
    pub fn new() -> (buffer: ByteBuffer)
        ensures
            buffer.wf(),
            buffer@ == Seq::<u8>::empty(),
            buffer.reclaimable() == 0,
    {
        ByteBuffer { data: Vec::new(), head: 0 }
    }

    /// Number of unconsumed bytes.
    pub fn len(&self) -> (n: usize)
        requires
            self.wf(),
        ensures
            n == self@.len(),
    {
        self.data.len() - self.head
    }

    /// Whether no unconsumed byte is left.
    pub fn is_empty(&self) -> (empty: bool)
        requires
            self.wf(),
        ensures
            empty == (self@.len() == 0),
    {
        self.data.len() == self.head
    }

    /// Appends `chunk` at the tail.
    pub fn append(&mut self, chunk: &[u8])
        requires
            old(self).wf(),
        ensures
            final(self).wf(),
            final(self)@ == old(self)@ + chunk@,
            final(self).reclaimable() == old(self).reclaimable(),
    {
        self.data.extend_from_slice(chunk);
    }

    /// Takes the first `n` unconsumed bytes, if that many have arrived.
    ///
    /// With fewer than `n` bytes at hand the buffer is left as it was.
    pub fn try_take_exact(&mut self, n: usize) -> (taken: Option<Vec<u8>>)
        requires
            old(self).wf(),
        ensures
            final(self).wf(),
            taken is Some <==> n <= old(self)@.len(),
            taken matches Some(bytes) ==> {
                &&& bytes@ == old(self)@.subrange(0, n as int)
                &&& final(self)@ == old(self)@.subrange(n as int, old(self)@.len() as int)
                &&& final(self).reclaimable() == old(self).reclaimable() + n
            },
            taken is None ==> *final(self) == *old(self),
    {
        if n > self.data.len() - self.head {
            return None;
        }
        let bytes = slice_to_vec(slice_subrange(self.data.as_slice(), self.head, self.head + n));
        self.head = self.head + n;
        assert(bytes@ =~= old(self)@.subrange(0, n as int));
        assert(self@ =~= old(self)@.subrange(n as int, old(self)@.len() as int));
        Some(bytes)
    }

    /// Takes the unconsumed bytes that precede the first occurrence of
    /// `delimiter`, and skips the delimiter itself.
    ///
    /// While the delimiter has not arrived in full the buffer is left as it was.
    pub fn try_take_until(&mut self, delimiter: &[u8]) -> (taken: Option<Vec<u8>>)
        requires
            old(self).wf(),
        ensures
            final(self).wf(),
            taken is Some <==> exists|i: int| occurs_at(old(self)@, delimiter@, i),
            taken matches Some(bytes) ==> {
                &&& occurs_at(old(self)@, delimiter@, bytes@.len() as int)
                &&& no_occurrence_before(old(self)@, delimiter@, bytes@.len() as int)
                &&& bytes@ == old(self)@.subrange(0, bytes@.len() as int)
                &&& final(self)@ == old(self)@.subrange(
                    (bytes@.len() + delimiter@.len()) as int,
                    old(self)@.len() as int,
                )
                &&& final(self).reclaimable() == old(self).reclaimable() + bytes@.len()
                    + delimiter@.len()
            },
            taken is None ==> *final(self) == *old(self),
    {
        let available = self.data.len() - self.head;
        let width = delimiter.len();
        if width > available {
            return None;
        }
        let last = available - width;
        let mut at: usize = 0;
        loop
            invariant
                self.wf(),
                *self == *old(self),
                available == self.data.len() - self.head,
                width == delimiter@.len(),
                last == available - width,
                at <= last,
                no_occurrence_before(self@, delimiter@, at as int),
            decreases last - at,
        {
            if self.matches_at(at, delimiter) {
                let bytes = slice_to_vec(
                    slice_subrange(self.data.as_slice(), self.head, self.head + at),
                );
                self.head = self.head + at + width;
                assert(bytes@ =~= old(self)@.subrange(0, at as int));
                assert(self@ =~= old(self)@.subrange(at + width, old(self)@.len() as int));
                return Some(bytes);
            }
            if at == last {
                return None;
            }
            at = at + 1;
        }
    }

    /// Whether `delimiter` lies at offset `at` of the unconsumed bytes.
    fn matches_at(&self, at: usize, delimiter: &[u8]) -> (found: bool)
        requires
            self.wf(),
            at + delimiter@.len() <= self@.len(),
        ensures
            found == occurs_at(self@, delimiter@, at as int),
    {
        assert(self.head + at + delimiter@.len() <= self.data.len());
        let start = self.head + at;
        let mut k: usize = 0;
        while k < delimiter.len()
            invariant
                self.wf(),
                start == self.head + at,
                start + delimiter@.len() <= self.data.len(),
                at + delimiter@.len() <= self@.len(),
                k <= delimiter@.len(),
                self@.subrange(at as int, at + k) == delimiter@.subrange(0, k as int),
            decreases delimiter@.len() - k,
        {
            if self.data[start + k] != delimiter[k] {
                assert(self@.subrange(at as int, at + delimiter@.len())[k as int]
                    != delimiter@[k as int]);
                return false;
            }
            k = k + 1;
            assert(self@.subrange(at as int, at + k) =~= delimiter@.subrange(0, k as int)) by {
                assert(self@.subrange(at as int, at + k - 1) == delimiter@.subrange(0, k - 1));
                assert forall|j: int| 0 <= j < k implies self@.subrange(at as int, at + k)[j]
                    == delimiter@.subrange(0, k as int)[j] by {
                    if j < k - 1 {
                        assert(self@.subrange(at as int, at + k - 1)[j] == delimiter@.subrange(
                            0,
                            k - 1,
                        )[j]);
                    }
                }
            }
        }
        assert(delimiter@.subrange(0, k as int) =~= delimiter@);
        true
    }

    /// Drops the consumed bytes from memory. The unconsumed bytes stay as
    /// they are.
    pub fn compact(&mut self)
        requires
            old(self).wf(),
        ensures
            final(self).wf(),
            final(self)@ == old(self)@,
            final(self).reclaimable() == 0,
    {
        let rest = self.data.split_off(self.head);
        self.data = rest;
        self.head = 0;
        assert(self@ =~= old(self)@);
    }
}

/// The unconsumed bytes of a buffer that held `start` and then had each of
/// `chunks` appended in turn.
pub open spec fn appended_in_turn(start: Seq<u8>, chunks: Seq<Seq<u8>>) -> Seq<u8>
    decreases chunks.len(),
{
    if chunks.len() == 0 {
        start
    } else {
        appended_in_turn(start + chunks[0], chunks.drop_first())
    }
}

/// The chunks that split `bytes` into spans of one byte each.
pub open spec fn bytewise(bytes: Seq<u8>) -> Seq<Seq<u8>> {
    Seq::new(bytes.len(), |i: int| seq![bytes[i]])
}

/// Chunk boundaries do not show: appending chunks one after the other leaves
/// the bytes that appending their concatenation in one piece leaves.
pub proof fn lemma_chunk_boundaries_do_not_show(start: Seq<u8>, chunks: Seq<Seq<u8>>)
    ensures
        appended_in_turn(start, chunks) == start + chunks.flatten(),
    decreases chunks.len(),
{
    if chunks.len() == 0 {
        assert(chunks.flatten() =~= Seq::<u8>::empty());
        assert(start + chunks.flatten() =~= start);
    } else {
        lemma_chunk_boundaries_do_not_show(start + chunks[0], chunks.drop_first());
        assert(chunks.flatten() == chunks[0] + chunks.drop_first().flatten());
        assert(start + chunks[0] + chunks.drop_first().flatten() =~= start + (chunks[0]
            + chunks.drop_first().flatten()));
    }
}

/// Two ways of cutting the same bytes into chunks fill a buffer alike.
pub proof fn lemma_same_bytes_same_buffer(
    start: Seq<u8>,
    chunks: Seq<Seq<u8>>,
    other_chunks: Seq<Seq<u8>>,
)
    requires
        chunks.flatten() == other_chunks.flatten(),
    ensures
        appended_in_turn(start, chunks) == appended_in_turn(start, other_chunks),
{
    lemma_chunk_boundaries_do_not_show(start, chunks);
    lemma_chunk_boundaries_do_not_show(start, other_chunks);
}

/// Bytes appended one at a time accumulate as if appended at once, so that
/// a span of `n` bytes can be taken as soon as `n` bytes have arrived.
pub proof fn lemma_bytewise_append(start: Seq<u8>, bytes: Seq<u8>)
    ensures
        appended_in_turn(start, bytewise(bytes)) == start + bytes,
{
    lemma_chunk_boundaries_do_not_show(start, bytewise(bytes));
    lemma_bytewise_flatten(bytes);
}

/// One-byte chunks joined again give the bytes they were cut from.
proof fn lemma_bytewise_flatten(bytes: Seq<u8>)
    ensures
        bytewise(bytes).flatten() == bytes,
    decreases bytes.len(),
{
    if bytes.len() == 0 {
        assert(bytewise(bytes).flatten() =~= bytes);
    } else {
        lemma_bytewise_flatten(bytes.drop_first());
        assert(bytewise(bytes).drop_first() =~= bytewise(bytes.drop_first()));
        assert(bytewise(bytes)[0] + bytes.drop_first() =~= bytes);
    }
}

} // verus!
