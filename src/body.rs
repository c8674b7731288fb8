//! Response bodies held in memory or read from a source.
use vstd::prelude::*;

use std::collections::VecDeque;

verus! {

/// The most bytes asked of a source in one read.
pub const READ_BUFFER_LENGTH: usize = 16384;

/// A response body with no bytes, for 204 or 3xx responses.
#[derive(Debug)]
pub struct EmptyBody {}

impl EmptyBody {
    pub fn new() -> (r: Self) {
        EmptyBody {  }
    }

    /// The next chunk; there is none.
    pub fn poll_frame(&mut self) -> (r: Option<Vec<u8>>)
        ensures
            r is None,
    {
        None
    }

    pub fn is_end_stream(&self) -> (r: bool)
        ensures
            r,
    {
        true
    }

    /// The bytes left, exactly: none.
    pub fn size_hint(&self) -> (r: Option<u64>)
        ensures
            r == Some(0u64),
    {
        Some(0)
    }
}

/// The total length of a list of chunks.
pub open spec fn total_len(chunks: Seq<Seq<u8>>) -> nat
    decreases chunks.len(),
{
    if chunks.len() == 0 {
        0
    } else {
        total_len(chunks.drop_last()) + chunks.last().len()
    }
}

proof fn lemma_total_len_drop_first(chunks: Seq<Seq<u8>>)
    requires
        chunks.len() > 0,
    ensures
        total_len(chunks) == chunks[0].len() + total_len(chunks.drop_first()),
    decreases chunks.len(),
{
    if chunks.len() > 1 {
        lemma_total_len_drop_first(chunks.drop_last());
        assert(chunks.drop_last().drop_first() =~= chunks.drop_first().drop_last());
        assert(chunks.drop_first().last() == chunks.last());
        assert(chunks.drop_last()[0] == chunks[0]);
        assert(total_len(chunks.drop_first()) == total_len(chunks.drop_first().drop_last())
            + chunks.last().len());
    } else {
        assert(total_len(chunks.drop_last()) == 0);
        assert(total_len(chunks.drop_first()) == 0);
    }
}

/// The bytes of each chunk.
pub open spec fn chunk_views(q: Seq<Vec<u8>>) -> Seq<Seq<u8>> {
    q.map_values(|c: Vec<u8>| c@)
}

/// A body made of chunks that are held in memory, handed out in order.
pub struct BytesBody {
    bytes_queue: VecDeque<Vec<u8>>,
    total_bytes: u64,
}

impl BytesBody {
    /// The chunks still to be handed out, in order.
    pub closed spec fn chunks(&self) -> Seq<Seq<u8>> {
        chunk_views(self.bytes_queue@)
    }

    /// The count kept of the bytes still to be handed out.
    pub closed spec fn total_spec(&self) -> u64 {
        self.total_bytes
    }

    /// The count is that of the chunks, and no chunk is empty.
    pub open spec fn wf(&self) -> bool {
        &&& self.total_spec() == total_len(self.chunks())
        &&& forall|i: int| 0 <= i < self.chunks().len() ==> #[trigger] self.chunks()[i].len() > 0
    }

    pub fn new_empty() -> (r: Self)
        ensures
            r.wf(),
            r.chunks() == Seq::<Seq<u8>>::empty(),
    {
        let r = BytesBody { bytes_queue: VecDeque::new(), total_bytes: 0 };
        assert(r.chunks() =~= Seq::<Seq<u8>>::empty());
        r
    }

    /// An empty body with room for `capacity` chunks.
    pub fn with_capacity(capacity: usize) -> (r: Self)
        ensures
            r.wf(),
            r.chunks() == Seq::<Seq<u8>>::empty(),
    {
        let r = BytesBody { bytes_queue: VecDeque::with_capacity(capacity), total_bytes: 0 };
        assert(r.chunks() =~= Seq::<Seq<u8>>::empty());
        r
    }

    /// A body of one chunk, or of none where `bytes` is empty.
    pub fn new(bytes: Vec<u8>) -> (r: Self)
        requires
            bytes@.len() <= u64::MAX,
        ensures
            r.wf(),
            r.chunks() == if bytes@.len() == 0 {
                Seq::<Seq<u8>>::empty()
            } else {
                seq![bytes@]
            },
    {
        let mut r = BytesBody::new_empty();
        r.append(bytes);
        r
    }

    /// Appends a chunk to the body; an empty one is left out.
    pub fn append(&mut self, bytes: Vec<u8>)
        requires
            old(self).wf(),
            old(self).total_spec() + bytes@.len() <= u64::MAX,
        ensures
            final(self).wf(),
            final(self).chunks() == if bytes@.len() == 0 {
                old(self).chunks()
            } else {
                old(self).chunks().push(bytes@)
            },
    {
        let n = bytes.len();
        if n > 0 {
            let ghost before = self.bytes_queue@;
            let ghost b = bytes@;
            self.total_bytes = self.total_bytes + n as u64;
            self.bytes_queue.push_back(bytes);
            assert(chunk_views(self.bytes_queue@) =~= chunk_views(before).push(b));
            assert(chunk_views(self.bytes_queue@).drop_last() =~= chunk_views(before));
            assert(total_len(self.chunks()) == total_len(chunk_views(before)) + b.len());
        }
    }

    /// Hands out the first chunk; `None` once all were.
    pub fn poll_frame(&mut self) -> (r: Option<Vec<u8>>)
        requires
            old(self).wf(),
        ensures
            final(self).wf(),
            old(self).chunks().len() == 0 ==> r is None && final(self).chunks() == old(self).chunks(),
            old(self).chunks().len() > 0 ==> (r matches Some(c) && c@ == old(self).chunks()[0]
                && final(self).chunks() == old(self).chunks().drop_first()),
    {
        let ghost before = self.chunks();
        match self.bytes_queue.pop_front() {
            Some(bytes) => {
                proof {
                    lemma_total_len_drop_first(before);
                }
                assert(chunk_views(self.bytes_queue@) =~= before.drop_first());
                self.total_bytes = self.total_bytes - bytes.len() as u64;
                Some(bytes)
            },
            None => None,
        }
    }

    pub fn is_end_stream(&self) -> (r: bool)
        ensures
            r == (self.chunks().len() == 0),
    {
        self.bytes_queue.len() == 0
    }

    /// The bytes left, exactly.
    pub fn size_hint(&self) -> (r: Option<u64>)
        requires
            self.wf(),
        ensures
            r matches Some(n) && n == total_len(self.chunks()),
    {
        Some(self.total_bytes)
    }
}

} // verus!

verus! {

/// A body read from a source, cut at `total_bytes` where that is given.
/// The driver asks `read_len` how much to read, reads at most that much
/// from `readable`, and reports the count to `record_read`.
pub struct AsyncStreamedBody<R> {
    total_bytes: u64,
    sent_bytes: u64,
    pub readable: R,
}

/// The smaller of two counts.
pub open spec fn min_nat(a: nat, b: nat) -> nat {
    if a <= b {
        a
    } else {
        b
    }
}

impl<R> AsyncStreamedBody<R> {
    /// The most bytes the body hands out; `u64::MAX` where no bound was given.
    pub closed spec fn total_spec(&self) -> u64 {
        self.total_bytes
    }

    /// The bytes handed out so far.
    pub closed spec fn sent_spec(&self) -> u64 {
        self.sent_bytes
    }

    /// The source read from.
    pub closed spec fn source(&self) -> R {
        self.readable
    }

    pub open spec fn wf(&self) -> bool {
        self.sent_spec() <= self.total_spec()
    }

    /// Takes `readable` as the source of the body; where `total_bytes` is
    /// given, no more than that many bytes are handed out.
    pub fn new(readable: R, total_bytes: Option<u64>) -> (r: Self)
        ensures
            r.wf(),
            r.total_spec() == match total_bytes {
                Some(t) => t,
                None => u64::MAX,
            },
            r.sent_spec() == 0,
            r.source() == readable,
    {
        let total = match total_bytes {
            Some(t) => t,
            None => u64::MAX,
        };
        AsyncStreamedBody { total_bytes: total, sent_bytes: 0, readable }
    }

    /// How many bytes to ask of the source next: as many as the buffer holds,
    /// and no more than remain under the bound. Zero once the body has ended.
    pub fn read_len(&self) -> (r: usize)
        requires
            self.wf(),
        ensures
            r as nat == min_nat(
                READ_BUFFER_LENGTH as nat,
                (self.total_spec() - self.sent_spec()) as nat,
            ),
    {
        let remaining = self.total_bytes - self.sent_bytes;
        if remaining < READ_BUFFER_LENGTH as u64 {
            remaining as usize
        } else {
            READ_BUFFER_LENGTH
        }
    }

    /// Records that a read gave `n` bytes; a read of none ends the body.
    /// Returns whether the body has ended, in which case the bytes are not
    /// handed out.
    pub fn record_read(&mut self, n: usize) -> (ended: bool)
        requires
            old(self).wf(),
            n <= old(self).total_spec() - old(self).sent_spec(),
        ensures
            final(self).wf(),
            final(self).total_spec() == old(self).total_spec(),
            final(self).source() == old(self).source(),
            ended == (n == 0),
            ended ==> final(self).sent_spec() == final(self).total_spec(),
            !ended ==> final(self).sent_spec() == old(self).sent_spec() + n,
    {
        if n == 0 {
            self.sent_bytes = self.total_bytes;
            return true;
        }
        self.sent_bytes = self.sent_bytes + n as u64;
        false
    }

    pub fn is_end_stream(&self) -> (r: bool)
        ensures
            r == (self.sent_spec() >= self.total_spec()),
    {
        self.sent_bytes >= self.total_bytes
    }

    /// The bytes left, exactly where a bound was given, else `None`.
    pub fn size_hint(&self) -> (r: Option<u64>)
        requires
            self.wf(),
        ensures
            r == if self.total_spec() == u64::MAX {
                None
            } else {
                Some((self.total_spec() - self.sent_spec()) as u64)
            },
    {
        if self.total_bytes == u64::MAX {
            None
        } else {
            Some(self.total_bytes - self.sent_bytes)
        }
    }
}

} // verus!
