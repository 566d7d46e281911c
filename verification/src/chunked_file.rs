//! Reading a range of a file in chunks.
use vstd::prelude::*;

verus! {

/// A range of a file that is read in chunks.
pub struct ChunkedFile {
    total_size: u64,
    read_size: u64,
    buffer_size: u64,
    offset: u64,
}

/// Why a chunk was not read.
pub enum ChunkError<E> {
    /// The file ended before the range.
    UnexpectedEof,
    /// Reading failed.
    Read(E),
}

/// A range of a file that is read in chunks, as values.
pub struct Range {
    /// The length of the range.
    pub total: nat,
    /// How much of it was read.
    pub done: nat,
    /// How long a chunk is at most.
    pub buffer: nat,
    /// Where in the file the next chunk begins.
    pub position: nat,
}

impl Range {
    /// The length of the next chunk, at most.
    pub open spec fn next_len(self) -> nat {
        if self.total - self.done < self.buffer {
            (self.total - self.done) as nat
        } else {
            self.buffer
        }
    }

    /// The range after a chunk of `n` bytes.
    pub open spec fn after(self, n: nat) -> Range {
        Range { done: self.done + n, position: self.position + n, ..self }
    }
}

impl ChunkedFile {
    /// The range, as values.
    pub open spec fn range(&self) -> Range {
        Range {
            total: self.total(),
            done: self.done(),
            buffer: self.buffer(),
            position: self.position(),
        }
    }

    /// The length of the range.
    pub closed spec fn total(&self) -> nat {
        self.total_size as nat
    }

    /// How much of it was read.
    pub closed spec fn done(&self) -> nat {
        self.read_size as nat
    }

    /// How long a chunk is at most.
    pub closed spec fn buffer(&self) -> nat {
        self.buffer_size as nat
    }

    /// Where in the file the next chunk begins.
    pub closed spec fn position(&self) -> nat {
        self.offset as nat
    }

    /// No more was read than there is, and the range ends at an offset that can be written down.
    pub open spec fn wf(&self) -> bool {
        self.done() <= self.total() && self.position() + (self.total() - self.done()) <= u64::MAX
    }

    /// `total_size` bytes from `offset` on, in chunks of at most `buffer_size`.
    pub fn new(total_size: u64, buffer_size: u64, offset: u64) -> (r: ChunkedFile)
        requires
            offset + total_size <= u64::MAX,
        ensures
            r.wf(),
            r.range() == (Range {
                total: total_size as nat,
                done: 0,
                buffer: buffer_size as nat,
                position: offset as nat,
            }),
    {
        ChunkedFile { total_size, read_size: 0, buffer_size, offset }
    }

    /// Where the next chunk begins, and how long it is at most; `None` at the end of the range.
    pub fn poll_next(&self) -> (r: Option<(u64, u64)>)
        requires
            self.wf(),
        ensures
            r is None <==> self.done() == self.total(),
            r matches Some((offset, max)) ==> offset == self.position() && max == self.range().next_len(),
    {
        if self.total_size == self.read_size {
            return None;
        }
        let left: u64 = self.total_size - self.read_size;
        let max: u64 = if left < self.buffer_size {
            left
        } else {
            self.buffer_size
        };
        Some((self.offset, max))
    }

    /// Takes what came of reading the next chunk: its length, or why it was not read. A chunk
    /// without a byte means that the file ended too soon.
    pub fn chunk_read<E>(&mut self, read: Result<u64, E>) -> (r: Result<u64, ChunkError<E>>)
        requires
            old(self).wf(),
            read matches Ok(n) ==> n <= old(self).range().next_len(),
        ensures
            final(self).wf(),
            match read {
                Err(e) => r == Err::<u64, ChunkError<E>>(ChunkError::Read(e)),
                Ok(n) => if n == 0 {
                    r == Err::<u64, ChunkError<E>>(ChunkError::UnexpectedEof)
                } else {
                    r == Ok::<u64, ChunkError<E>>(n)
                },
            },
            r matches Ok(n) ==> final(self).range() == old(self).range().after(n as nat),
            r is Err ==> final(self).range() == old(self).range(),
    {
        match read {
            Err(error) => Err(ChunkError::Read(error)),
            Ok(n) => {
                if n == 0 {
                    return Err(ChunkError::UnexpectedEof);
                }
                self.offset = self.offset + n;
                self.read_size = self.read_size + n;
                Ok(n)
            },
        }
    }
}

/// Whether `n` bytes can be the next chunk of a range of a file: at least one, no more than are asked
/// for, and all of them in the file.
pub open spec fn is_chunk(file: Seq<u8>, r: Range, n: nat) -> bool {
    0 < n <= r.next_len() && r.position + n <= file.len()
}

/// The range after the first chunks of the given lengths.
pub open spec fn after_chunks(r: Range, lens: Seq<nat>) -> Range
    decreases lens.len(),
{
    if lens.len() == 0 {
        r
    } else {
        after_chunks(r, lens.drop_last()).after(lens.last())
    }
}

/// Whether a range of a file is read in chunks of the given lengths.
pub open spec fn read_in(file: Seq<u8>, r: Range, lens: Seq<nat>) -> bool
    decreases lens.len(),
{
    lens.len() == 0 || (read_in(file, r, lens.drop_last()) && is_chunk(
        file,
        after_chunks(r, lens.drop_last()),
        lens.last(),
    ))
}

/// The bytes of the chunks, in order.
pub open spec fn chunks(file: Seq<u8>, r: Range, lens: Seq<nat>) -> Seq<u8>
    decreases lens.len(),
{
    if lens.len() == 0 {
        Seq::empty()
    } else {
        let at = after_chunks(r, lens.drop_last()).position as int;
        chunks(file, r, lens.drop_last()) + file.subrange(at, at + lens.last())
    }
}

/// The chunks of a range that was read to its end are the range, byte for byte. Where the file ends
/// before the range, they are what the file holds from the start of the range on, and no more can be
/// read.
pub proof fn law_chunks_are_the_range(file: Seq<u8>, r: Range, lens: Seq<nat>)
    requires
        r.done == 0,
        r.position <= file.len(),
        read_in(file, r, lens),
    ensures
        ({
            let end = after_chunks(r, lens);
            let start = r.position as int;
            &&& end.done <= r.total
            &&& end.position == r.position + end.done
            &&& chunks(file, r, lens) == file.subrange(start, start + end.done)
            &&& end.done == end.total ==> chunks(file, r, lens) == file.subrange(
                start,
                start + r.total,
            )
            &&& end.position >= file.len() ==> chunks(file, r, lens) == file.skip(start)
        }),
{
    lemma_chunks(file, r, lens);
    let end = after_chunks(r, lens);
    let start = r.position as int;
    if end.position >= file.len() {
        assert(file.subrange(start, start + end.done) =~= file.skip(start));
    }
}

proof fn lemma_chunks(file: Seq<u8>, r: Range, lens: Seq<nat>)
    requires
        r.done == 0,
        r.position <= file.len(),
        read_in(file, r, lens),
    ensures
        ({
            let end = after_chunks(r, lens);
            let start = r.position as int;
            &&& end.total == r.total
            &&& end.buffer == r.buffer
            &&& end.done <= r.total
            &&& end.position == r.position + end.done
            &&& end.position <= file.len()
            &&& chunks(file, r, lens) == file.subrange(start, start + end.done)
        }),
    decreases lens.len(),
{
    let start = r.position as int;
    if lens.len() == 0 {
        assert(chunks(file, r, lens) =~= file.subrange(start, start));
    } else {
        let some = lens.drop_last();
        lemma_chunks(file, r, some);
        let mid = after_chunks(r, some);
        let at = mid.position as int;
        assert(file.subrange(start, at) + file.subrange(at, at + lens.last()) =~= file.subrange(
            start,
            at + lens.last(),
        ));
    }
}

/// What is to be done before a file is read.
pub enum LazyStep<S> {
    /// Duplicate the shared handle.
    Duplicate(S),
    /// Read from the handle.
    Ready,
    /// There is no handle.
    NoHandle,
}

/// A shared handle that is duplicated when it is first read from, and not before: a response that is
/// sent from its file never needs the duplicate.
pub struct LazyFile<S, O> {
    source: Option<S>,
    owned: Option<O>,
}

impl<S, O> LazyFile<S, O> {
    /// The shared handle, until it is duplicated.
    pub closed spec fn source(&self) -> Option<S> {
        self.source
    }

    /// The duplicate.
    pub closed spec fn owned(&self) -> Option<O> {
        self.owned
    }

    /// A shared handle that was not read from.
    pub fn new(source: S) -> (r: LazyFile<S, O>)
        ensures
            r.source() == Some(source),
            r.owned() is None,
    {
        LazyFile { source: Some(source), owned: None }
    }

    /// Says what is to be done before the file is read. The shared handle is given away for its
    /// one duplication.
    pub fn prepare(&mut self) -> (r: LazyStep<S>)
        ensures
            r == (match old(self).source() {
                Some(source) => LazyStep::Duplicate(source),
                None => if old(self).owned() is Some {
                    LazyStep::Ready
                } else {
                    LazyStep::NoHandle
                },
            }),
            final(self).source() is None,
            final(self).owned() == old(self).owned(),
    {
        match self.source.take() {
            Some(source) => LazyStep::Duplicate(source),
            None => if self.owned.is_some() {
                LazyStep::Ready
            } else {
                LazyStep::NoHandle
            },
        }
    }

    /// Keeps the duplicate.
    pub fn duplicated(&mut self, owned: O)
        ensures
            final(self).owned() == Some(owned),
            final(self).source() == old(self).source(),
    {
        self.owned = Some(owned);
    }

    /// The duplicate, to read from.
    pub fn handle(&self) -> (r: Option<&O>)
        ensures
            r is Some <==> self.owned() is Some,
            r matches Some(o) ==> self.owned() == Some(*o),
    {
        match &self.owned {
            Some(o) => Some(o),
            None => None,
        }
    }
}

/// As much is read at once as the buffer takes, and never more than is left of the range.
pub proof fn law_chunk_lengths(r: Range)
    requires
        r.done <= r.total,
    ensures
        r.next_len() <= r.buffer,
        r.next_len() <= r.total - r.done,
        r.next_len() == r.buffer || r.next_len() == r.total - r.done,
{
}

} // verus!
