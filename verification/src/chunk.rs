//! Chunked replication of a file that cannot be buffered whole.
//!
//! A `ChunkCursor` sizes the chunks of one file from a single free-memory
//! reading and then says, step by step, how many bytes to read next. The
//! caller reads exactly that many bytes, writes them, and advances.

use crate::config::Config;
use crate::oracle::MemoryOracle;
use vstd::prelude::*;

verus! {

/// Why a big file cannot be copied.
#[derive(Clone, Copy, Debug, PartialEq, Eq, Structural)]
pub enum ChunkError {
    /// No memory is available beyond the margin, so no chunk can be read.
    NoProgress,
}

/// The bytes to read in one step: a full chunk, or what remains of the file
/// when that is less.
pub open spec fn read_len(chunk_size: nat, remaining: nat) -> nat {
    if chunk_size <= remaining {
        chunk_size
    } else {
        remaining
    }
}

/// The number of chunks a file is cut into: its size divided by the chunk
/// size, rounded up. Meaningful for a chunk size of at least one.
pub open spec fn chunk_count_of(file_size: nat, chunk_size: nat) -> nat {
    if file_size == 0 || chunk_size == 0 {
        0
    } else {
        ((file_size - 1) / (chunk_size as int) + 1) as nat
    }
}

/// What a copy writes from `offset` on when step `step` and the steps after
/// it use the nominal chunk sizes `sizes(step)`, `sizes(step + 1)`, ...: the
/// chunks in order, one after the other. A step that can read nothing ends
/// the copy.
pub open spec fn copied_from(data: Seq<u8>, sizes: spec_fn(nat) -> nat, step: nat, offset: nat) -> Seq<u8>
    decreases data.len() - offset,
{
    if offset >= data.len() {
        Seq::empty()
    } else {
        let len = read_len(sizes(step), (data.len() - offset) as nat);
        if len == 0 {
            Seq::empty()
        } else {
            data.subrange(offset as int, (offset + len) as int) + copied_from(
                data,
                sizes,
                step + 1,
                offset + len,
            )
        }
    }
}

/// The offset reached after `steps` chunks of a fixed size.
pub open spec fn offset_after(file_size: nat, chunk_size: nat, steps: nat) -> nat
    decreases steps,
{
    if steps == 0 {
        0
    } else {
        let before = offset_after(file_size, chunk_size, (steps - 1) as nat);
        before + read_len(chunk_size, (file_size - before) as nat)
    }
}

/// The progress of a chunked copy as plain numbers.
pub struct ChunkProgress {
    pub file_size: nat,
    pub chunk_size: nat,
    pub bytes_read: nat,
}

impl ChunkProgress {
    /// Bytes not yet copied.
    pub open spec fn remaining(self) -> nat {
        (self.file_size - self.bytes_read) as nat
    }

    /// The length of the next chunk; zero exactly when the copy is complete.
    pub open spec fn next_len(self) -> nat {
        read_len(self.chunk_size, self.remaining())
    }

    /// The progress after the next chunk has been copied.
    pub open spec fn advanced(self) -> ChunkProgress {
        ChunkProgress { bytes_read: self.bytes_read + self.next_len(), ..self }
    }
}

/// What sizing the chunks of a file yields for a free-memory reading: an
/// error exactly when bytes remain to be copied and no memory is available
/// for them.
pub open spec fn begin_outcome(config: Config, free_memory: u64, file_size: u64) -> Result<
    ChunkProgress,
    ChunkError,
> {
    if config.chunk_limit(free_memory) == 0 && file_size > 0 {
        Err(ChunkError::NoProgress)
    } else {
        Ok(
            ChunkProgress {
                file_size: file_size as nat,
                chunk_size: config.chunk_limit(free_memory),
                bytes_read: 0,
            },
        )
    }
}

/// The position of a chunked copy within one file.
#[derive(Debug)]
pub struct ChunkCursor {
    file_size: u64,
    chunk_size: u64,
    bytes_read: u64,
}

impl View for ChunkCursor {
    type V = ChunkProgress;

    closed spec fn view(&self) -> ChunkProgress {
        ChunkProgress {
            file_size: self.file_size as nat,
            chunk_size: self.chunk_size as nat,
            bytes_read: self.bytes_read as nat,
        }
    }
}

impl ChunkCursor {
    #[verifier::type_invariant]
    spec fn well_formed(self) -> bool {
        &&& self.bytes_read <= self.file_size
        &&& self.chunk_size > 0 || self.file_size == 0
    }

    /// Sizes the chunks of a file of `file_size` bytes from one free-memory
    /// reading. A file of no bytes always succeeds, with nothing to copy.
    pub fn begin(config: &Config, free_memory: u64, file_size: u64) -> (res: Result<
        ChunkCursor,
        ChunkError,
    >)
        ensures
            res is Ok <==> begin_outcome(*config, free_memory, file_size) is Ok,
            res is Ok ==> res->Ok_0@ == begin_outcome(*config, free_memory, file_size)->Ok_0,
            res is Err ==> res->Err_0 == ChunkError::NoProgress,
    {
        let chunk_size = config.chunk_size(free_memory);
        if chunk_size == 0 && file_size > 0 {
            Err(ChunkError::NoProgress)
        } else {
            Ok(ChunkCursor { file_size, chunk_size, bytes_read: 0 })
        }
    }

    /// Senses free memory once and sizes the chunks of the file from it.
    pub fn sense(config: &Config, oracle: &mut MemoryOracle, file_size: u64) -> (res: Result<
        ChunkCursor,
        ChunkError,
    >)
        ensures
            *final(oracle) == old(oracle).advanced(),
            exists|free: u64|
                {
                    &&& #[trigger] old(oracle).admits(free)
                    &&& res is Ok <==> begin_outcome(*config, free, file_size) is Ok
                    &&& res is Ok ==> res->Ok_0@ == begin_outcome(*config, free, file_size)->Ok_0
                },
            res is Err ==> res->Err_0 == ChunkError::NoProgress,
    {
        let free = oracle.free_memory();
        ChunkCursor::begin(config, free, file_size)
    }

    /// The size of the file being copied.
    pub fn file_size(&self) -> (size: u64)
        ensures
            size == self@.file_size,
    {
        self.file_size
    }

    /// The nominal size of a chunk.
    pub fn chunk_size(&self) -> (size: u64)
        ensures
            size == self@.chunk_size,
    {
        self.chunk_size
    }

    /// Bytes copied so far.
    pub fn bytes_read(&self) -> (count: u64)
        ensures
            count == self@.bytes_read,
            count <= self@.file_size,
    {
        proof {
            use_type_invariant(self);
        }
        self.bytes_read
    }

    /// The number of chunks the file is cut into, for reporting.
    pub fn chunk_count(&self) -> (count: u64)
        ensures
            count == chunk_count_of(self@.file_size, self@.chunk_size),
    {
        proof {
            use_type_invariant(self);
        }
        if self.file_size == 0 {
            0
        } else {
            (self.file_size - 1) / self.chunk_size + 1
        }
    }

    /// The number of bytes to read next: a full chunk, or exactly what is
    /// left of the file. Zero means that nothing remains.
    pub fn next_len(&self) -> (len: u64)
        ensures
            len == self@.next_len(),
            len == 0 <==> self@.bytes_read == self@.file_size,
            self@.bytes_read + len <= self@.file_size,
    {
        proof {
            use_type_invariant(self);
        }
        let remaining = self.file_size - self.bytes_read;
        if self.chunk_size <= remaining {
            self.chunk_size
        } else {
            remaining
        }
    }

    /// Whether every byte of the file has been copied.
    pub fn is_complete(&self) -> (done: bool)
        ensures
            done <==> self@.bytes_read == self@.file_size,
            done <==> self@.next_len() == 0,
    {
        proof {
            use_type_invariant(self);
        }
        self.bytes_read == self.file_size
    }

    /// Records that the chunk announced by `next_len` has been copied.
    pub fn advance(&mut self)
        ensures
            final(self)@ == old(self)@.advanced(),
    {
        proof {
            use_type_invariant(&*self);
        }
        let len = self.next_len();
        self.bytes_read = self.bytes_read + len;
    }
}

/// Chunks read one after the other are the rest of the file: from any offset
/// and with any sequence of chunk sizes of at least one byte, the copy writes
/// exactly the bytes from that offset to the end.
pub proof fn lemma_copied_from_is_rest(
    data: Seq<u8>,
    sizes: spec_fn(nat) -> nat,
    step: nat,
    offset: nat,
)
    requires
        forall|i: nat| #[trigger] sizes(i) >= 1,
        offset <= data.len(),
    ensures
        copied_from(data, sizes, step, offset) == data.skip(offset as int),
    decreases data.len() - offset,
{
    if offset < data.len() {
        let len = read_len(sizes(step), (data.len() - offset) as nat);
        assert(sizes(step) >= 1);
        lemma_copied_from_is_rest(data, sizes, step + 1, offset + len);
        assert(data.subrange(offset as int, (offset + len) as int) + data.skip((offset + len) as int)
            =~= data.skip(offset as int));
    } else {
        assert(data.skip(offset as int) =~= Seq::<u8>::empty());
    }
}

/// Chunk completeness: for a file of any size, and any sequence of chunk
/// sizes of at least one byte, the chunks written one after the other are the
/// bytes of the file, no more and no fewer. A file of no bytes yields no
/// chunk, and the last chunk of a file that the chunk size does not divide is
/// what remains.
pub proof fn lemma_chunks_reassemble(data: Seq<u8>, sizes: spec_fn(nat) -> nat)
    requires
        forall|i: nat| #[trigger] sizes(i) >= 1,
    ensures
        copied_from(data, sizes, 0, 0) == data,
        data.len() == 0 ==> copied_from(data, sizes, 0, 0) == Seq::<u8>::empty(),
{
    lemma_copied_from_is_rest(data, sizes, 0, 0);
    assert(data.skip(0) =~= data);
}

/// With a fixed chunk size of at least one byte, `steps` chunks reach the
/// offset `steps * chunk_size`, capped at the size of the file.
pub proof fn lemma_offset_after(file_size: nat, chunk_size: nat, steps: nat)
    requires
        chunk_size >= 1,
    ensures
        offset_after(file_size, chunk_size, steps) == if steps * chunk_size <= file_size {
            steps * chunk_size
        } else {
            file_size
        },
    decreases steps,
{
    if steps > 0 {
        lemma_offset_after(file_size, chunk_size, (steps - 1) as nat);
        assert(steps * chunk_size == (steps - 1) * chunk_size + chunk_size) by (nonlinear_arith);
        assert((steps - 1) * chunk_size >= 0) by (nonlinear_arith)
            requires
                steps >= 1,
                chunk_size >= 1,
        ;
    } else {
        assert(steps * chunk_size == 0) by (nonlinear_arith)
            requires
                steps == 0,
        ;
    }
}

/// The reported chunk count is exact: with a fixed chunk size of at least one
/// byte the copy is complete after that many chunks and not after fewer.
pub proof fn lemma_chunk_count_is_exact(file_size: nat, chunk_size: nat)
    requires
        chunk_size >= 1,
    ensures
        offset_after(file_size, chunk_size, chunk_count_of(file_size, chunk_size)) == file_size,
        forall|steps: nat|
            steps < chunk_count_of(file_size, chunk_size) ==> #[trigger] offset_after(
                file_size,
                chunk_size,
                steps,
            ) < file_size,
{
    let count = chunk_count_of(file_size, chunk_size);
    lemma_offset_after(file_size, chunk_size, count);
    if file_size > 0 {
        let q = (file_size - 1) / (chunk_size as int);
        assert(q * chunk_size <= file_size - 1 < (q + 1) * chunk_size) by (nonlinear_arith)
            requires
                q == (file_size - 1) / (chunk_size as int),
                chunk_size >= 1,
                file_size >= 1,
        ;
        assert(count == q + 1);
    } else {
        assert(count * chunk_size == 0) by (nonlinear_arith)
            requires
                count == 0,
        ;
    }
    assert forall|steps: nat| steps < count implies #[trigger] offset_after(
        file_size,
        chunk_size,
        steps,
    ) < file_size by {
        lemma_offset_after(file_size, chunk_size, steps);
        let q = (file_size - 1) / (chunk_size as int);
        assert(steps * chunk_size <= q * chunk_size) by (nonlinear_arith)
            requires
                steps <= q,
                chunk_size >= 1,
        ;
    }
}

} // verus!
