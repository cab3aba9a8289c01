//! Compression of the word records in chunks.

use vstd::prelude::*;
use vstd::slice::slice_subrange;

use crate::bytes;
use crate::dic::zstandard;

verus! {

/// Number of bytes of a chunk, unless another one is asked for: a compromise between memory and
/// the rate of compression.
pub const CHUNK_SIZE: usize = 65536;

/// Number of samples that a dictionary is trained on.
pub const DICT_TRAIN_SAMPLES: usize = 10_000;

/// Number of bytes of a sample.
pub const SAMPLE_SIZE: usize = 256;

/// Number of bytes that a trained dictionary may have.
pub const ZDICT_SIZE: usize = 114_688;

/// The smaller one of two numbers.
pub open spec fn smaller(a: int, b: int) -> int {
    if a < b {
        a
    } else {
        b
    }
}

/// Whether `n` bytes can be compressed at once: the buffer of the encoder is a little larger than
/// its input, and no buffer is larger than half of the address space.
pub open spec fn compressible(n: int) -> bool {
    n + n / 256 + 64 <= isize::MAX
}

/// Whether `n` bytes can be compressed at once.
pub fn is_compressible(n: usize) -> (ok: bool)
    ensures
        ok == compressible(n as int),
{
    let limit: usize = isize::MAX as usize;
    n <= limit && n / 256 + 64 <= limit - n
}

/// Sample `i` of the records: the samples are spread evenly.
pub open spec fn sample(records: Seq<u8>, i: int) -> Seq<u8> {
    let start = i * (records.len() / DICT_TRAIN_SAMPLES as nat);
    records.subrange(start, smaller(start + SAMPLE_SIZE, records.len() as int))
}

/// The samples of the records.
pub open spec fn samples_of(records: Seq<u8>) -> Seq<Seq<u8>> {
    Seq::new(DICT_TRAIN_SAMPLES as nat, |i: int| sample(records, i))
}

/// Samples of the records, spread evenly.
pub fn training_samples(records: &[u8]) -> (samples: Vec<&[u8]>)
    ensures
        zstandard::sample_bytes(samples@) == samples_of(records@),
        samples@.len() == DICT_TRAIN_SAMPLES,
        forall|i: int| 0 <= i < samples@.len() ==> (#[trigger] samples@[i])@.len() <= SAMPLE_SIZE,
{
    let len: usize = records.len();
    let step: usize = len / DICT_TRAIN_SAMPLES;
    let mut samples: Vec<&[u8]> = Vec::new();
    let mut start: usize = 0;
    let mut i: usize = 0;
    while i < DICT_TRAIN_SAMPLES
        invariant
            i <= DICT_TRAIN_SAMPLES,
            len == records@.len(),
            step == len / DICT_TRAIN_SAMPLES,
            start == i * step,
            samples@.len() == i,
            forall|k: int|
                0 <= k < i ==> {
                    &&& (#[trigger] samples@[k])@ == sample(records@, k)
                    &&& samples@[k]@.len() <= SAMPLE_SIZE
                },
        decreases DICT_TRAIN_SAMPLES - i,
    {
        assert(i * step + step <= len && i * step + step == (i + 1) * step) by (nonlinear_arith)
            requires
                i < 10_000,
                step == len / 10_000,
                0 <= i,
                0 <= len,
        ;
        let end: usize = if len - start < SAMPLE_SIZE {
            len
        } else {
            start + SAMPLE_SIZE
        };
        samples.push(slice_subrange(records, start, end));
        start = start + step;
        i = i + 1;
    }
    assert(zstandard::sample_bytes(samples@) =~= samples_of(records@));
    samples
}

/// Trains a dictionary on samples of the records. An error is that of the trainer.
pub fn train(records: &[u8]) -> (res: Result<Vec<u8>, String>)
    ensures
        zstandard::zstd_trains(
            samples_of(records@),
            ZDICT_SIZE as nat,
            zstandard::outcome(res),
        ),
{
    let samples: Vec<&[u8]> = training_samples(records);
    zstandard::zstd_train(samples.as_slice(), ZDICT_SIZE)
}

/// Number of chunks of `size` bytes that `len` bytes are cut into.
pub open spec fn chunk_count(len: nat, size: nat) -> nat {
    ((len + size - 1) / size as int) as nat
}

/// Chunk `i` of the records.
pub open spec fn chunk(records: Seq<u8>, size: nat, i: int) -> Seq<u8> {
    records.subrange(i * size, smaller(i * size + size, records.len() as int))
}

/// `frames` are the first chunks of the records, each compressed with a dictionary.
pub open spec fn are_first_frames(
    level: i32,
    zdict: Seq<u8>,
    records: Seq<u8>,
    size: nat,
    frames: Seq<Seq<u8>>,
) -> bool {
    forall|i: int|
        0 <= i < frames.len() ==> {
            &&& zstandard::zstd_makes(
                level,
                zdict,
                chunk(records, size, i),
                Ok(#[trigger] frames[i]),
            )
            &&& zstandard::zstd_content(zdict, frames[i]) == Some(chunk(records, size, i))
        }
}

/// `frames` are the chunks of the records, each compressed with a dictionary.
pub open spec fn are_frames(
    level: i32,
    zdict: Seq<u8>,
    records: Seq<u8>,
    size: nat,
    frames: Seq<Seq<u8>>,
) -> bool {
    &&& frames.len() == chunk_count(records.len(), size)
    &&& are_first_frames(level, zdict, records, size, frames)
}

/// The encoder made frames of the first chunks of the records, and failed on the next one.
pub open spec fn fails_after(
    level: i32,
    zdict: Seq<u8>,
    records: Seq<u8>,
    size: nat,
    frames: Seq<Seq<u8>>,
    text: Seq<char>,
) -> bool {
    &&& frames.len() < chunk_count(records.len(), size)
    &&& are_first_frames(level, zdict, records, size, frames)
    &&& zstandard::zstd_makes(
        level,
        zdict,
        chunk(records, size, frames.len() as int),
        Err(text),
    )
}

/// The encoder failed on a chunk of the records.
pub open spec fn chunk_fails(
    level: i32,
    zdict: Seq<u8>,
    records: Seq<u8>,
    size: nat,
    text: Seq<char>,
) -> bool {
    exists|frames: Seq<Seq<u8>>| #[trigger] fails_after(level, zdict, records, size, frames, text)
}

/// The first `n` frames, each with its length before it.
pub open spec fn packed(frames: Seq<Seq<u8>>, n: nat) -> Seq<u8>
    decreases n,
{
    if n == 0 {
        Seq::empty()
    } else {
        packed(frames, (n - 1) as nat) + bytes::u32_bytes(frames[n - 1].len() as u32) + frames[n
            - 1]
    }
}

/// Where each frame begins, with its length before it.
pub open spec fn frame_offsets(frames: Seq<Seq<u8>>) -> Seq<u32> {
    Seq::new(frames.len(), |i: int| packed(frames, i as nat).len() as u32)
}

/// Word records that were compressed in chunks.
pub struct CompressedRecords {
    /// Where each chunk begins
    pub chunk_offsets: Vec<u32>,
    /// The compressed chunks, each with its length before it
    pub data: Vec<u8>,
    /// The compressed chunks
    pub frames: Ghost<Seq<Seq<u8>>>,
}

impl CompressedRecords {
    /// The compressed chunks.
    pub open spec fn frames(self) -> Seq<Seq<u8>> {
        self.frames@
    }

    /// The offsets and the data are those of the chunks.
    pub open spec fn wf(self) -> bool {
        &&& self.chunk_offsets@ == frame_offsets(self.frames())
        &&& self.data@ == packed(self.frames(), self.frames().len())
    }

    /// No chunks.
    pub fn new() -> (records: CompressedRecords)
        ensures
            records.wf(),
            records.frames() == Seq::<Seq<u8>>::empty(),
    {
        let records = CompressedRecords {
            chunk_offsets: Vec::new(),
            data: Vec::new(),
            frames: Ghost(Seq::empty()),
        };
        assert(records.chunk_offsets@ =~= frame_offsets(records.frames()));
        records
    }

    /// Appends a compressed chunk.
    pub fn push(&mut self, frame: &[u8])
        requires
            old(self).wf(),
        ensures
            final(self).wf(),
            final(self).frames() == old(self).frames().push(frame@),
    {
        let ghost before = self.frames();
        self.chunk_offsets.push(self.data.len() as u32);
        bytes::push_u32(&mut self.data, frame.len() as u32);
        bytes::push_all(&mut self.data, frame);
        self.frames = Ghost(self.frames@.push(frame@));
        proof {
            let frames = self.frames();
            lemma_packed_local(before, frames, before.len());
            assert forall|i: int| 0 <= i < frames.len() implies #[trigger] self.chunk_offsets@[i]
                == frame_offsets(frames)[i] by {
                if i < before.len() {
                    lemma_packed_local(before, frames, i as nat);
                    assert(self.chunk_offsets@[i] == frame_offsets(before)[i]);
                }
            }
            assert(self.chunk_offsets@ =~= frame_offsets(frames));
            assert(self.data@ =~= packed(frames, frames.len()));
        }
    }
}

/// Packing the first frames depends on these alone.
proof fn lemma_packed_local(a: Seq<Seq<u8>>, b: Seq<Seq<u8>>, n: nat)
    requires
        n <= a.len(),
        n <= b.len(),
        forall|k: int| 0 <= k < n ==> a[k] == b[k],
    ensures
        packed(a, n) == packed(b, n),
    decreases n,
{
    if n > 0 {
        lemma_packed_local(a, b, (n - 1) as nat);
    }
}

/// The chunks that begin before byte `start`, where a chunk or the end of the records begins.
proof fn lemma_chunk_step(len: nat, size: nat, i: nat, start: nat)
    requires
        size > 0,
        start == i * size,
        start < len,
    ensures
        i < chunk_count(len, size),
        start + size == (i + 1) * size,
        len <= start + size ==> chunk_count(len, size) == i + 1,
{
    assert(start + size == (i + 1) * size) by (nonlinear_arith)
        requires
            start == i * size,
    ;
    assert(i < (len + size - 1) / size as int) by (nonlinear_arith)
        requires
            size > 0,
            start == i * size,
            start < len,
    ;
    if len <= start + size {
        assert((len + size - 1) / size as int == i + 1) by (nonlinear_arith)
            requires
                size > 0,
                start == i * size,
                start < len,
                len <= start + size,
        ;
    }
}

/// Compresses the records in chunks of `chunk_size` bytes with a dictionary. An error is that of
/// the encoder on the first chunk that it fails on; no records give no chunks.
pub fn compress_records(level: i32, zdict: &[u8], records: &[u8], chunk_size: usize) -> (res:
    Result<CompressedRecords, String>)
    requires
        chunk_size > 0,
        compressible(smaller(chunk_size as int, records.len() as int)),
    ensures
        match res {
            Ok(compressed) => {
                &&& compressed.wf()
                &&& are_frames(level, zdict@, records@, chunk_size as nat, compressed.frames())
            },
            Err(text) => chunk_fails(level, zdict@, records@, chunk_size as nat, text@),
        },
        records@.len() == 0 ==> res is Ok,
{
    let len: usize = records.len();
    let ghost size = chunk_size as nat;
    let mut compressed: CompressedRecords = CompressedRecords::new();
    let mut start: usize = 0;
    proof {
        if len == 0 {
            assert((size - 1) / size as int == 0) by (nonlinear_arith)
                requires
                    size > 0,
            ;
        }
    }
    while start < len
        invariant
            start <= len == records@.len(),
            compressible(smaller(chunk_size as int, len as int)),
            size == chunk_size > 0,
            start < len ==> start == compressed.frames().len() * size,
            start == len ==> compressed.frames().len() == chunk_count(len as nat, size),
            compressed.wf(),
            are_first_frames(level, zdict@, records@, size, compressed.frames()),
        decreases len - start,
    {
        let ghost i = compressed.frames().len();
        proof {
            lemma_chunk_step(len as nat, size, i, start as nat);
        }
        let end: usize = if len - start < chunk_size {
            len
        } else {
            start + chunk_size
        };
        let content = slice_subrange(records, start, end);
        assert(content@ == chunk(records@, size, i as int));
        match zstandard::zstd_compress(level, zdict, content) {
            Ok(frame) => {
                compressed.push(frame.as_slice());
            },
            Err(e) => {
                assert(fails_after(level, zdict@, records@, size, compressed.frames(), e@));
                return Err(e);
            },
        }
        start = end;
    }
    Ok(compressed)
}

/// The chunks make up the records: byte `k` of chunk `i` is the byte of the records that many whole
/// chunks and bytes behind their beginning. Every chunk but the last has the size that was asked
/// for, and the last one is not empty and ends where the records do.
pub proof fn law_chunks_make_up_the_records(records: Seq<u8>, size: nat, i: int, k: int)
    requires
        size > 0,
        0 <= i < chunk_count(records.len(), size),
        0 <= k < chunk(records, size, i).len(),
    ensures
        i * size + k < records.len(),
        chunk(records, size, i)[k] == records[i * size + k],
        i + 1 < chunk_count(records.len(), size) ==> chunk(records, size, i).len() == size,
        i + 1 == chunk_count(records.len(), size) ==> 0 < chunk(records, size, i).len() <= size && i
            * size + chunk(records, size, i).len() == records.len(),
{
    let n = records.len() as int;
    let s = size as int;
    let count = (n + s - 1) / s;
    vstd::arithmetic::div_mod::lemma_fundamental_div_mod(n + s - 1, s);
    assert(count * s <= n + s - 1 < (count + 1) * s) by (nonlinear_arith)
        requires
            n + s - 1 == s * count + (n + s - 1) % s,
            0 <= (n + s - 1) % s < s,
    ;
    assert(i * s < n) by (nonlinear_arith)
        requires
            i + 1 <= count,
            count * s <= n + s - 1,
            s > 0,
    ;
    assert(i + 1 < count ==> i * s + s < n) by (nonlinear_arith)
        requires
            count * s <= n + s - 1,
            s > 0,
    ;
    assert(i + 1 == count ==> n <= i * s + s) by (nonlinear_arith)
        requires
            n + s - 1 < (count + 1) * s,
            s > 0,
    ;
    assert(0 <= i * s) by (nonlinear_arith)
        requires
            0 <= i,
            s > 0,
    ;
}

/// The samples are ten thousand pieces of 256 bytes that begin at even distances, cut off where
/// the records end.
pub proof fn law_samples_are_spread_evenly(records: Seq<u8>, i: int, k: int)
    requires
        0 <= i < 10_000,
        0 <= k < 256,
    ensures
        samples_of(records).len() == 10_000,
        ({
            let distance = records.len() as int / 10_000;
            let start = i * distance;
            &&& start + k < records.len() ==> k < samples_of(records)[i].len()
                && samples_of(records)[i][k] == records[start + k]
            &&& start + k >= records.len() ==> samples_of(records)[i].len() <= k
            &&& samples_of(records)[i].len() <= 256
        }),
{
    let n = records.len() as int;
    let distance = n / 10_000;
    assert(0 <= i * distance <= n) by (nonlinear_arith)
        requires
            0 <= i < 10_000,
            distance == n / 10_000,
            n >= 0,
    ;
}

} // verus!
