//! Zstandard compression with a dictionary.

use vstd::prelude::*;

verus! {

/// What a compressed frame holds for the `zstd` decoder that is given a dictionary; nothing
/// where the frame is no frame for that dictionary. Whether the decoder gets at the content may
/// depend on the size of its buffer, unless the encoder made the frame.
pub uninterp spec fn zstd_content(dictionary: Seq<u8>, frame: Seq<u8>) -> Option<Seq<u8>>;

/// Whether `text` is that of an error that the `zstd` decoder may come to on a frame, with a
/// dictionary and a buffer for `capacity` bytes at least.
pub uninterp spec fn zstd_rejects(
    dictionary: Seq<u8>,
    frame: Seq<u8>,
    capacity: nat,
    text: Seq<char>,
) -> bool;

/// Whether `made`, a frame or the text of an error, is what the `zstd` encoder may come to on `data`
/// at a compression level with a dictionary. Which one it comes to depends on the instructions
/// and the memory of the machine and on where the data lie.
pub uninterp spec fn zstd_makes(
    level: i32,
    dictionary: Seq<u8>,
    data: Seq<u8>,
    made: Result<Seq<u8>, Seq<char>>,
) -> bool;

/// Whether `made`, a dictionary or the text of an error, is what the `zstd` trainer may come to
/// on samples and a limit on the size of the dictionary.
pub uninterp spec fn zstd_trains(
    samples: Seq<Seq<u8>>,
    max_size: nat,
    made: Result<Seq<u8>, Seq<char>>,
) -> bool;

/// Whether the encoder may have made a frame with a dictionary.
pub open spec fn is_made(dictionary: Seq<u8>, frame: Seq<u8>) -> bool {
    exists|level: i32, data: Seq<u8>| #[trigger] zstd_makes(level, dictionary, data, Ok(frame))
}

/// What a call that makes bytes came to.
pub open spec fn outcome(res: Result<Vec<u8>, String>) -> Result<Seq<u8>, Seq<char>> {
    match res {
        Ok(data) => Ok(data@),
        Err(text) => Err(text@),
    }
}

/// Why a frame could not be decompressed.
#[derive(Debug)]
pub enum DecompressError {
    /// No decoder could be made with the dictionary.
    Dictionary(String),
    /// The decoder rejected the frame.
    Frame(String),
}

/// Decompresses a frame with `zstd::bulk::Decompressor`: `with_dictionary`, then `decompress`.
///
/// Where the decoder returns bytes, they are the content of the frame. Where no decoder can be made
/// with the dictionary, which is so where its tables are corrupted, no frame has a content for
/// that dictionary. Where the decoder rejects a frame that the encoder made with the dictionary,
/// its content is longer than `capacity`. The text of an error is one that the decoder may come
/// to on these arguments.
///
/// Of a frame that the encoder did not make, it is not claimed that its content is got at: a block
/// that holds more than the frame allows is accepted or rejected by the size of the buffer. Nor
/// is it claimed that contents longer than `capacity` are rejected: the buffer may turn out
/// larger. Lack of memory is left out of account.
#[verifier::external_body]
pub(crate) fn zstd_decompress(dictionary: &[u8], frame: &[u8], capacity: usize) -> (res: Result<
    Vec<u8>,
    DecompressError,
>)
    requires
        capacity <= isize::MAX,
    ensures
        res matches Ok(data) ==> zstd_content(dictionary@, frame@) == Some(data@),
        res matches Err(DecompressError::Dictionary(text)) ==> zstd_content(
            dictionary@,
            frame@,
        ) is None && zstd_rejects(dictionary@, frame@, capacity as nat, text@),
        res matches Err(DecompressError::Frame(text)) ==> zstd_rejects(
            dictionary@,
            frame@,
            capacity as nat,
            text@,
        ) && (!is_made(dictionary@, frame@) || (zstd_content(dictionary@, frame@) matches Some(
            data,
        ) && data.len() > capacity)),
{
    match zstd::bulk::Decompressor::with_dictionary(dictionary) {
        Err(e) => Err(DecompressError::Dictionary(e.to_string())),
        Ok(mut decoder) => match decoder.decompress(frame, capacity) {
            Ok(data) => Ok(data),
            Err(e) => Err(DecompressError::Frame(e.to_string())),
        },
    }
}

/// Compresses `data` with `zstd::bulk::Compressor`: `with_dictionary`, then `compress`.
///
/// The frame or the text of the error is one that the encoder may come to on these arguments.
/// Where it is a frame, the decoder with the same dictionary finds `data` in it. That the encoder
/// succeeds is not claimed, nor which frame it makes.
#[verifier::external_body]
pub(crate) fn zstd_compress(level: i32, dictionary: &[u8], data: &[u8]) -> (res: Result<
    Vec<u8>,
    String,
>)
    requires
        data.len() + data.len() / 256 + 64 <= isize::MAX,
    ensures
        zstd_makes(level, dictionary@, data@, outcome(res)),
        res matches Ok(frame) ==> zstd_content(dictionary@, frame@) == Some(data@),
{
    match zstd::bulk::Compressor::with_dictionary(level, dictionary) {
        Err(e) => Err(e.to_string()),
        Ok(mut encoder) => match encoder.compress(data) {
            Ok(frame) => Ok(frame),
            Err(e) => Err(e.to_string()),
        },
    }
}

/// The bytes of samples.
pub open spec fn sample_bytes(samples: Seq<&[u8]>) -> Seq<Seq<u8>> {
    samples.map_values(|sample: &[u8]| sample@)
}

/// Trains a dictionary of at most `max_size` bytes with `zstd::dict::from_samples`.
///
/// The dictionary or the text of the error is one that the trainer may come to on these
/// arguments. That it succeeds is not claimed, nor which dictionary it makes.
#[verifier::external_body]
pub(crate) fn zstd_train(samples: &[&[u8]], max_size: usize) -> (res: Result<Vec<u8>, String>)
    requires
        samples@.len() * 0x1_0000 <= isize::MAX,
        forall|i: int| 0 <= i < samples@.len() ==> (#[trigger] samples@[i])@.len() <= 0x1_0000,
        max_size <= isize::MAX,
    ensures
        zstd_trains(sample_bytes(samples@), max_size as nat, outcome(res)),
{
    match zstd::dict::from_samples(samples, max_size) {
        Ok(dictionary) => Ok(dictionary),
        Err(e) => Err(e.to_string()),
    }
}

} // verus!
