//! Repacking of dictionaries into their compressed form.
//!
//! The keys of the trie are packed by other programs: they are given the surfaces of the words,
//! and tell which rank each surface has got.

pub mod assemble;
pub mod laws;
pub mod layout;
pub mod ranks;
pub mod records;
pub mod surfaces;

use vstd::prelude::*;
use vstd::slice::slice_subrange;

use self::assemble::{XdicModel, XdicParts};
use self::layout::Layout;
use self::records::CompressedRecords;
use crate::dic;
use crate::dic::header::STORAGE_SIZE;
use crate::dic::zstandard;
use crate::dic::DictionaryLoader;
use crate::error::SudachiError;

verus! {

/// Why a dictionary could not be repacked.
#[derive(Debug)]
pub enum RepackError {
    /// The dictionary cannot be read.
    Dictionary(SudachiError),
    /// A part of the dictionary is cut off.
    CutOff,
    /// The record of this word stands before the records.
    MisplacedRecord(u32),
    /// A part is too large to be compressed at once.
    TooLarge,
    /// The encoder failed.
    Compression(String),
}

/// What the compression of a dictionary gave.
pub struct Packing {
    pub zdict: Seq<u8>,
    pub grammar_zstd: Seq<u8>,
    pub frames: Seq<Seq<u8>>,
}

/// The dictionary of the encoder is trained on the word records; the grammar is compressed with
/// it as a whole, and the word records in chunks.
pub open spec fn is_packing(
    d: Seq<u8>,
    layout: Layout,
    level: i32,
    chunk_size: nat,
    packing: Packing,
) -> bool {
    let grammar = layout.grammar_of(d);
    let records = layout.records_of(d);
    &&& zstandard::zstd_trains(
        records::samples_of(records),
        records::ZDICT_SIZE as nat,
        Ok(packing.zdict),
    )
    &&& zstandard::zstd_makes(level, packing.zdict, grammar, Ok(packing.grammar_zstd))
    &&& zstandard::zstd_content(packing.zdict, packing.grammar_zstd) == Some(grammar)
    &&& records::are_frames(level, packing.zdict, records, chunk_size, packing.frames)
}

/// With the dictionary `zdict`, trained on the word records, the encoder failed on the grammar or
/// on a chunk of the records.
pub open spec fn encoding_fails(
    d: Seq<u8>,
    layout: Layout,
    level: i32,
    chunk_size: nat,
    zdict: Seq<u8>,
    text: Seq<char>,
) -> bool {
    let records = layout.records_of(d);
    &&& zstandard::zstd_trains(
        records::samples_of(records),
        records::ZDICT_SIZE as nat,
        Ok(zdict),
    )
    &&& {
        ||| records::chunk_fails(level, zdict, records, chunk_size, text)
        ||| zstandard::zstd_makes(level, zdict, layout.grammar_of(d), Err(text))
    }
}

/// The trainer failed, or the encoder with the dictionary that was trained.
pub open spec fn compression_fails(
    d: Seq<u8>,
    layout: Layout,
    level: i32,
    chunk_size: nat,
    text: Seq<char>,
) -> bool {
    ||| zstandard::zstd_trains(
        records::samples_of(layout.records_of(d)),
        records::ZDICT_SIZE as nat,
        Err(text),
    )
    ||| exists|zdict: Seq<u8>| #[trigger]
        encoding_fails(d, layout, level, chunk_size, zdict, text)
}

/// The compressed dictionary: the header and the lists and parameters of words are taken over as
/// they are, and the places of the word records are counted from where the records begin.
pub open spec fn packed_model(
    d: Seq<u8>,
    layout: Layout,
    xcdat: Seq<u8>,
    rank_to_offset: Seq<u32>,
    index: Seq<u32>,
    packing: Packing,
) -> XdicModel {
    XdicModel {
        header: d.take(STORAGE_SIZE as int),
        grammar_zstd: packing.grammar_zstd,
        xcdat,
        rank_to_offset,
        rest: layout.lists_of(d),
        wi_index: index,
        zdict: packing.zdict,
        chunk_offsets: records::frame_offsets(packing.frames),
        chunk_data: records::packed(packing.frames, packing.frames.len()),
    }
}

/// `out` is the dictionary in `d` in its compressed form.
pub open spec fn is_repacked(
    d: Seq<u8>,
    layout: Layout,
    xcdat: Seq<u8>,
    rank_to_offset: Seq<u32>,
    level: i32,
    chunk_size: nat,
    out: Seq<u8>,
) -> bool {
    exists|index: Seq<u32>, packing: Packing|
        {
            &&& layout::is_relative(
                layout.index_of(d),
                layout.word_infos_offset + 4 * layout.word_count,
                index,
            )
            &&& is_packing(d, layout, level, chunk_size, packing)
            &&& out == (#[trigger] packed_model(
                d,
                layout,
                xcdat,
                rank_to_offset,
                index,
                packing,
            )).bytes()
        }
}

/// What repacking a dictionary with the given layout may come to.
pub open spec fn packing_outcome(
    d: Seq<u8>,
    layout: Layout,
    xcdat: Seq<u8>,
    rank_to_offset: Seq<u32>,
    level: i32,
    chunk_size: nat,
    res: Result<Vec<u8>, RepackError>,
) -> bool {
    let start = layout.word_infos_offset + 4 * layout.word_count;
    let fits = records::compressible(layout.grammar_of(d).len() as int) && records::compressible(
        records::smaller(chunk_size as int, layout.records_of(d).len() as int),
    );
    match res {
        Ok(out) => fits && is_repacked(
            d,
            layout,
            xcdat,
            rank_to_offset,
            level,
            chunk_size,
            out@,
        ),
        Err(RepackError::MisplacedRecord(word_id)) => layout::is_first_misplaced(
            layout.index_of(d),
            start,
            word_id as int,
        ),
        Err(RepackError::TooLarge) => layout::none_misplaced(layout.index_of(d), start) && !fits,
        Err(RepackError::Compression(text)) => layout::none_misplaced(
            layout.index_of(d),
            start,
        ) && fits && compression_fails(d, layout, level, chunk_size, text@),
        Err(_) => false,
    }
}

/// What repacking a dictionary may come to. Whether the encoder succeeds is up to it.
pub open spec fn repack_outcome(
    d: Seq<u8>,
    xcdat: Seq<u8>,
    rank_to_offset: Seq<u32>,
    level: i32,
    chunk_size: nat,
    res: Result<Vec<u8>, RepackError>,
) -> bool {
    match dic::dictionary_in(d) {
        None => res matches Err(RepackError::CutOff),
        Some(Err(e)) => res matches Err(RepackError::Dictionary(got)) && got.model() == e,
        Some(Ok(m)) => if layout::records_start(m) > d.len() {
            res matches Err(RepackError::CutOff)
        } else {
            exists|layout: Layout| #[trigger]
                layout::is_layout(d, m, layout) && packing_outcome(
                    d,
                    layout,
                    xcdat,
                    rank_to_offset,
                    level,
                    chunk_size,
                    res,
                )
        },
    }
}

/// Repacks a dictionary with the given layout.
fn pack(
    data: &[u8],
    layout: Layout,
    xcdat: &[u8],
    rank_to_offset: &[u32],
    level: i32,
    chunk_size: usize,
) -> (res: Result<Vec<u8>, RepackError>)
    requires
        layout.wf(),
        layout.total == data@.len(),
        layout.word_count <= u32::MAX,
        chunk_size > 0,
    ensures
        packing_outcome(
            data@,
            layout,
            xcdat@,
            rank_to_offset@,
            level,
            chunk_size as nat,
            res,
        ),
{
    let wi_index: Vec<u32> = match layout.relative_index(data) {
        Ok(index) => index,
        Err(word_id) => {
            return Err(RepackError::MisplacedRecord(word_id));
        },
    };
    let word_records = layout.records(data);
    let grammar = slice_subrange(data, STORAGE_SIZE, layout.lexicon_offset);
    let largest: usize = if chunk_size < word_records.len() {
        chunk_size
    } else {
        word_records.len()
    };
    if !records::is_compressible(grammar.len()) || !records::is_compressible(largest) {
        return Err(RepackError::TooLarge);
    }
    let zdict: Vec<u8> = match records::train(word_records) {
        Ok(zdict) => zdict,
        Err(e) => {
            return Err(RepackError::Compression(e));
        },
    };
    let compressed: CompressedRecords = match records::compress_records(
        level,
        zdict.as_slice(),
        word_records,
        chunk_size,
    ) {
        Ok(compressed) => compressed,
        Err(e) => {
            assert(encoding_fails(data@, layout, level, chunk_size as nat, zdict@, e@));
            return Err(RepackError::Compression(e));
        },
    };
    let grammar_zstd: Vec<u8> = match zstandard::zstd_compress(level, zdict.as_slice(), grammar) {
        Ok(frame) => frame,
        Err(e) => {
            assert(encoding_fails(data@, layout, level, chunk_size as nat, zdict@, e@));
            return Err(RepackError::Compression(e));
        },
    };
    let parts = XdicParts {
        header: slice_subrange(data, 0, STORAGE_SIZE),
        grammar_zstd: grammar_zstd.as_slice(),
        xcdat,
        rank_to_offset,
        rest: slice_subrange(
            data,
            layout.lexicon_offset + layout.trie_size,
            layout.word_infos_offset,
        ),
        wi_index: wi_index.as_slice(),
        zdict: zdict.as_slice(),
        records: &compressed,
    };
    let out: Vec<u8> = assemble::assemble(&parts);
    proof {
        let packing = Packing {
            zdict: zdict@,
            grammar_zstd: grammar_zstd@,
            frames: compressed.frames(),
        };
        assert(data@.take(STORAGE_SIZE as int) =~= parts.header@);
        assert(is_packing(data@, layout, level, chunk_size as nat, packing));
        assert(packed_model(
            data@,
            layout,
            xcdat@,
            rank_to_offset@,
            wi_index@,
            packing,
        ) == parts.model());
    }
    Ok(out)
}

/// Repacks a dictionary into its compressed form, with a packed trie of its surfaces and the table
/// that leads from the ranks of its keys to the places of their words.
pub fn repack(
    data: &[u8],
    xcdat: &[u8],
    rank_to_offset: &[u32],
    level: i32,
    chunk_size: usize,
) -> (res: Result<Vec<u8>, RepackError>)
    requires
        chunk_size > 0,
    ensures
        repack_outcome(data@, xcdat@, rank_to_offset@, level, chunk_size as nat, res),
{
    let loader: DictionaryLoader = match DictionaryLoader::checked_read_any(data) {
        Some(Ok(loader)) => loader,
        Some(Err(e)) => {
            return Err(RepackError::Dictionary(e));
        },
        None => {
            return Err(RepackError::CutOff);
        },
    };
    match Layout::of(&loader, data) {
        Some(layout) => pack(data, layout, xcdat, rank_to_offset, level, chunk_size),
        None => Err(RepackError::CutOff),
    }
}

/// What is compressed of a dictionary: the dictionary of the encoder, of up to 112 kibibytes, is
/// trained on samples of everything behind the places of the word records; with it the bytes
/// between the header and the lexicon are compressed at once, and the records in chunks. The
/// header, and what stands between the trie and the places of the records, is taken over.
pub proof fn law_what_is_compressed(
    d: Seq<u8>,
    layout: Layout,
    level: i32,
    chunk_size: nat,
    packing: Packing,
    xcdat: Seq<u8>,
    ranks: Seq<u32>,
    index: Seq<u32>,
)
    requires
        is_packing(d, layout, level, chunk_size, packing),
        layout.wf(),
        layout.total == d.len(),
    ensures
        ({
            let records = d.skip(layout.word_infos_offset + 4 * layout.word_count);
            let grammar = d.subrange(272, layout.lexicon_offset as int);
            let packed = packed_model(d, layout, xcdat, ranks, index, packing);
            &&& zstandard::zstd_trains(records::samples_of(records), 112 * 1024, Ok(packing.zdict))
            &&& zstandard::zstd_makes(level, packing.zdict, grammar, Ok(packing.grammar_zstd))
            &&& packing.frames.len() == records::chunk_count(records.len(), chunk_size)
            &&& forall|i: int|
                0 <= i < packing.frames.len() ==> zstandard::zstd_content(
                    packing.zdict,
                    #[trigger] packing.frames[i],
                ) == Some(records::chunk(records, chunk_size, i))
            &&& packed.header == d.take(272)
            &&& packed.grammar_zstd == packing.grammar_zstd
            &&& packed.xcdat == xcdat
            &&& packed.rank_to_offset == ranks
            &&& packed.rest == d.subrange(
                layout.lexicon_offset + layout.trie_size,
                layout.word_infos_offset as int,
            )
            &&& packed.wi_index == index
            &&& packed.zdict == packing.zdict
        }),
{
}

} // verus!
