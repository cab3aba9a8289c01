//! A repacked dictionary holds what the dictionary holds.

use vstd::prelude::*;
use vstd::utf8;

use crate::analysis::certainty;
use crate::analysis::input;
use crate::analysis::input::TextModel;
use crate::analysis::likeness;
use crate::bytes;
use crate::dic;
use crate::dic::character_category::CategoryRange;
use crate::dic::grammar;
use crate::dic::grammar::GrammarModel;
use crate::dic::header;
use crate::dic::header::STORAGE_SIZE;
use crate::dic::lexicon;
use crate::dic::lexicon::lookup;
use crate::dic::lexicon::word_id_table;
use crate::dic::lexicon::word_infos;
use crate::dic::lexicon::word_infos::{ChunkedModel, FlatModel, InfoModel, WordInfo};
use crate::dic::lexicon::xcdat_trie;
use crate::dic::lexicon::{InfosModel, LexiconLayout, LexiconModel, TrieVariantModel};
use crate::dic::lexicon_set::LexiconSetModel;
use crate::dic::read::word_info;
use crate::dic::repack;
use crate::dic::repack::assemble;
use crate::dic::repack::layout;
use crate::dic::repack::layout::Layout;
use crate::dic::repack::records;
use crate::dic::repack::Packing;
use crate::dic::subset::InfoSubset;
use crate::dic::word_id::WordId;
use crate::dic::xdic;
use crate::dic::xdic::SectionsModel;
use crate::dic::zstandard;
use crate::dic::{DictionaryModel, LoadedDictionary};
use crate::error;
use crate::error::SudachiResult;
use crate::plugin::oov;
use crate::plugin::oov::OovSettings;

verus! {

/// A packed frame stands at its offset, with its length before it.
proof fn lemma_packed_frame(frames: Seq<Seq<u8>>, c: int, n: nat)
    requires
        0 <= c < n <= frames.len(),
        packed_len_fits(frames, n),
    ensures
        ({
            let data = records::packed(frames, n);
            let start = records::packed(frames, c as nat).len() as int;
            &&& start + 4 + frames[c].len() <= data.len()
            &&& bytes::u32_at(data, start) == frames[c].len()
            &&& data.subrange(start + 4, start + 4 + frames[c].len()) == frames[c]
        }),
    decreases n,
{
    let data = records::packed(frames, n);
    let before = records::packed(frames, (n - 1) as nat);
    let last = frames[n - 1];
    let size = bytes::u32_bytes(last.len() as u32);
    assert(data == before + size + last);
    if c == n - 1 {
        assert(last.len() <= u32::MAX);
        bytes::lemma_u32_round_trip(last.len() as u32, before, last);
        let p = before.len() as int;
        assert(data.subrange(p + 4, p + 4 + last.len()) =~= last);
    } else {
        lemma_packed_frame(frames, c, (n - 1) as nat);
        let start = records::packed(frames, c as nat).len() as int;
        assert(data.subrange(start, start + 4) =~= before.subrange(start, start + 4));
        bytes::lemma_u32_local(data, start, before, start);
        assert(data.subrange(start + 4, start + 4 + frames[c].len()) =~= before.subrange(
            start + 4,
            start + 4 + frames[c].len(),
        ));
    }
}

/// The sizes of the packed frames can be written.
pub open spec fn packed_len_fits(frames: Seq<Seq<u8>>, n: nat) -> bool {
    records::packed(frames, n).len() <= u32::MAX
}

/// Records that were compressed in chunks are found in their chunks.
pub proof fn law_chunks_read_back(
    level: i32,
    word_records: Seq<u8>,
    frames: Seq<Seq<u8>>,
    m: ChunkedModel,
    c: int,
)
    requires
        records::are_frames(level, m.zdict, word_records, m.chunk_size, frames),
        packed_len_fits(frames, frames.len()),
        m.chunk_offsets == records::frame_offsets(frames),
        m.compressed_data == records::packed(frames, frames.len()),
        0 <= c < frames.len(),
    ensures
        m.has_chunk(c),
        m.frame(c) == frames[c],
        m.chunk(c) == Some(records::chunk(word_records, m.chunk_size, c)),
{
    lemma_packed_frame(frames, c, frames.len());
}

/// The record of a word as the uncompressed dictionary has it: its content, and the number of its
/// bytes that are read.
pub open spec fn flat_record(f: FlatModel, word_id: u32, subset: InfoSubset) -> Option<
    (nat, InfoModel),
> {
    match f.start(word_id) {
        Some(Ok(start)) => if start > f.bytes.len() {
            None
        } else {
            match word_info::record(f.bytes.skip(start as int), subset) {
                Some(Ok(read)) => Some(read),
                _ => None,
            }
        },
        _ => None,
    }
}

/// The record of a word begins in a chunk and lies within it, as far as it is read. `start` is where
/// the records begin.
pub open spec fn lies_in_chunk(
    f: FlatModel,
    start: int,
    chunk_size: nat,
    word_id: u32,
    subset: InfoSubset,
) -> bool {
    &&& f.start(word_id) matches Some(Ok(place))
    &&& flat_record(f, word_id, subset) matches Some((n, info))
    &&& start <= place < f.bytes.len()
    &&& (place - start) % chunk_size as int + n <= chunk_size
}

/// `m` holds the records of `f`, which begin at `start`, in compressed chunks.
pub open spec fn holds_records(
    m: ChunkedModel,
    f: FlatModel,
    start: int,
    level: i32,
    frames: Seq<Seq<u8>>,
) -> bool {
    &&& start == f.offset + 4 * m.wi_index.len()
    &&& start <= f.bytes.len()
    &&& layout::is_relative(
        bytes::u32s_at(f.bytes, f.offset as int, m.wi_index.len()),
        start,
        m.wi_index,
    )
    &&& m.chunk_size > 0
    &&& 2 * m.chunk_size <= isize::MAX
    &&& m.has_synonym_group_ids == f.has_synonym_group_ids
    &&& records::are_frames(level, m.zdict, f.bytes.skip(start), m.chunk_size, frames)
    &&& packed_len_fits(frames, frames.len())
    &&& m.chunk_offsets == records::frame_offsets(frames)
    &&& m.compressed_data == records::packed(frames, frames.len())
}

/// A place among the records lies in a chunk.
proof fn lemma_place_in_chunk(len: nat, size: nat, place: nat, n: nat)
    requires
        size > 0,
        place < len,
        place + n <= len,
        place % size + n <= size,
    ensures
        place / size < records::chunk_count(len, size),
        (place / size) * size + place % size == place,
        (place / size) * size + place % size + n <= records::smaller(
            ((place / size) * size + size) as int,
            len as int,
        ),
{
    let c = place / size;
    assert(c * size + place % size == place) by (nonlinear_arith)
        requires
            size > 0,
            c == place / size,
    ;
    assert(c < (len + size - 1) / size as int) by (nonlinear_arith)
        requires
            size > 0,
            c * size <= place,
            place < len,
    ;
}

/// The bytes at a place among the records stand in the chunk of the place.
proof fn lemma_chunk_bytes(bytes: Seq<u8>, start: int, size: nat, place: nat, n: nat)
    requires
        size > 0,
        0 <= start,
        start + place < bytes.len(),
        start + place + n <= bytes.len(),
        place % size + n <= size,
    ensures
        ({
            let c = (place / size) as int;
            let content = records::chunk(bytes.skip(start), size, c);
            let at = (place % size) as int;
            &&& c < records::chunk_count(bytes.skip(start).len(), size)
            &&& at + n <= content.len()
            &&& content.skip(at).take(n as int) == bytes.skip(start + place).take(n as int)
        }),
{
    let word_records = bytes.skip(start);
    lemma_place_in_chunk(word_records.len(), size, place, n);
    let c = (place / size) as int;
    let at = (place % size) as int;
    let content = records::chunk(word_records, size, c);
    let t = content.skip(at).take(n as int);
    let s = bytes.skip(start + place).take(n as int);
    assert forall|i: int| 0 <= i < n implies t[i] == s[i] by {
        assert(t[i] == content[at + i]);
        assert(content[at + i] == word_records[c * size + at + i]);
    }
    assert(t =~= s);
}

/// A record that lies within one chunk is read from the compressed dictionary as it is read from
/// the uncompressed one.
pub proof fn law_record_reads_back(
    m: ChunkedModel,
    f: FlatModel,
    start: int,
    level: i32,
    frames: Seq<Seq<u8>>,
    word_id: u32,
    subset: InfoSubset,
)
    requires
        holds_records(m, f, start, level, frames),
        word_id < m.wi_index.len(),
        lies_in_chunk(f, start, m.chunk_size, word_id, subset),
    ensures
        m.record(word_id, subset) == f.record(word_id, subset),
        m.record(word_id, subset) matches Some(Ok(_)),
        m.readable(word_id, subset),
{
    let absolute = f.start(word_id)->0->Ok_0 as int;
    let place = (absolute - start) as nat;
    assert(m.wi_index[word_id as int] == place) by {
        let places = bytes::u32s_at(f.bytes, f.offset as int, m.wi_index.len());
        assert(places[word_id as int] == absolute);
    }
    let s = f.bytes.skip(absolute);
    let (n, info) = flat_record(f, word_id, subset).unwrap();
    word_info::lemma_record_len(s, subset);
    lemma_chunk_bytes(f.bytes, start, m.chunk_size, place, n);
    let c = (place / m.chunk_size) as int;
    assert(m.chunk_of(word_id) == c);
    assert(m.place_of(word_id) == place % m.chunk_size);
    law_chunks_read_back(level, f.bytes.skip(start), frames, m, c);
    let content = records::chunk(f.bytes.skip(start), m.chunk_size, c);
    word_info::law_record_local(s, content.skip((place % m.chunk_size) as int), subset);
    assert(m.locatable(word_id));
    assert(m.record(word_id, subset) == word_infos::record_in(
        content.skip(m.place_of(word_id)),
        subset,
    )) by {
        reveal(ChunkedModel::record);
    }
    assert(f.record(word_id, subset) == word_infos::record_in(s, subset));
    reveal(ChunkedModel::readable);
}

/// The record of a word and that of its dictionary form lie within one chunk each.
pub open spec fn info_lies_in_chunks(
    f: FlatModel,
    start: int,
    chunk_size: nat,
    words: nat,
    word_id: u32,
    subset: InfoSubset,
) -> bool {
    let fields = subset.available(f.has_synonym_group_ids);
    &&& word_id < words
    &&& lies_in_chunk(f, start, chunk_size, word_id, fields)
    &&& f.record(word_id, fields) matches Some(Ok(info)) && match word_infos::form_word(
        info,
        word_id,
    ) {
        Some(form) => form < words && lies_in_chunk(
            f,
            start,
            chunk_size,
            form,
            InfoSubset::just_surface(),
        ),
        None => true,
    }
}

/// What the compressed dictionary says of a word whose records lie within one chunk each is what
/// the uncompressed one says.
pub proof fn law_word_info_reads_back(
    m: ChunkedModel,
    f: FlatModel,
    start: int,
    level: i32,
    frames: Seq<Seq<u8>>,
    word_id: u32,
    subset: InfoSubset,
)
    requires
        holds_records(m, f, start, level, frames),
        info_lies_in_chunks(f, start, m.chunk_size, m.wi_index.len(), word_id, subset),
    ensures
        m.info(word_id, subset) == f.info(word_id, subset),
        m.info(word_id, subset) matches Some(Ok(_)),
        m.answers(word_id, subset),
{
    let fields = subset.available(f.has_synonym_group_ids);
    law_record_reads_back(m, f, start, level, frames, word_id, fields);
    let info = f.record(word_id, fields)->0->Ok_0;
    if let Some(form) = word_infos::form_word(info, word_id) {
        law_record_reads_back(m, f, start, level, frames, form, InfoSubset::just_surface());
    }
}

/// Asking the compressed dictionary for a word whose records lie within one chunk each gives the
/// record that asking the uncompressed one gives, and neither fails.
#[verifier::rlimit(30)]
pub proof fn law_compressed_records_are_read(
    m: ChunkedModel,
    f: FlatModel,
    start: int,
    level: i32,
    frames: Seq<Seq<u8>>,
    word_id: u32,
    subset: InfoSubset,
    compressed: SudachiResult<WordInfo>,
    flat: SudachiResult<WordInfo>,
)
    requires
        holds_records(m, f, start, level, frames),
        info_lies_in_chunks(f, start, m.chunk_size, m.wi_index.len(), word_id, subset),
        InfosModel::Chunked(m).outcome(word_id, subset, compressed),
        InfosModel::Flat(f).outcome(word_id, subset, flat),
    ensures
        compressed matches Ok(a) && flat matches Ok(b) && a.model() == b.model(),
{
    law_word_info_reads_back(m, f, start, level, frames, word_id, subset);
    if let Err(e) = compressed {
        law_repacked_records_are_certain(m, f, start, level, frames);
        certainty::lemma_record_is_read(InfosModel::Chunked(m), word_id, subset, e);
    }
}

/// The chunks of a compressed dictionary were made by the encoder and hold no more than the decoder
/// has to accept, so that they can be decompressed.
pub proof fn law_repacked_records_are_certain(
    m: ChunkedModel,
    f: FlatModel,
    start: int,
    level: i32,
    frames: Seq<Seq<u8>>,
)
    requires
        holds_records(m, f, start, level, frames),
    ensures
        certainty::records_are_sound(InfosModel::Chunked(m)),
        certainty::records_are_certain(InfosModel::Chunked(m)),
{
    let all = f.bytes.skip(start);
    let size = m.chunk_size;
    assert forall|c: int| m.has_chunk(c) implies #[trigger] certainty::chunk_is_settled(m, c)
        && m.chunk(c) is Some by {
        assert(frames.len() == m.chunk_offsets.len());
        law_chunks_read_back(level, all, frames, m, c);
        assert(zstandard::zstd_makes(level, m.zdict, records::chunk(all, size, c), Ok(frames[c])));
        assert(c * size <= all.len()) by (nonlinear_arith)
            requires
                0 <= c < (all.len() + size - 1) / size as int,
                size > 0,
        ;
    }
}

/// The bytes of the lists and parameters of words hold what they hold in the whole dictionary.
pub proof fn law_lists_read_back(d: Seq<u8>, offset: nat, at: LexiconLayout)
    requires
        lexicon::lexicon_section(d, offset) == Some(
            Ok::<LexiconLayout, error::ErrorModel>(at),
        ),
    ensures
        ({
            let rest = d.subrange(at.table_start - 4, at.infos_start as int);
            let p = 4 + bytes::u32_at(rest, 0);
            &&& rest.len() == p + 4 + 6 * at.words
            &&& bytes::u32_at(rest, p) == at.words
            &&& bytes::i16s_at(rest, p + 4, (3 * at.words) as nat) == bytes::i16s_at(
                d,
                at.params_start as int,
                (3 * at.words) as nat,
            )
            &&& forall|place: nat|
                (#[trigger] word_id_table::word_list(rest, (4 + place) as int)) is Some
                    ==> word_id_table::word_list(rest, (4 + place) as int)
                    == word_id_table::word_list(d, (at.table_start + place) as int)
        }),
{
    let from = at.table_start - 4;
    let rest = d.subrange(from, at.infos_start as int);
    assert forall|i: int| 0 <= i < rest.len() implies #[trigger] rest[i] == d[from + i] by {}
    assert(bytes::u32_at(rest, 0) == bytes::u32_at(d, from));
    let p = 4 + bytes::u32_at(rest, 0);
    assert(bytes::u32_at(rest, p) == bytes::u32_at(d, from + p));
    let n = (3 * at.words) as nat;
    let a = bytes::i16s_at(rest, p + 4, n);
    let b = bytes::i16s_at(d, at.params_start as int, n);
    assert forall|i: int| 0 <= i < n implies #[trigger] a[i] == b[i] by {
        assert(rest[p + 4 + 2 * i] == d[at.params_start + 2 * i]);
        assert(rest[p + 4 + 2 * i + 1] == d[at.params_start + 2 * i + 1]);
    }
    assert(a =~= b);
    assert forall|place: nat|
        (#[trigger] word_id_table::word_list(rest, (4 + place) as int)) is Some implies
            word_id_table::word_list(rest, (4 + place) as int) == word_id_table::word_list(
        d,
        (at.table_start + place) as int,
    ) by {
        let q = (4 + place) as int;
        assert(rest[q] == d[from + q]);
        let x = word_id_table::word_list(rest, q).unwrap();
        let y = bytes::u32s_at(d, from + q + 1, rest[q] as nat);
        assert forall|i: int| 0 <= i < x.len() implies #[trigger] x[i] == y[i] by {
            let r = q + 1 + 4 * i;
            assert(rest[r] == d[from + r]);
            assert(rest[r + 1] == d[from + r + 1]);
            assert(rest[r + 2] == d[from + r + 2]);
            assert(rest[r + 3] == d[from + r + 3]);
        }
        assert(x =~= y);
    }
}

/// `b` has the parameters of the words of `a`, and its lists of words are lists of `a`.
pub open spec fn same_words(a: LexiconModel, b: LexiconModel) -> bool {
    &&& b.words == a.words
    &&& b.params == a.params
    &&& forall|place: nat| #[trigger] list_at(b, place) is Some ==> list_at(b, place) == list_at(
        a,
        place,
    )
}

/// The list of words at a place in the table of a lexicon.
pub open spec fn list_at(m: LexiconModel, place: nat) -> Option<Seq<u32>> {
    word_id_table::word_list(m.table, (m.table_start + place) as int)
}

/// The entries for the first hits are the same in both lexicons.
proof fn lemma_same_entries(a: LexiconModel, b: LexiconModel, hits: Seq<(nat, nat)>, n: nat)
    requires
        same_words(a, b),
        a.id == b.id,
        b.entries(hits, n) is Some,
    ensures
        b.entries(hits, n) == a.entries(hits, n),
    decreases n,
{
    if n > 0 {
        lemma_same_entries(a, b, hits, (n - 1) as nat);
        let hit = hits[n - 1];
        assert(b.hit_entries(hit) is Some);
        assert(list_at(b, hit.0) is Some);
        let list = list_at(b, hit.0).unwrap();
        assert(a.list_entries(list, hit.1) =~= b.list_entries(list, hit.1));
    }
}

/// Where both tries hold the same prefixes of `input[offset..]`, with the same places in the table
/// of word lists, both lexicons find the same words, with the same parameters.
pub proof fn law_lookup_reads_back(
    a: LexiconModel,
    b: LexiconModel,
    input: Seq<u8>,
    offset: nat,
)
    requires
        same_words(a, b),
        a.id == b.id,
        offset <= input.len(),
        a.trie.hits(input, offset) is Some,
        b.lookup(input, offset) is Some,
        forall|end: nat|
            offset <= end <= input.len() ==> a.trie.stored(
                #[trigger] input.subrange(offset as int, end as int),
            ) == b.trie.stored(input.subrange(offset as int, end as int)),
    ensures
        b.lookup(input, offset) == a.lookup(input, offset),
        forall|word_id: int| b.word_param(word_id) == #[trigger] a.word_param(word_id),
{
    lookup::law_same_keys_same_hits(a.trie, b.trie, input, offset);
    let hits = b.trie.hits(input, offset).unwrap();
    lemma_same_entries(a, b, hits, hits.len());
}

/// The header and the grammar of a compressed dictionary are read back: the header as it is, and
/// the grammar by decompressing it.
pub proof fn law_grammar_reads_back(
    d: Seq<u8>,
    m: DictionaryModel,
    at: Layout,
    xcdat: Seq<u8>,
    rank_to_offset: Seq<u32>,
    level: i32,
    chunk_size: nat,
    index: Seq<u32>,
    packing: Packing,
)
    requires
        dic::dictionary_in(d) == Some(Ok::<DictionaryModel, error::ErrorModel>(m)),
        layout::is_layout(d, m, at),
        repack::is_packing(d, at, level, chunk_size, packing),
        repack::packed_model(d, at, xcdat, rank_to_offset, index, packing).fits(),
    ensures
        ({
            let out = repack::packed_model(d, at, xcdat, rank_to_offset, index, packing).bytes();
            &&& header::header_in(out.take(STORAGE_SIZE as int)) == Ok::<
                header::HeaderModel,
                error::ErrorModel,
            >(m.header)
            &&& xdic::sections_in(out) matches Some(s)
            &&& zstandard::zstd_content(s.zdict, s.grammar_zstd) matches Some(g)
            &&& g == at.grammar_of(d)
            &&& zstandard::is_made(s.zdict, s.grammar_zstd)
            &&& m.grammar matches Some(gm) ==> grammar::grammar_section(g, 0) == Some(
                Ok::<GrammarModel, error::ErrorModel>(gm),
            )
        }),
{
    let x = repack::packed_model(d, at, xcdat, rank_to_offset, index, packing);
    assemble::law_sections_read_back(x);
    assert(x.bytes().take(STORAGE_SIZE as int) == xdic::sections_in(x.bytes()).unwrap().header);
    if m.grammar is Some {
        grammar::law_grammar_is_local(d, STORAGE_SIZE as nat);
    }
}

/// The lexicon of a compressed dictionary whose sections are complete.
proof fn lemma_xdic_lexicon(
    s: SectionsModel,
    head: header::HeaderModel,
    chunk_size: nat,
    t: xcdat_trie::TrieModel,
    infos: ChunkedModel,
    words: u32,
)
    requires
        s.rest.len() == 8 + bytes::u32_at(s.rest, 0) + 6 * words,
        bytes::u32_at(s.rest, 4 + bytes::u32_at(s.rest, 0)) == words,
        xcdat_trie::trie_in(s.xcdat, s.rank_to_offset) == Some(t),
        word_infos::chunked_section(
            s.chunked,
            s.word_count,
            chunk_size,
            header::version_has_synonyms(head.version),
        ) == Some(infos),
    ensures
        xdic::lexicon_of(s, head, chunk_size) == Some(
            LexiconModel {
                trie: TrieVariantModel::Xcdat(t),
                table: s.rest,
                table_start: 4,
                params: bytes::i16s_at(
                    s.rest,
                    8 + bytes::u32_at(s.rest, 0),
                    (3 * words) as nat,
                ),
                words,
                infos: InfosModel::Chunked(infos),
                id: lexicon::NO_DICTIONARY,
            },
        ),
{
}

/// The lexicon that is read back from a compressed dictionary.
proof fn lemma_read_back(
    x: assemble::XdicModel,
    head: header::HeaderModel,
    chunk_size: nat,
    t: xcdat_trie::TrieModel,
    words: u32,
)
    requires
        x.fits(),
        x.rest.len() == 8 + bytes::u32_at(x.rest, 0) + 6 * words,
        bytes::u32_at(x.rest, 4 + bytes::u32_at(x.rest, 0)) == words,
        xcdat_trie::trie_in(x.xcdat, x.rank_to_offset) == Some(t),
    ensures
        xdic::sections_in(x.bytes()) matches Some(s) && xdic::lexicon_of(s, head, chunk_size)
            == Some(
            LexiconModel {
                trie: TrieVariantModel::Xcdat(t),
                table: x.rest,
                table_start: 4,
                params: bytes::i16s_at(
                    x.rest,
                    8 + bytes::u32_at(x.rest, 0),
                    (3 * words) as nat,
                ),
                words,
                infos: InfosModel::Chunked(
                    x.chunked(chunk_size, header::version_has_synonyms(head.version)),
                ),
                id: lexicon::NO_DICTIONARY,
            },
        ),
{
    let synonyms = header::version_has_synonyms(head.version);
    assemble::law_sections_read_back(x);
    assemble::law_chunked_section_reads_back(x, chunk_size, synonyms);
    let s = xdic::sections_in(x.bytes()).unwrap();
    lemma_xdic_lexicon(s, head, chunk_size, t, x.chunked(chunk_size, synonyms), words);
}

/// The parameters and the lists of words of the uncompressed dictionary, where they stand alone.
proof fn lemma_same_words(
    d: Seq<u8>,
    offset: nat,
    parts: LexiconLayout,
    a: LexiconModel,
    b: LexiconModel,
)
    requires
        lexicon::lexicon_section(d, offset) == Some(
            Ok::<LexiconLayout, error::ErrorModel>(parts),
        ),
        a.table == d,
        a.table_start == parts.table_start,
        a.words == parts.words,
        a.params == bytes::i16s_at(d, parts.params_start as int, (3 * parts.words) as nat),
        b.table == d.subrange(parts.table_start - 4, parts.infos_start as int),
        b.table_start == 4,
        b.words == parts.words,
        b.params == bytes::i16s_at(
            b.table,
            8 + bytes::u32_at(b.table, 0),
            (3 * parts.words) as nat,
        ),
    ensures
        same_words(a, b),
{
    law_lists_read_back(d, offset, parts);
    assert forall|place: nat| #[trigger] list_at(b, place) is Some implies list_at(b, place)
        == list_at(a, place) by {
        assert(word_id_table::word_list(b.table, (4 + place) as int) is Some);
    }
}

/// The lexicon of a compressed dictionary is read back: it has the packed trie, the parameters and
/// the lists of words as they are in the uncompressed dictionary, and the word records in chunks.
#[verifier::rlimit(30)]
pub proof fn law_lexicon_reads_back(
    d: Seq<u8>,
    m: DictionaryModel,
    at: Layout,
    xcdat: Seq<u8>,
    rank_to_offset: Seq<u32>,
    level: i32,
    chunk_size: nat,
    index: Seq<u32>,
    packing: Packing,
    t: xcdat_trie::TrieModel,
)
    requires
        dic::dictionary_in(d) == Some(Ok::<DictionaryModel, error::ErrorModel>(m)),
        layout::is_layout(d, m, at),
        layout::is_relative(at.index_of(d), layout::records_start(m), index),
        repack::is_packing(d, at, level, chunk_size, packing),
        repack::packed_model(d, at, xcdat, rank_to_offset, index, packing).fits(),
        packed_len_fits(packing.frames, packing.frames.len()),
        chunk_size > 0,
        2 * chunk_size <= isize::MAX,
        xcdat_trie::trie_in(xcdat, rank_to_offset) == Some(t),
    ensures
        ({
            let x = repack::packed_model(d, at, xcdat, rank_to_offset, index, packing);
            let synonyms = header::version_has_synonyms(m.header.version);
            &&& xdic::sections_in(x.bytes()) matches Some(s)
            &&& xdic::lexicon_of(s, m.header, chunk_size) matches Some(lexicon)
            &&& lexicon.trie == TrieVariantModel::Xcdat(t)
            &&& same_words(m.lexicon, lexicon)
            &&& lexicon.infos == InfosModel::Chunked(x.chunked(chunk_size, synonyms))
            &&& m.lexicon.infos matches InfosModel::Flat(f)
            &&& holds_records(
                x.chunked(chunk_size, synonyms),
                f,
                layout::records_start(m),
                level,
                packing.frames,
            )
        }),
{
    let x = repack::packed_model(d, at, xcdat, rank_to_offset, index, packing);
    layout::lemma_dictionary(d, m);
    let parts = lexicon::lexicon_section(d, m.lexicon_offset)->0->Ok_0;
    assert(x.rest == d.subrange(parts.table_start - 4, parts.infos_start as int));
    law_lists_read_back(d, m.lexicon_offset, parts);
    lemma_read_back(x, m.header, chunk_size, t, parts.words);
    let s = xdic::sections_in(x.bytes()).unwrap();
    let lexicon = xdic::lexicon_of(s, m.header, chunk_size).unwrap();
    lemma_same_words(d, m.lexicon_offset, parts, m.lexicon, lexicon);
}

/// A compressed dictionary has all its sections, and loads with the grammar of the uncompressed
/// one and with a lexicon that has its words.
#[verifier::rlimit(30)]
pub proof fn law_repacked_dictionary_loads(
    d: Seq<u8>,
    m: DictionaryModel,
    at: Layout,
    xcdat: Seq<u8>,
    rank_to_offset: Seq<u32>,
    level: i32,
    chunk_size: nat,
    index: Seq<u32>,
    packing: Packing,
    t: xcdat_trie::TrieModel,
    ranges: Seq<CategoryRange>,
    settings: OovSettings,
)
    requires
        dic::dictionary_in(d) == Some(Ok::<DictionaryModel, error::ErrorModel>(m)),
        m.grammar is Some,
        layout::is_layout(d, m, at),
        layout::is_relative(at.index_of(d), layout::records_start(m), index),
        repack::is_packing(d, at, level, chunk_size, packing),
        repack::packed_model(d, at, xcdat, rank_to_offset, index, packing).fits(),
        packed_len_fits(packing.frames, packing.frames.len()),
        chunk_size > 0,
        2 * chunk_size <= isize::MAX,
        xcdat_trie::trie_in(xcdat, rank_to_offset) == Some(t),
        oov::resolved(
            settings.definitions@,
            m.grammar.unwrap().pos_list,
            settings.definitions@.len(),
        ) is Some,
    ensures
        ({
            let x = repack::packed_model(d, at, xcdat, rank_to_offset, index, packing);
            let oovs = oov::resolved(
                settings.definitions@,
                m.grammar.unwrap().pos_list,
                settings.definitions@.len(),
            ).unwrap();
            &&& xdic::sections_in(x.bytes()) matches Some(s)
            &&& xdic::lexicon_of(s, m.header, chunk_size) matches Some(lexicon)
            &&& same_words(m.lexicon, lexicon)
            &&& xdic::loadable(x.bytes(), settings, chunk_size)
            &&& xdic::loads_as(
                x.bytes(),
                ranges,
                settings,
                chunk_size,
                xdic::xdic_model(
                    GrammarModel { ranges, ..m.grammar.unwrap() },
                    lexicon,
                    settings.categories@,
                    oovs,
                ),
            )
        }),
{
    law_grammar_reads_back(
        d,
        m,
        at,
        xcdat,
        rank_to_offset,
        level,
        chunk_size,
        index,
        packing,
    );
    law_lexicon_reads_back(
        d,
        m,
        at,
        xcdat,
        rank_to_offset,
        level,
        chunk_size,
        index,
        packing,
        t,
    );
}

/// Loading a compressed dictionary, where its grammar is not too large, succeeds: it has the
/// grammar of the uncompressed one, and a lexicon that has its words, the records of which can be
/// decompressed.
pub proof fn law_repacked_dictionary_is_loaded(
    d: Seq<u8>,
    m: DictionaryModel,
    at: Layout,
    xcdat: Seq<u8>,
    rank_to_offset: Seq<u32>,
    level: i32,
    chunk_size: nat,
    index: Seq<u32>,
    packing: Packing,
    t: xcdat_trie::TrieModel,
    ranges: Seq<CategoryRange>,
    settings: OovSettings,
    res: SudachiResult<LoadedDictionary>,
)
    requires
        dic::dictionary_in(d) == Some(Ok::<DictionaryModel, error::ErrorModel>(m)),
        m.grammar is Some,
        layout::is_layout(d, m, at),
        layout::is_relative(at.index_of(d), layout::records_start(m), index),
        repack::is_packing(d, at, level, chunk_size, packing),
        repack::packed_model(d, at, xcdat, rank_to_offset, index, packing).fits(),
        packed_len_fits(packing.frames, packing.frames.len()),
        chunk_size > 0,
        2 * chunk_size <= isize::MAX,
        xcdat_trie::trie_in(xcdat, rank_to_offset) == Some(t),
        oov::resolved(
            settings.definitions@,
            m.grammar.unwrap().pos_list,
            settings.definitions@.len(),
        ) is Some,
        at.grammar_of(d).len() <= xdic::GRAMMAR_CAPACITY,
        xdic::load_outcome(
            repack::packed_model(d, at, xcdat, rank_to_offset, index, packing).bytes(),
            ranges,
            settings,
            chunk_size,
            res,
        ),
    ensures
        res matches Ok(dict) && dict.model().grammar == (GrammarModel {
            ranges,
            ..m.grammar.unwrap()
        }) && dict.model().lexicon_set.lexicons.len() == 1 && same_words(
            m.lexicon,
            dict.model().lexicon_set.lexicons[0],
        ) && certainty::is_sound(dict.model()),
{
    let x = repack::packed_model(d, at, xcdat, rank_to_offset, index, packing);
    let gm = m.grammar.unwrap();
    let oovs = oov::resolved(
        settings.definitions@,
        gm.pos_list,
        settings.definitions@.len(),
    ).unwrap();
    law_grammar_reads_back(
        d,
        m,
        at,
        xcdat,
        rank_to_offset,
        level,
        chunk_size,
        index,
        packing,
    );
    law_repacked_dictionary_loads(
        d,
        m,
        at,
        xcdat,
        rank_to_offset,
        level,
        chunk_size,
        index,
        packing,
        t,
        ranges,
        settings,
    );
    let s = xdic::sections_in(x.bytes()).unwrap();
    let lexicon = xdic::lexicon_of(s, m.header, chunk_size).unwrap();
    let model = xdic::xdic_model(
        GrammarModel { ranges, ..gm },
        lexicon,
        settings.categories@,
        oovs,
    );
    xdic::law_what_loads_is_loaded(x.bytes(), ranges, settings, chunk_size, model, res);
    law_lexicon_reads_back(
        d,
        m,
        at,
        xcdat,
        rank_to_offset,
        level,
        chunk_size,
        index,
        packing,
        t,
    );
    law_repacked_records_are_certain(
        x.chunked(chunk_size, header::version_has_synonyms(m.header.version)),
        m.lexicon.infos->Flat_0,
        layout::records_start(m),
        level,
        packing.frames,
    );
    let own = model.lexicon_set.lexicons[0];
    assert forall|place: nat| #[trigger] list_at(own, place) is Some implies list_at(own, place)
        == list_at(m.lexicon, place) by {
        assert(list_at(lexicon, place) is Some);
    }
}

/// Both lexicons can be searched from every character of a text on, and their tries hold the same
/// for every part of the text.
pub open spec fn hold_the_same(a: LexiconModel, b: LexiconModel, t: TextModel) -> bool {
    let text = utf8::encode_utf8(t.chars);
    &&& forall|i: nat|
        i < t.chars.len() ==> {
            &&& a.trie.hits(text, #[trigger] input::byte_offset(t.chars, i)) is Some
            &&& LexiconModel { id: 0, ..b }.lookup(text, input::byte_offset(t.chars, i)) is Some
        }
    &&& forall|begin: int, end: int|
        0 <= begin <= end <= text.len() ==> a.trie.stored(#[trigger] text.subrange(begin, end))
            == b.trie.stored(text.subrange(begin, end))
}

/// A system dictionary and its compressed form are alike on every text on which their tries hold
/// the same: they have the same cheapest ways through it.
pub proof fn law_repacked_dictionary_agrees(
    gm: GrammarModel,
    a: LexiconModel,
    b: LexiconModel,
    categories: Seq<oov::CategoryInfo>,
    oovs: Seq<oov::Oov>,
    t: TextModel,
)
    requires
        same_words(a, b),
        hold_the_same(a, b, t),
    ensures
        likeness::are_alike(
            xdic::xdic_model(gm, a, categories, oovs),
            xdic::xdic_model(gm, b, categories, oovs),
            t,
        ),
{
    let x = xdic::xdic_model(gm, a, categories, oovs);
    let y = xdic::xdic_model(gm, b, categories, oovs);
    let own = LexiconModel { id: 0, ..a };
    let other = LexiconModel { id: 0, ..b };
    let text = utf8::encode_utf8(t.chars);
    assert forall|place: nat| #[trigger] list_at(other, place) is Some implies list_at(
        other,
        place,
    ) == list_at(own, place) by {
        assert(list_at(b, place) is Some);
    }
    assert forall|id: WordId| #[trigger]
        x.lexicon_set.word_param(id) == y.lexicon_set.word_param(id) by {}
    assert forall|i: nat| i < t.chars.len() implies #[trigger] likeness::found_at(x, t, i)
        == likeness::found_at(y, t, i) by {
        let offset = input::byte_offset(t.chars, i);
        input::lemma_byte_offset_is_length(t.chars);
        input::lemma_byte_offset_grows(t.chars, i, t.chars.len());
        law_lookup_reads_back(own, other, text, offset);
        reveal_with_fuel(LexiconSetModel::lookup_first, 2);
        assert(x.lexicon_set.lexicons[0] == own);
        assert(y.lexicon_set.lexicons[0] == other);
    }
}

} // verus!
