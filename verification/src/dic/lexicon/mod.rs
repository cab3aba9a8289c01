//! Lexicons: the words of a dictionary, found by their surfaces.

pub mod bit_vector;
pub mod cost;
pub mod lookup;
pub mod trie;
pub mod word_id_table;
pub mod word_infos;
pub mod word_params;
pub mod xcdat_trie;

use vstd::prelude::*;
use vstd::slice::{slice_subrange, slice_to_vec};

use self::trie::{Trie, TrieEntry};
use self::word_id_table::WordIdTable;
use self::word_infos::{ChunkedModel, ChunkedWordInfos, FlatModel, WordInfo, WordInfos};
use self::word_params::WordParams;
use self::xcdat_trie::{XcdatEntry, XcdatTrie};
use crate::bytes;
use crate::dic::subset::InfoSubset;
use crate::dic::word_id::{WordId, WORD_LIMIT};
use crate::error;
use crate::error::{ReadError, SudachiError, SudachiResult};

verus! {

/// Number of lexicons that can be held at the same time: the dictionary takes up 4 bits of a word
/// identifier, and the last value marks words that are in no dictionary.
pub const MAX_DICTIONARIES: usize = 15;

/// Identifier of a lexicon that has none yet.
pub const NO_DICTIONARY: u8 = 255;

/// The trie of a lexicon.
pub enum TrieVariantModel {
    Yada(trie::TrieModel),
    Xcdat(xcdat_trie::TrieModel),
}

/// The word records of a lexicon.
pub enum InfosModel {
    Flat(FlatModel),
    Chunked(ChunkedModel),
}

/// What a [`Lexicon`] holds.
pub struct LexiconModel {
    pub trie: TrieVariantModel,
    /// The bytes that hold the lists of words with the same surface.
    pub table: Seq<u8>,
    /// Where the lists begin.
    pub table_start: nat,
    /// Left and right connection identifiers and costs, three for each word.
    pub params: Seq<i16>,
    /// Number of words.
    pub words: u32,
    pub infos: InfosModel,
    /// Identifier of the lexicon among those that are held at the same time.
    pub id: u8,
}

/// Result of a lookup
#[derive(Debug, Clone, Copy, PartialEq, Eq, Structural)]
pub struct LexiconEntry {
    /// Id of the returned word
    pub word_id: WordId,
    /// Byte index of the word end
    pub end: usize,
}

impl LexiconEntry {
    /// The entry for a word that ends at a place.
    pub fn new(word_id: WordId, end: usize) -> (entry: LexiconEntry)
        ensures
            entry == (LexiconEntry { word_id, end }),
    {
        LexiconEntry { word_id, end }
    }
}

impl TrieVariantModel {
    /// The stored prefixes of `input[offset..]`, as places in the table of word lists and ends.
    pub open spec fn hits(self, input: Seq<u8>, offset: nat) -> Option<Seq<(nat, nat)>> {
        match self {
            TrieVariantModel::Yada(t) => match t.hits(input, offset) {
                Some(hits) => Some(hits.map_values(|hit: (u32, nat)| (hit.0 as nat, hit.1))),
                None => None,
            },
            TrieVariantModel::Xcdat(t) => match t.hits_from(input, offset, 0) {
                Some(hits) => Some(hits.map_values(|hit: (u64, nat)| (hit.0 as nat, hit.1))),
                None => None,
            },
        }
    }
}

impl InfosModel {
    /// The record of a word and that of its dictionary form can be read.
    pub open spec fn answers(self, word_id: u32, subset: InfoSubset) -> bool {
        match self {
            InfosModel::Flat(m) => m.info(word_id, subset) is Some,
            InfosModel::Chunked(m) => m.answers(word_id, subset),
        }
    }

    /// The record of a word with its dictionary form.
    pub open spec fn info(self, word_id: u32, subset: InfoSubset) -> word_infos::RecordOutcome {
        match self {
            InfosModel::Flat(m) => m.info(word_id, subset),
            InfosModel::Chunked(m) => m.info(word_id, subset),
        }
    }

    /// `e` is an error that asking for the record of a word may come to: that of the record, or
    /// that of a chunk that could not be decompressed.
    pub open spec fn may_fail_with(self, word_id: u32, subset: InfoSubset, e: SudachiError) -> bool {
        ||| e matches SudachiError::ParseError(pe) && self.info(word_id, subset) == Some(
            Err::<word_infos::InfoModel, ReadError>(pe),
        )
        ||| self matches InfosModel::Chunked(m) && m.info_fails(word_id, subset, e.model())
    }

    /// `res` is what asking for the record of a word may come to.
    pub open spec fn outcome(
        self,
        word_id: u32,
        subset: InfoSubset,
        res: SudachiResult<WordInfo>,
    ) -> bool {
        match res {
            Ok(read) => self.info(word_id, subset) == Some(
                Ok::<word_infos::InfoModel, ReadError>(read.model()),
            ),
            Err(e) => self.may_fail_with(word_id, subset, e),
        }
    }
}

impl LexiconModel {
    /// The entries for the words of a list.
    pub open spec fn list_entries(self, list: Seq<u32>, end: nat) -> Seq<LexiconEntry> {
        list.map_values(
            |raw: u32| LexiconEntry { word_id: WordId::of(self.id, raw), end: end as usize },
        )
    }

    /// The entries for the words that are listed at a place in the table.
    pub open spec fn hit_entries(self, hit: (nat, nat)) -> Option<Seq<LexiconEntry>> {
        match word_id_table::word_list(self.table, (self.table_start + hit.0) as int) {
            Some(list) => if forall|i: int|
                0 <= i < list.len() ==> #[trigger] list[i] < WORD_LIMIT {
                Some(self.list_entries(list, hit.1))
            } else {
                None
            },
            None => None,
        }
    }

    /// The entries for the first `n` hits, one after another.
    pub open spec fn entries(self, hits: Seq<(nat, nat)>, n: nat) -> Option<Seq<LexiconEntry>>
        decreases n,
    {
        if n == 0 {
            Some(Seq::empty())
        } else {
            match self.entries(hits, (n - 1) as nat) {
                None => None,
                Some(before) => match self.hit_entries(hits[n - 1]) {
                    None => None,
                    Some(own) => Some(before + own),
                },
            }
        }
    }

    /// The entries for all words whose surface is a prefix of `input[offset..]`.
    pub open spec fn lookup(self, input: Seq<u8>, offset: nat) -> Option<Seq<LexiconEntry>> {
        if self.id >= MAX_DICTIONARIES {
            None
        } else {
            match self.trie.hits(input, offset) {
                Some(hits) => self.entries(hits, hits.len()),
                None => None,
            }
        }
    }

    /// The left and right connection identifiers and the cost of a word.
    pub open spec fn word_param(self, word_id: int) -> (i16, i16, i16) {
        (self.params[3 * word_id], self.params[3 * word_id + 1], self.params[3 * word_id + 2])
    }

    /// Every word has its parameters.
    pub open spec fn wf(self) -> bool {
        &&& self.params.len() == 3 * self.words
        &&& 6 * self.words + 4 <= usize::MAX
        &&& self.trie matches TrieVariantModel::Xcdat(t) ==> t.wf()
    }
}

/// The entries for more hits begin with those for fewer.
proof fn lemma_entries_prefix(m: LexiconModel, hits: Seq<(nat, nat)>, n: nat, more: nat)
    requires
        n <= more,
        m.entries(hits, more) is Some,
    ensures
        m.entries(hits, n) is Some,
    decreases more,
{
    if n < more {
        lemma_entries_prefix(m, hits, n, (more - 1) as nat);
    }
}

/// Where the parts of a lexicon stand.
pub struct LexiconLayout {
    /// Where the units of the trie begin.
    pub trie_start: nat,
    /// Number of units.
    pub trie_size: nat,
    /// Where the lists of words begin.
    pub table_start: nat,
    /// Where the parameters of the words begin.
    pub params_start: nat,
    /// Number of words.
    pub words: u32,
    /// Where the places of the word records begin.
    pub infos_start: nat,
}

/// The lexicon that stands at `offset`: the trie, the lists of words and the parameters of words,
/// each with its size before it, and then the word records.
pub open spec fn lexicon_section(buf: Seq<u8>, offset: nat) -> Option<
    Result<LexiconLayout, error::ErrorModel>,
> {
    let trie_size = bytes::u32_at(buf, offset as int) as nat;
    let trie_start = offset + 4;
    let trie_end = trie_start + 4 * trie_size;
    let table_start = trie_end + 4;
    let table_end = table_start + bytes::u32_at(buf, trie_end as int);
    let words = bytes::u32_at(buf, table_end as int);
    let params_start = table_end + 4;
    let infos_start = params_start + 6 * words;
    if offset + 4 > buf.len() {
        Some(Err(error::ErrorModel::ParseError(ReadError::Eof)))
    } else if trie_end > usize::MAX {
        None
    } else if trie_end > buf.len() {
        Some(Err(error::ErrorModel::InvalidRange(trie_start as usize, trie_end as usize)))
    } else if trie_end + 4 > buf.len() {
        Some(Err(error::ErrorModel::ParseError(ReadError::Eof)))
    } else if table_end > usize::MAX {
        None
    } else if table_end + 4 > buf.len() {
        Some(Err(error::ErrorModel::ParseError(ReadError::Eof)))
    } else if infos_start > buf.len() {
        None
    } else {
        Some(
            Ok(
                LexiconLayout {
                    trie_start,
                    trie_size,
                    table_start,
                    params_start: params_start as nat,
                    words,
                    infos_start: infos_start as nat,
                },
            ),
        )
    }
}

/// The lexicon with the given layout.
pub open spec fn laid_out_lexicon(
    buf: Seq<u8>,
    layout: LexiconLayout,
    has_synonym_group_ids: bool,
) -> LexiconModel {
    LexiconModel {
        trie: TrieVariantModel::Yada(
            trie::TrieModel {
                units: bytes::u32s_at(buf, layout.trie_start as int, layout.trie_size),
            },
        ),
        table: buf,
        table_start: layout.table_start,
        params: bytes::i16s_at(buf, layout.params_start as int, (3 * layout.words) as nat),
        words: layout.words,
        infos: InfosModel::Flat(
            FlatModel { bytes: buf, offset: layout.infos_start, has_synonym_group_ids },
        ),
        id: NO_DICTIONARY,
    }
}

/// The lexicon at `offset` has the given units in its trie, the given bytes as its lists of words,
/// and the given bytes as the parameters of its words, two for each parameter with the lower one
/// first; the places of its word records begin at `infos_start`.
#[verifier::opaque]
pub open spec fn lexicon_reads_as(
    buf: Seq<u8>,
    offset: nat,
    units: Seq<u32>,
    table: Seq<u8>,
    words: u32,
    params: Seq<u8>,
    has_synonym_group_ids: bool,
    infos_start: nat,
) -> bool {
    &&& lexicon_section(buf, offset) matches Some(Ok(layout))
    &&& {
        let m = laid_out_lexicon(buf, layout, has_synonym_group_ids);
        let start = m.table_start as int;
        &&& m.trie == TrieVariantModel::Yada(trie::TrieModel { units })
        &&& m.table.subrange(start, start + table.len()) == table
        &&& m.words == words
        &&& m.params.len() == 3 * words
        &&& forall|k: int|
            0 <= k < 3 * words ==> #[trigger] m.params[k] == params[2 * k] + 0x100 * (if params[2
                * k + 1] < 0x80 {
                params[2 * k + 1] as int
            } else {
                params[2 * k + 1] - 0x100
            })
        &&& m.infos == InfosModel::Flat(
            FlatModel { bytes: buf, offset: infos_start, has_synonym_group_ids },
        )
    }
}

/// A lexicon is read out of its bytes: the number of units of the trie and the units, the number of
/// bytes of the lists of words and the lists, the number of words and three 16-bit integers for
/// each of them; the places of the word records begin behind these.
pub proof fn law_lexicon_is_read_out_of_its_bytes(
    buf: Seq<u8>,
    before: Seq<u8>,
    units: Seq<u32>,
    table: Seq<u8>,
    words: u32,
    params: Seq<u8>,
    rest: Seq<u8>,
    has_synonym_group_ids: bool,
)
    requires
        units.len() <= u32::MAX,
        table.len() <= u32::MAX,
        params.len() == 6 * words,
        buf == before + bytes::u32_bytes(units.len() as u32) + bytes::u32s_bytes(units)
            + bytes::u32_bytes(table.len() as u32) + table + bytes::u32_bytes(words) + params
            + rest,
        buf.len() <= usize::MAX,
    ensures
        lexicon_reads_as(
            buf,
            before.len(),
            units,
            table,
            words,
            params,
            has_synonym_group_ids,
            (buf.len() - rest.len()) as nat,
        ),
{
    let a = bytes::u32_bytes(units.len() as u32);
    let b = bytes::u32s_bytes(units);
    let c = bytes::u32_bytes(table.len() as u32);
    let d = bytes::u32_bytes(words);
    let x1 = before + a;
    let x2 = x1 + b;
    let x3 = x2 + c;
    let x4 = x3 + table;
    let x5 = x4 + d;
    let y5 = params + rest;
    let y4 = d + y5;
    let y3 = table + y4;
    let y2 = c + y3;
    let y1 = b + y2;
    lemma_regroup(x5, params, rest);
    lemma_regroup(x4, d, y5);
    lemma_regroup(x3, table, y4);
    lemma_regroup(x2, c, y3);
    lemma_regroup(x1, b, y2);
    bytes::lemma_u32s_bytes_len(units);
    lemma_number_between(before, units.len() as u32, y1);
    lemma_numbers_between(x1, units, y2);
    lemma_number_between(x2, table.len() as u32, y3);
    lemma_number_between(x4, words, y5);
    lemma_part(x3, table, y4);
    lemma_part(x5, params, rest);
    lemma_laid_out(buf, before.len(), units, table, words, params, has_synonym_group_ids);
}

/// Concatenation is associative.
proof fn lemma_regroup(x: Seq<u8>, y: Seq<u8>, z: Seq<u8>)
    ensures
        x + y + z == x + (y + z),
{
    assert(x + y + z =~= x + (y + z));
}

/// A part stands between others.
proof fn lemma_part(x: Seq<u8>, part: Seq<u8>, y: Seq<u8>)
    ensures
        is_at(x + part + y, x.len() as int, part),
{
    reveal(is_at);
}

/// A number stands at a place.
#[verifier::opaque]
spec fn is_number_at(s: Seq<u8>, p: int, v: nat) -> bool {
    bytes::u32_at(s, p) == v
}

/// Numbers stand at a place.
#[verifier::opaque]
spec fn are_numbers_at(s: Seq<u8>, p: int, vs: Seq<u32>) -> bool {
    bytes::u32s_at(s, p, vs.len()) == vs
}

/// A number stands between others.
proof fn lemma_number_between(x: Seq<u8>, v: u32, y: Seq<u8>)
    ensures
        is_number_at(x + bytes::u32_bytes(v) + y, x.len() as int, v as nat),
{
    reveal(is_number_at);
    bytes::lemma_u32_round_trip(v, x, y);
}

/// Numbers stand between others.
proof fn lemma_numbers_between(x: Seq<u8>, vs: Seq<u32>, y: Seq<u8>)
    ensures
        are_numbers_at(x + bytes::u32s_bytes(vs) + y, x.len() as int, vs),
{
    reveal(are_numbers_at);
    bytes::lemma_u32s_round_trip(vs, x, y);
}

/// The bytes of a part stand at a place.
#[verifier::opaque]
spec fn is_at(s: Seq<u8>, p: int, part: Seq<u8>) -> bool {
    forall|k: int| 0 <= k < part.len() ==> #[trigger] part[k] == s[p + k]
}

/// Where the parts of a lexicon have their sizes before them, they are found.
proof fn lemma_laid_out(
    buf: Seq<u8>,
    offset: nat,
    units: Seq<u32>,
    table: Seq<u8>,
    words: u32,
    params: Seq<u8>,
    has_synonym_group_ids: bool,
)
    requires
        params.len() == 6 * words,
        offset + 12 + 4 * units.len() + table.len() + params.len() <= buf.len() <= usize::MAX,
        is_number_at(buf, offset as int, units.len()),
        are_numbers_at(buf, offset as int + 4, units),
        is_number_at(buf, offset as int + 4 + 4 * units.len(), table.len()),
        is_number_at(buf, offset as int + 8 + 4 * units.len() + table.len(), words as nat),
        is_at(buf, offset as int + 8 + 4 * units.len(), table),
        is_at(buf, offset as int + 12 + 4 * units.len() + table.len(), params),
    ensures
        lexicon_reads_as(
            buf,
            offset,
            units,
            table,
            words,
            params,
            has_synonym_group_ids,
            offset + 12 + 4 * units.len() + table.len() + params.len(),
        ),
{
    reveal(is_number_at);
    reveal(are_numbers_at);
    reveal(is_at);
    reveal(lexicon_reads_as);
    let p = offset as int + 12 + 4 * units.len() + table.len();
    let start = offset as int + 8 + 4 * units.len();
    assert(buf.subrange(start, start + table.len()) =~= table);
    let layout = lexicon_section(buf, offset)->0->Ok_0;
    let m = laid_out_lexicon(buf, layout, has_synonym_group_ids);
    assert(layout.params_start == p);
    assert forall|k: int| 0 <= k < 3 * words implies #[trigger] m.params[k] == params[2 * k]
        + 0x100 * (if params[2 * k + 1] < 0x80 {
        params[2 * k + 1] as int
    } else {
        params[2 * k + 1] - 0x100
    }) by {
        assert(params[2 * k] == buf[p + 2 * k]);
        assert(params[2 * k + 1] == buf[p + (2 * k + 1)]);
        bytes::law_integers_are_sums_of_their_bytes(buf, p + 2 * k);
    }
}

/// The lexicon of a compressed dictionary, from its sections.
pub open spec fn xdic_lexicon(
    xcdat: Seq<u8>,
    rank_to_offset: Seq<u32>,
    rest: Seq<u8>,
    word_count: nat,
    chunked: Seq<u8>,
    chunk_size: nat,
    has_synonym_group_ids: bool,
) -> Option<LexiconModel> {
    let table_size = bytes::u32_at(rest, 0) as nat;
    let p = 4 + table_size;
    let words = bytes::u32_at(rest, p as int);
    if rest.len() < 4 || rest.len() < p + 4 || rest.len() < p + 4 + 6 * words {
        None
    } else {
        match xcdat_trie::trie_in(xcdat, rank_to_offset) {
            None => None,
            Some(t) => match word_infos::chunked_section(
                chunked,
                word_count,
                chunk_size,
                has_synonym_group_ids,
            ) {
                None => None,
                Some(infos) => Some(
                    LexiconModel {
                        trie: TrieVariantModel::Xcdat(t),
                        table: rest,
                        table_start: 4,
                        params: bytes::i16s_at(rest, p as int + 4, (3 * words) as nat),
                        words,
                        infos: InfosModel::Chunked(infos),
                        id: NO_DICTIONARY,
                    },
                ),
            },
        }
    }
}

enum TrieVariant<'a> {
    Yada(Trie<'a>),
    Xcdat(XcdatTrie),
}

enum WordInfosVariant<'a> {
    Flat(WordInfos<'a>),
    Chunked(ChunkedWordInfos),
}

/// Dictionary lexicon
///
/// Contains the trie, the lists of words with the same surface, the parameters and the records of
/// the words.
pub struct Lexicon<'a> {
    trie: TrieVariant<'a>,
    word_id_table: WordIdTable<'a>,
    word_params: WordParams<'a>,
    word_infos: WordInfosVariant<'a>,
    lex_id: u8,
}

impl<'a> Lexicon<'a> {
    /// What the lexicon holds.
    pub closed spec fn model(self) -> LexiconModel {
        LexiconModel {
            trie: match self.trie {
                TrieVariant::Yada(t) => TrieVariantModel::Yada(t.model()),
                TrieVariant::Xcdat(t) => TrieVariantModel::Xcdat(t.model()),
            },
            table: self.word_id_table.source(),
            table_start: self.word_id_table.start(),
            params: self.word_params.params(),
            words: self.word_params.words(),
            infos: match self.word_infos {
                WordInfosVariant::Flat(m) => InfosModel::Flat(m.model()),
                WordInfosVariant::Chunked(m) => InfosModel::Chunked(m.model()),
            },
            id: self.lex_id,
        }
    }

    /// Reads the lexicon that stands at `original_offset`. Returns it and the place where its
    /// word records begin, or nothing where the parameters of words are cut off.
    pub fn checked_parse(buf: &'a [u8], original_offset: usize, has_synonym_group_ids: bool) -> (
        res: Option<SudachiResult<(Lexicon<'a>, usize)>>)
        ensures
            match lexicon_section(buf@, original_offset as nat) {
                Some(Ok(layout)) => res matches Some(Ok((lexicon, infos_start))) && {
                    &&& lexicon.model() == laid_out_lexicon(buf@, layout, has_synonym_group_ids)
                    &&& lexicon.model().wf()
                    &&& infos_start == layout.infos_start
                },
                Some(Err(e)) => res matches Some(Err(got)) && got.model() == e,
                None => res is None,
            },
    {
        assert(buf.len() == buf@.len());
        let mut offset: usize = original_offset;
        let trie_size: u32 = match u32_parser_offset(buf, offset) {
            Ok(size) => size,
            Err(e) => {
                return Some(Err(e));
            },
        };
        offset = offset + 4;
        if trie_size as usize > (usize::MAX - offset) / 4 {
            return None;
        }
        let trie_array = match trie_array_parser(buf, offset, trie_size) {
            Ok(array) => array,
            Err(e) => {
                return Some(Err(e));
            },
        };
        let trie: Trie<'a> = Trie::new(trie_array, trie_size as usize);
        proof {
            let units = bytes::u32s_at(buf@, offset as int, trie_size as nat);
            assert forall|i: int| 0 <= i < trie_size implies #[trigger] trie.model().units[i]
                == units[i] by {
                assert(trie_array@.subrange(4 * i, 4 * i + 4) =~= buf@.subrange(
                    offset + 4 * i,
                    offset + 4 * i + 4,
                ));
                bytes::lemma_u32_local(trie_array@, 4 * i, buf@, offset + 4 * i);
            }
            assert(trie.model().units =~= units);
        }
        offset = offset + trie.total_size();

        let word_id_table_size: u32 = match u32_parser_offset(buf, offset) {
            Ok(size) => size,
            Err(e) => {
                return Some(Err(e));
            },
        };
        if word_id_table_size as usize > usize::MAX - offset - 4 {
            return None;
        }
        let word_id_table: WordIdTable<'a> = WordIdTable::new(buf, word_id_table_size, offset + 4);
        offset = offset + word_id_table.storage_size();

        let word_params_size: u32 = match u32_parser_offset(buf, offset) {
            Ok(size) => size,
            Err(e) => {
                return Some(Err(e));
            },
        };
        if word_params_size as usize > (buf.len() - offset - 4) / 6 {
            return None;
        }
        let word_params: WordParams<'a> = WordParams::new(buf, word_params_size, offset + 4);
        offset = offset + word_params.storage_size();

        let word_infos_offset: usize = offset;
        let word_infos: WordInfos<'a> = WordInfos::new(
            buf,
            offset,
            word_params.size(),
            has_synonym_group_ids,
        );
        let lexicon: Lexicon<'a> = Lexicon {
            trie: TrieVariant::Yada(trie),
            word_id_table,
            word_params,
            word_infos: WordInfosVariant::Flat(word_infos),
            lex_id: NO_DICTIONARY,
        };
        Some(Ok((lexicon, word_infos_offset)))
    }

    /// Reads the lexicon that stands at `original_offset`. Returns it and the place where its
    /// word records begin.
    pub fn parse(buf: &'a [u8], original_offset: usize, has_synonym_group_ids: bool) -> (res:
        SudachiResult<(Lexicon<'a>, usize)>)
        requires
            lexicon_section(buf@, original_offset as nat) is Some,
        ensures
            match lexicon_section(buf@, original_offset as nat).unwrap() {
                Ok(layout) => res matches Ok((lexicon, infos_start)) && {
                    &&& lexicon.model() == laid_out_lexicon(buf@, layout, has_synonym_group_ids)
                    &&& lexicon.model().wf()
                    &&& infos_start == layout.infos_start
                },
                Err(e) => res matches Err(got) && got.model() == e,
            },
    {
        match Lexicon::checked_parse(buf, original_offset, has_synonym_group_ids) {
            Some(res) => res,
            None => Err(SudachiError::ParseError(ReadError::Eof)),
        }
    }

    /// Makes a lexicon of the sections of a compressed dictionary.
    ///
    /// - `xcdat_bytes`: the trie
    /// - `rank_to_offset`: for each key of the trie, by its rank, the place of its words in the
    ///   table of word lists
    /// - `rest`: the table of word lists and the parameters of words, as in an uncompressed
    ///   dictionary
    /// - `chunked_wi_data`: the word records of `word_count` words in chunks of `chunk_size`
    ///
    /// Returns nothing where a section is cut off.
    pub fn checked_parse_xdic(
        xcdat_bytes: &[u8],
        rank_to_offset: &[u32],
        rest: &'a [u8],
        word_count: usize,
        chunked_wi_data: &[u8],
        chunk_size: usize,
        has_synonym_group_ids: bool,
    ) -> (res: Option<Lexicon<'a>>)
        ensures
            match xdic_lexicon(
                xcdat_bytes@,
                rank_to_offset@,
                rest@,
                word_count as nat,
                chunked_wi_data@,
                chunk_size as nat,
                has_synonym_group_ids,
            ) {
                Some(model) => res matches Some(lexicon) && lexicon.model() == model
                    && lexicon.model().wf(),
                None => res is None,
            },
    {
        let len: usize = rest.len();
        if len < 4 {
            return None;
        }
        let word_id_table_size: u32 = bytes::read_u32(rest, 0);
        if word_id_table_size as usize > len - 4 || len - 4 - (word_id_table_size as usize) < 4 {
            return None;
        }
        let word_id_table: WordIdTable<'a> = WordIdTable::new(rest, word_id_table_size, 4);
        let offset: usize = word_id_table.storage_size();

        let word_params_size: u32 = bytes::read_u32(rest, offset);
        if word_params_size as usize > (len - offset - 4) / 6 {
            return None;
        }
        let word_params: WordParams<'a> = WordParams::new(rest, word_params_size, offset + 4);

        let trie: XcdatTrie = XcdatTrie::checked_parse(xcdat_bytes, slice_to_vec(rank_to_offset))?;
        let chunked: ChunkedWordInfos = ChunkedWordInfos::checked_new(
            chunked_wi_data,
            word_count,
            chunk_size,
            has_synonym_group_ids,
        )?;
        Some(
            Lexicon {
                trie: TrieVariant::Xcdat(trie),
                word_id_table,
                word_params,
                word_infos: WordInfosVariant::Chunked(chunked),
                lex_id: NO_DICTIONARY,
            },
        )
    }

    /// Makes a lexicon of the sections of a compressed dictionary, as
    /// [`Lexicon::checked_parse_xdic`] does.
    pub fn parse_xdic(
        xcdat_bytes: &[u8],
        rank_to_offset: &[u32],
        rest: &'a [u8],
        word_count: usize,
        chunked_wi_data: &[u8],
        chunk_size: usize,
        has_synonym_group_ids: bool,
    ) -> (res: SudachiResult<Lexicon<'a>>)
        requires
            xdic_lexicon(
                xcdat_bytes@,
                rank_to_offset@,
                rest@,
                word_count as nat,
                chunked_wi_data@,
                chunk_size as nat,
                has_synonym_group_ids,
            ) is Some,
        ensures
            res matches Ok(lexicon) && lexicon.model().wf() && Some(lexicon.model())
                == xdic_lexicon(
                xcdat_bytes@,
                rank_to_offset@,
                rest@,
                word_count as nat,
                chunked_wi_data@,
                chunk_size as nat,
                has_synonym_group_ids,
            ),
    {
        match Lexicon::checked_parse_xdic(
            xcdat_bytes,
            rank_to_offset,
            rest,
            word_count,
            chunked_wi_data,
            chunk_size,
            has_synonym_group_ids,
        ) {
            Some(lexicon) => Ok(lexicon),
            None => Err(SudachiError::ParseError(ReadError::Eof)),
        }
    }

    /// Assigns the identifier of the lexicon.
    pub fn set_dic_id(&mut self, id: u8)
        requires
            id < MAX_DICTIONARIES,
        ensures
            final(self).model() == (LexiconModel { id, ..old(self).model() }),
    {
        self.lex_id = id;
    }

    /// The place in the table of word lists for the key `input[offset..]`, if the trie holds it.
    /// Only for lexicons with an uncompressed trie.
    pub fn lookup_raw(&self, input: &[u8], offset: usize) -> (place: Option<u32>)
        requires
            self.model().trie matches TrieVariantModel::Yada(t) && t.hits(
                input@,
                offset as nat,
            ) is Some,
        ensures
            self.model().trie matches TrieVariantModel::Yada(t) && place == if offset
                <= input@.len() {
                t.stored(input@.subrange(offset as int, input@.len() as int))
            } else {
                None
            },
    {
        match &self.trie {
            TrieVariant::Yada(trie) => {
                let ghost t = trie.model();
                let ghost hits = t.hits(input@, offset as nat).unwrap();
                let ghost key = input@.subrange(offset as int, input@.len() as int);
                let ghost mut done: int = 0;
                assert(hits.skip(0) =~= hits);
                proof {
                    if offset <= input@.len() {
                        trie::law_search_finds_stored_prefixes(t, input@, offset as nat);
                    }
                }
                let mut iter = trie.common_prefix_iterator(input, offset);
                loop
                    invariant
                        t == trie.model(),
                        0 <= done <= hits.len(),
                        iter.remaining() == Some(hits.skip(done)),
                        self.model().trie == TrieVariantModel::Yada(t),
                        t.hits(input@, offset as nat) == Some(hits),
                        key == input@.subrange(offset as int, input@.len() as int),
                        offset <= input@.len() ==> forall|value: u32, end: nat|
                            offset <= end <= input@.len() ==> (#[trigger] hits.contains(
                                (value, end),
                            ) <==> t.stored(input@.subrange(offset as int, end as int)) == Some(
                                value,
                            )),
                        offset > input@.len() ==> hits.len() == 0,
                        forall|i: int| 0 <= i < done ==> (#[trigger] hits[i]).1 != input@.len(),
                    decreases hits.len() - done,
                {
                    match iter.next() {
                        None => {
                            assert(hits.skip(done).len() == 0);
                            proof {
                                if offset <= input@.len() {
                                    if let Some(value) = t.stored(key) {
                                        assert(hits.contains((value, input@.len())));
                                    }
                                }
                            }
                            return None;
                        },
                        Some(entry) => {
                            assert(hits.skip(done)[0] == hits[done]);
                            if entry.end == input.len() {
                                assert(hits.contains((entry.value, input@.len())));
                                return Some(entry.value);
                            }
                            proof {
                                assert(hits.skip(done).drop_first() =~= hits.skip(done + 1));
                                done = done + 1;
                            }
                        },
                    }
                }
            },
            TrieVariant::Xcdat(_) => None,
        }
    }

    /// The place in the table of word lists for the key `input[offset..]`, as
    /// [`Lexicon::lookup_raw`] finds it. Returns nothing where the trie is compressed, or leads
    /// out of its units.
    pub fn checked_lookup_raw(&self, input: &[u8], offset: usize) -> (found: Option<Option<u32>>)
        ensures
            match self.model().trie {
                TrieVariantModel::Yada(t) => if t.hits(input@, offset as nat) is Some {
                    found == Some(
                        if offset <= input@.len() {
                            t.stored(input@.subrange(offset as int, input@.len() as int))
                        } else {
                            None
                        },
                    )
                } else {
                    found is None
                },
                TrieVariantModel::Xcdat(_) => found is None,
            },
    {
        match &self.trie {
            TrieVariant::Yada(trie) => match trie.checked_search(input, offset) {
                None => None,
                Some(_) => Some(self.lookup_raw(input, offset)),
            },
            TrieVariant::Xcdat(_) => None,
        }
    }

    /// The places in the table of word lists for the stored prefixes of `input[offset..]`, with
    /// the ends of the prefixes. Returns nothing where the search leads out of what is stored.
    fn hits(&self, input: &[u8], offset: usize) -> (found: Option<Vec<(u64, usize)>>)
        requires
            self.model().wf(),
        ensures
            match self.model().trie.hits(input@, offset as nat) {
                Some(hits) => found matches Some(got) && hits == got@.map_values(
                    |hit: (u64, usize)| (hit.0 as nat, hit.1 as nat),
                ),
                None => found is None,
            },
    {
        let mut found: Vec<(u64, usize)> = Vec::new();
        let ghost as_hit = |hit: (u64, usize)| (hit.0 as nat, hit.1 as nat);
        match &self.trie {
            TrieVariant::Yada(trie) => match trie.checked_search(input, offset) {
                None => None,
                Some(entries) => {
                    let mut i: usize = 0;
                    while i < entries.len()
                        invariant
                            i <= entries@.len(),
                            found@.len() == i,
                            forall|k: int|
                                0 <= k < i ==> #[trigger] found@[k] == (
                                    entries@[k].value as u64,
                                    entries@[k].end,
                                ),
                        decreases entries@.len() - i,
                    {
                        let entry: TrieEntry = entries[i];
                        found.push((entry.value as u64, entry.end));
                        i = i + 1;
                    }
                    proof {
                        let hits = self.model().trie.hits(input@, offset as nat).unwrap();
                        assert(hits =~= found@.map_values(as_hit));
                    }
                    Some(found)
                },
            },
            TrieVariant::Xcdat(trie) => match trie.checked_search(input, offset) {
                None => None,
                Some(entries) => {
                    let mut i: usize = 0;
                    while i < entries.len()
                        invariant
                            i <= entries@.len(),
                            found@.len() == i,
                            forall|k: int|
                                0 <= k < i ==> #[trigger] found@[k] == (
                                    entries@[k].value,
                                    entries@[k].end,
                                ),
                        decreases entries@.len() - i,
                    {
                        let entry: XcdatEntry = entries[i];
                        found.push((entry.value, entry.end));
                        i = i + 1;
                    }
                    proof {
                        let hits = self.model().trie.hits(input@, offset as nat).unwrap();
                        assert(hits =~= found@.map_values(as_hit));
                    }
                    Some(found)
                },
            },
        }
    }

    /// Appends the entries for the words that are listed at a place in the table. Returns
    /// whether there is such a list of proper word numbers.
    fn push_hit_entries(&self, place: u64, end: usize, out: &mut Vec<LexiconEntry>) -> (ok: bool)
        requires
            self.model().id < MAX_DICTIONARIES,
        ensures
            match self.model().hit_entries((place as nat, end as nat)) {
                Some(own) => ok && final(out)@ == old(out)@ + own,
                None => !ok,
            },
    {
        if place > usize::MAX as u64 {
            assert(self.word_id_table.source().len() <= usize::MAX) by {
                self.word_id_table.lemma_source_len();
            }
            return false;
        }
        let ghost m = self.model();
        match self.word_id_table.checked_entries(place as usize) {
            None => false,
            Some(list) => {
                let ghost listed = m.list_entries(list@, end as nat);
                let mut i: usize = 0;
                assert(old(out)@ + listed.take(0) =~= old(out)@);
                while i < list.len()
                    invariant
                        i <= list@.len(),
                        m == self.model(),
                        m.id < MAX_DICTIONARIES,
                        listed == m.list_entries(list@, end as nat),
                        word_id_table::word_list(m.table, (m.table_start + place) as int) == Some(
                            list@,
                        ),
                        forall|k: int| 0 <= k < i ==> #[trigger] list@[k] < WORD_LIMIT,
                        out@ == old(out)@ + listed.take(i as int),
                    decreases list@.len() - i,
                {
                    let raw: u32 = list[i];
                    if raw >= WORD_LIMIT {
                        assert(!(list@[i as int] < WORD_LIMIT));
                        return false;
                    }
                    out.push(LexiconEntry::new(self.word_id(raw), end));
                    i = i + 1;
                    assert(listed.take(i as int) =~= listed.take(i - 1).push(listed[i - 1]));
                    assert(out@ =~= old(out)@ + listed.take(i as int));
                }
                assert(listed.take(i as int) =~= listed);
                true
            },
        }
    }

    /// The identifier of a word of this lexicon.
    fn word_id(&self, raw_id: u32) -> (id: WordId)
        requires
            self.model().id < MAX_DICTIONARIES,
            raw_id < WORD_LIMIT,
        ensures
            id == WordId::of(self.model().id, raw_id),
    {
        WordId::new(self.lex_id, raw_id)
    }

    /// The entries for all words whose surface is a prefix of `input[offset..]`. Returns nothing
    /// where the lexicon has no identifier, or the search leads out of what is stored.
    pub fn checked_lookup(&self, input: &[u8], offset: usize) -> (found: Option<Vec<LexiconEntry>>)
        requires
            self.model().wf(),
        ensures
            match self.model().lookup(input@, offset as nat) {
                Some(entries) => found matches Some(got) && got@ == entries,
                None => found is None,
            },
    {
        if self.lex_id as usize >= MAX_DICTIONARIES {
            return None;
        }
        let hits: Vec<(u64, usize)> = match self.hits(input, offset) {
            Some(hits) => hits,
            None => {
                return None;
            },
        };
        let ghost m = self.model();
        let ghost model_hits = m.trie.hits(input@, offset as nat).unwrap();
        let mut out: Vec<LexiconEntry> = Vec::new();
        let mut i: usize = 0;
        while i < hits.len()
            invariant
                i <= hits@.len(),
                m == self.model(),
                m.id < MAX_DICTIONARIES,
                m.trie.hits(input@, offset as nat) == Some(model_hits),
                model_hits == hits@.map_values(
                    |hit: (u64, usize)| (hit.0 as nat, hit.1 as nat),
                ),
                m.entries(model_hits, i as nat) == Some(out@),
            decreases hits@.len() - i,
        {
            let (place, end) = hits[i];
            assert(model_hits[i as int] == (place as nat, end as nat));
            if !self.push_hit_entries(place, end, &mut out) {
                proof {
                    if m.entries(model_hits, model_hits.len()) is Some {
                        lemma_entries_prefix(m, model_hits, (i + 1) as nat, model_hits.len());
                    }
                }
                return None;
            }
            i = i + 1;
        }
        Some(out)
    }

    /// The entries for all words whose surface is a prefix of `input[offset..]`.
    pub fn lookup(&self, input: &[u8], offset: usize) -> (iter: LookupIter)
        requires
            self.model().wf(),
            self.model().lookup(input@, offset as nat) is Some,
        ensures
            self.model().lookup(input@, offset as nat) == Some(iter.remaining()),
            self.model().trie is Yada <==> iter is Yada,
    {
        let entries: Vec<LexiconEntry> = match self.checked_lookup(input, offset) {
            Some(entries) => entries,
            None => Vec::new(),
        };
        let list = EntryList { entries, pos: 0 };
        assert(list.remaining() =~= list.entries@);
        match &self.trie {
            TrieVariant::Yada(_) => LookupIter::Yada(list),
            TrieVariant::Xcdat(_) => LookupIter::Xcdat(list),
        }
    }

    /// The record of a word, as far as it is asked for. Returns nothing where the records do not
    /// answer for the word.
    pub fn checked_word_info(&self, word_id: u32, subset: InfoSubset) -> (res: Option<
        SudachiResult<WordInfo>,
    >)
        ensures
            match res {
                Some(info) => self.model().infos.outcome(word_id, subset, info),
                None => !self.model().infos.answers(word_id, subset),
            },
    {
        match &self.word_infos {
            WordInfosVariant::Flat(infos) => infos.checked_word_info(word_id, subset),
            WordInfosVariant::Chunked(infos) => infos.checked_word_info(word_id, subset),
        }
    }

    /// The record of a word, as far as it is asked for.
    pub fn get_word_info(&self, word_id: u32, subset: InfoSubset) -> (res: SudachiResult<WordInfo>)
        requires
            self.model().infos.answers(word_id, subset),
        ensures
            self.model().infos.outcome(word_id, subset, res),
    {
        match &self.word_infos {
            WordInfosVariant::Flat(infos) => infos.get_word_info(word_id, subset),
            WordInfosVariant::Chunked(infos) => infos.get_word_info(word_id, subset),
        }
    }

    /// The left and right connection identifiers and the cost of a word.
    pub fn get_word_param(&self, word_id: u32) -> (param: (i16, i16, i16))
        requires
            self.model().wf(),
            word_id < self.model().words,
        ensures
            param == self.model().word_param(word_id as int),
    {
        self.word_params.get_params(word_id)
    }

    /// Number of words.
    pub fn size(&self) -> (size: u32)
        ensures
            size == self.model().words,
    {
        self.word_params.size()
    }

    /// Number of bytes of an uncompressed trie and of its size before it.
    pub fn trie_storage_size(&self) -> (size: usize)
        requires
            self.model().trie matches TrieVariantModel::Yada(t) ==> 4 + 4 * t.units.len()
                <= usize::MAX,
        ensures
            size == match self.model().trie {
                TrieVariantModel::Yada(t) => 4 + 4 * t.units.len(),
                TrieVariantModel::Xcdat(_) => 0,
            },
    {
        match &self.trie {
            TrieVariant::Yada(trie) => 4 + trie.total_size(),
            TrieVariant::Xcdat(_) => 0,
        }
    }

    /// Number of words, and number of bytes of the places of their records.
    pub fn word_infos_layout(&self, _dict_bytes: &[u8]) -> (layout: (usize, usize))
        requires
            self.model().wf(),
        ensures
            layout.0 == self.model().words,
            layout.1 == 4 * self.model().words,
    {
        let word_count: usize = self.word_params.size() as usize;
        (word_count, word_count * 4)
    }
}

/// Entries that are handed out one by one.
pub struct EntryList {
    entries: Vec<LexiconEntry>,
    pos: usize,
}

impl EntryList {
    /// The entries that are still to come.
    pub closed spec fn remaining(self) -> Seq<LexiconEntry> {
        if self.pos <= self.entries@.len() {
            self.entries@.skip(self.pos as int)
        } else {
            Seq::empty()
        }
    }

    /// The next entry, if there is one.
    fn next(&mut self) -> (entry: Option<LexiconEntry>)
        ensures
            match entry {
                Some(e) => {
                    &&& old(self).remaining().len() > 0
                    &&& e == old(self).remaining()[0]
                    &&& final(self).remaining() == old(self).remaining().drop_first()
                },
                None => {
                    &&& old(self).remaining().len() == 0
                    &&& final(self).remaining() == old(self).remaining()
                },
            },
    {
        if self.pos < self.entries.len() {
            let entry: LexiconEntry = self.entries[self.pos];
            self.pos = self.pos + 1;
            assert(self.remaining() =~= old(self).remaining().drop_first());
            Some(entry)
        } else {
            None
        }
    }
}

/// Entries that a lookup found, from either kind of trie.
pub enum LookupIter {
    Yada(EntryList),
    Xcdat(EntryList),
}

impl LookupIter {
    /// The entries that are still to come.
    pub open spec fn remaining(self) -> Seq<LexiconEntry> {
        match self {
            LookupIter::Yada(list) => list.remaining(),
            LookupIter::Xcdat(list) => list.remaining(),
        }
    }

    /// The next entry, if there is one.
    pub fn next(&mut self) -> (entry: Option<LexiconEntry>)
        ensures
            match entry {
                Some(e) => {
                    &&& old(self).remaining().len() > 0
                    &&& e == old(self).remaining()[0]
                    &&& final(self).remaining() == old(self).remaining().drop_first()
                },
                None => {
                    &&& old(self).remaining().len() == 0
                    &&& final(self).remaining() == old(self).remaining()
                },
            },
    {
        match self {
            LookupIter::Yada(list) => list.next(),
            LookupIter::Xcdat(list) => list.next(),
        }
    }
}

/// The 32-bit integer that stands at `offset`.
fn u32_parser_offset(input: &[u8], offset: usize) -> (res: SudachiResult<u32>)
    ensures
        if offset + 4 > input.len() {
            res matches Err(e) && e == SudachiError::ParseError(ReadError::Eof)
        } else {
            res matches Ok(value) && value == bytes::u32_at(input@, offset as int)
        },
{
    if offset > input.len() || input.len() - offset < 4 {
        return Err(SudachiError::ParseError(ReadError::Eof));
    }
    Ok(bytes::read_u32(input, offset))
}

/// The bytes of `trie_size` units that stand at `offset`.
fn trie_array_parser(input: &[u8], offset: usize, trie_size: u32) -> (res: SudachiResult<&[u8]>)
    requires
        offset + 4 * trie_size <= usize::MAX,
    ensures
        if offset + 4 * trie_size > input.len() {
            res matches Err(e) && e == SudachiError::InvalidRange(
                offset,
                (offset + 4 * trie_size) as usize,
            )
        } else {
            res matches Ok(array) && array@ == input@.subrange(
                offset as int,
                offset + 4 * trie_size,
            )
        },
{
    let trie_end: usize = offset + 4 * trie_size as usize;
    if input.len() < trie_end {
        return Err(SudachiError::InvalidRange(offset, trie_end));
    }
    Ok(slice_subrange(input, offset, trie_end))
}

} // verus!
