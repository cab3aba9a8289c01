//! Compressed dictionaries.
//!
//! All lengths are 32-bit integers, little-endian:
//!
//! ```text
//! [header]
//! [grammar_zstd_len][grammar_zstd]
//! [xcdat_len][xcdat trie]
//! [rank_to_offset_count][rank_to_offset]
//! [rest_len][lists and parameters of words]
//! [wi_index_len][places of the word records]
//! [zdict_len][zdict]
//! [chunk_count][places of the chunks][chunks]
//! ```

use vstd::prelude::*;
use vstd::slice::slice_subrange;

use crate::bytes;
use crate::dic::character_category::{CategoryRange, CharacterCategory};
use crate::dic::grammar;
use crate::dic::grammar::{Grammar, GrammarModel};
use crate::dic::header;
use crate::dic::header::{Header, HeaderModel, STORAGE_SIZE};
use crate::dic::lexicon;
use crate::dic::lexicon::{Lexicon, LexiconModel};
use crate::dic::lexicon_set::LexiconSet;
use crate::dic::zstandard;
use crate::dic::zstandard::DecompressError;
use crate::dic::{LoadedDictionary, LoadedModel};
use crate::error;
use crate::error::{SudachiError, SudachiResult};
use crate::plugin::oov;
use crate::plugin::oov::{MeCabOovPlugin, OovSettings};

verus! {

/// Number of bytes up to which the grammar is decompressed.
pub const GRAMMAR_CAPACITY: usize = 134217728;

/// Where the section at `p` ends, which has its length before it.
pub open spec fn section_end(d: Seq<u8>, p: int) -> Option<int> {
    if p + 4 > d.len() || p + 4 + bytes::u32_at(d, p) > d.len() {
        None
    } else {
        Some(p + 4 + bytes::u32_at(d, p))
    }
}

/// The sections of a compressed dictionary.
pub struct SectionsModel {
    pub header: Seq<u8>,
    pub grammar_zstd: Seq<u8>,
    pub xcdat: Seq<u8>,
    pub rank_to_offset: Seq<u32>,
    pub rest: Seq<u8>,
    /// Number of word records.
    pub word_count: nat,
    pub zdict: Seq<u8>,
    /// The places of the word records and what is behind.
    pub chunked: Seq<u8>,
}

/// The sections of the compressed dictionary in `d`.
pub open spec fn sections_in(d: Seq<u8>) -> Option<SectionsModel> {
    let p0 = STORAGE_SIZE as int;
    match section_end(d, p0) {
        None => None,
        Some(p1) => match section_end(d, p1) {
            None => None,
            Some(p2) => {
                let ranks = bytes::u32_at(d, p2) as nat;
                let p3 = p2 + 4 + 4 * ranks;
                if p2 + 4 > d.len() || p3 > d.len() {
                    None
                } else {
                    match section_end(d, p3) {
                        None => None,
                        Some(p4) => match section_end(d, p4) {
                            None => None,
                            Some(p5) => match section_end(d, p5) {
                                None => None,
                                Some(p6) => Some(
                                    SectionsModel {
                                        header: d.take(p0),
                                        grammar_zstd: d.subrange(p0 + 4, p1),
                                        xcdat: d.subrange(p1 + 4, p2),
                                        rank_to_offset: bytes::u32s_at(d, p2 + 4, ranks),
                                        rest: d.subrange(p3 + 4, p4),
                                        word_count: (bytes::u32_at(d, p4) / 4) as nat,
                                        zdict: d.subrange(p5 + 4, p6),
                                        chunked: d.skip(p4 + 4),
                                    },
                                ),
                            },
                        },
                    }
                }
            },
        },
    }
}

/// The lexicon of a compressed dictionary with the given sections.
pub open spec fn lexicon_of(
    s: SectionsModel,
    header: HeaderModel,
    chunk_size: nat,
) -> Option<LexiconModel> {
    lexicon::xdic_lexicon(
        s.xcdat,
        s.rank_to_offset,
        s.rest,
        s.word_count,
        s.chunked,
        chunk_size,
        header::version_has_synonyms(header.version),
    )
}

/// The set of a compressed system dictionary alone.
pub open spec fn xdic_model(
    grammar: GrammarModel,
    lexicon: LexiconModel,
    categories: Seq<oov::CategoryInfo>,
    oovs: Seq<oov::Oov>,
) -> LoadedModel {
    LoadedModel {
        oov_providers: seq![(categories, oovs)],
        ..crate::dic::system_model(grammar, lexicon)
    }
}

/// What loading a compressed dictionary comes to where its grammar is what decompressing gave.
pub open spec fn loaded_from(
    s: SectionsModel,
    header: HeaderModel,
    grammar: Option<Seq<u8>>,
    ranges: Seq<CategoryRange>,
    settings: OovSettings,
    chunk_size: nat,
) -> Option<Result<LoadedModel, error::ErrorModel>> {
    let broken = error::ErrorModel::InvalidDictionaryGrammar;
    match grammar {
        None => Some(Err(broken)),
        Some(g) => match grammar::grammar_section(g, 0) {
            None => None,
            Some(Err(e)) => Some(Err(e)),
            Some(Ok(gm)) => match oov::resolved(
                settings.definitions@,
                gm.pos_list,
                settings.definitions@.len(),
            ) {
                None => Some(Err(broken)),
                Some(oovs) => match lexicon_of(s, header, chunk_size) {
                    None => None,
                    Some(lexicon) => Some(
                        Ok(
                            xdic_model(
                                GrammarModel { ranges, ..gm },
                                lexicon,
                                settings.categories@,
                                oovs,
                            ),
                        ),
                    ),
                },
            },
        },
    }
}

/// Loading a compressed dictionary meets no section that is cut off: neither of the dictionary
/// nor, once it is decompressed, of its grammar.
pub open spec fn loadable(d: Seq<u8>, settings: OovSettings, chunk_size: nat) -> bool {
    &&& d.len() >= STORAGE_SIZE
    &&& header::header_in(d.take(STORAGE_SIZE as int)) matches Ok(header) ==> {
        &&& sections_in(d) matches Some(s)
        &&& zstandard::zstd_content(s.zdict, s.grammar_zstd) matches Some(g) ==> loaded_from(
            s,
            header,
            Some(g),
            Seq::empty(),
            settings,
            chunk_size,
        ) is Some
    }
}

/// The compressed dictionary in `d` loads as `model`.
pub open spec fn loads_as(
    d: Seq<u8>,
    ranges: Seq<CategoryRange>,
    settings: OovSettings,
    chunk_size: nat,
    model: LoadedModel,
) -> bool {
    &&& header::header_in(d.take(STORAGE_SIZE as int)) matches Ok(header)
    &&& sections_in(d) matches Some(s)
    &&& zstandard::zstd_content(s.zdict, s.grammar_zstd) matches Some(grammar)
    &&& loaded_from(s, header, Some(grammar), ranges, settings, chunk_size) == Some(
        Ok::<LoadedModel, error::ErrorModel>(model),
    )
}

/// Loading the compressed dictionary in `d` may fail with `e`: its header, its grammar or the
/// settings are not accepted, or the grammar has no content, one that is too large, or one that
/// the encoder did not make.
pub open spec fn load_fails(
    d: Seq<u8>,
    ranges: Seq<CategoryRange>,
    settings: OovSettings,
    chunk_size: nat,
    e: error::ErrorModel,
) -> bool {
    match header::header_in(d.take(STORAGE_SIZE as int)) {
        Err(header_error) => e == header_error,
        Ok(header) => {
            &&& sections_in(d) matches Some(s)
            &&& {
                ||| {
                    &&& e == error::ErrorModel::InvalidDictionaryGrammar
                    &&& zstandard::zstd_content(s.zdict, s.grammar_zstd) matches Some(grammar)
                    &&& grammar.len() > GRAMMAR_CAPACITY || !zstandard::is_made(
                        s.zdict,
                        s.grammar_zstd,
                    )
                }
                ||| loaded_from(
                    s,
                    header,
                    zstandard::zstd_content(s.zdict, s.grammar_zstd),
                    ranges,
                    settings,
                    chunk_size,
                ) == Some(Err::<LoadedModel, error::ErrorModel>(e))
            }
        },
    }
}

/// `res` is what loading a compressed dictionary may come to.
pub open spec fn load_outcome(
    d: Seq<u8>,
    ranges: Seq<CategoryRange>,
    settings: OovSettings,
    chunk_size: nat,
    res: SudachiResult<LoadedDictionary>,
) -> bool {
    match res {
        Ok(dict) => loads_as(d, ranges, settings, chunk_size, dict.model()) && dict.wf(),
        Err(e) => load_fails(d, ranges, settings, chunk_size, e.model()),
    }
}

/// A compressed dictionary that loads as a model, with a grammar that the encoder made and that is
/// not too large, is loaded: it is neither rejected nor loaded as anything else.
pub proof fn law_what_loads_is_loaded(
    d: Seq<u8>,
    ranges: Seq<CategoryRange>,
    settings: OovSettings,
    chunk_size: nat,
    model: LoadedModel,
    res: SudachiResult<LoadedDictionary>,
)
    requires
        loads_as(d, ranges, settings, chunk_size, model),
        sections_in(d) matches Some(s) && zstandard::zstd_content(
            s.zdict,
            s.grammar_zstd,
        ) matches Some(grammar) && grammar.len() <= GRAMMAR_CAPACITY && zstandard::is_made(
            s.zdict,
            s.grammar_zstd,
        ),
        load_outcome(d, ranges, settings, chunk_size, res),
    ensures
        res matches Ok(dict) && dict.model() == model && dict.wf(),
{
}

/// The sections of a compressed dictionary.
pub struct Sections<'a> {
    pub header: &'a [u8],
    pub grammar_zstd: &'a [u8],
    pub xcdat: &'a [u8],
    pub rank_to_offset: Vec<u32>,
    pub rest: &'a [u8],
    pub word_count: usize,
    pub zdict: &'a [u8],
    pub chunked: &'a [u8],
}

/// Where the section at `p` ends, if it is there.
fn find_section_end(d: &[u8], p: usize) -> (end: Option<usize>)
    ensures
        match section_end(d@, p as int) {
            Some(e) => end matches Some(got) && got == e && p + 4 <= got <= d.len(),
            None => end is None,
        },
{
    if p > d.len() || d.len() - p < 4 {
        return None;
    }
    let n: usize = bytes::read_u32(d, p) as usize;
    if d.len() - p - 4 < n {
        return None;
    }
    Some(p + 4 + n)
}

impl<'a> Sections<'a> {
    /// The bytes of the sections.
    pub open spec fn model(self) -> SectionsModel {
        SectionsModel {
            header: self.header@,
            grammar_zstd: self.grammar_zstd@,
            xcdat: self.xcdat@,
            rank_to_offset: self.rank_to_offset@,
            rest: self.rest@,
            word_count: self.word_count as nat,
            zdict: self.zdict@,
            chunked: self.chunked@,
        }
    }

    /// Finds the sections of a compressed dictionary. Returns nothing where one is cut off.
    pub fn find(d: &'a [u8]) -> (sections: Option<Sections<'a>>)
        ensures
            match sections_in(d@) {
                Some(model) => sections matches Some(got) && got.model() == model,
                None => sections is None,
            },
    {
        let p0: usize = STORAGE_SIZE;
        let p1: usize = find_section_end(d, p0)?;
        let p2: usize = find_section_end(d, p1)?;
        if d.len() - p2 < 4 {
            return None;
        }
        let ranks: usize = bytes::read_u32(d, p2) as usize;
        if (d.len() - p2 - 4) / 4 < ranks {
            return None;
        }
        let p3: usize = p2 + 4 + 4 * ranks;
        let p4: usize = find_section_end(d, p3)?;
        let p5: usize = find_section_end(d, p4)?;
        let p6: usize = find_section_end(d, p5)?;
        let sections = Sections {
            header: slice_subrange(d, 0, p0),
            grammar_zstd: slice_subrange(d, p0 + 4, p1),
            xcdat: slice_subrange(d, p1 + 4, p2),
            rank_to_offset: bytes::read_u32s(d, p2 + 4, ranks),
            rest: slice_subrange(d, p3 + 4, p4),
            word_count: bytes::read_u32(d, p4) as usize / 4,
            zdict: slice_subrange(d, p5 + 4, p6),
            chunked: slice_subrange(d, p4 + 4, d.len()),
        };
        assert(sections.header@ =~= d@.take(p0 as int));
        assert(sections.chunked@ =~= d@.skip(p4 + 4));
        Some(sections)
    }

    /// The lexicon of the dictionary. Returns nothing where one of its sections is cut off.
    fn lexicon(&self, header: &Header, chunk_size: usize) -> (lexicon: Option<Lexicon<'a>>)
        ensures
            match lexicon_of(self.model(), header.model(), chunk_size as nat) {
                Some(model) => lexicon matches Some(got) && got.model() == model
                    && got.model().wf(),
                None => lexicon is None,
            },
    {
        Lexicon::checked_parse_xdic(
            self.xcdat,
            self.rank_to_offset.as_slice(),
            self.rest,
            self.word_count,
            self.chunked,
            chunk_size,
            header.has_synonym_group_ids(),
        )
    }
}

/// Makes a set of the sections of a compressed dictionary and of what came of decompressing its
/// grammar. Returns nothing where a section is cut off.
pub fn load_sections<'a>(
    sections: &Sections<'a>,
    header: &Header,
    grammar: Result<Vec<u8>, DecompressError>,
    character_category: CharacterCategory,
    settings: OovSettings,
    chunk_size: usize,
) -> (res: Option<SudachiResult<LoadedDictionary<'a>>>)
    ensures
        match loaded_from(
            sections.model(),
            header.model(),
            decompressed(grammar),
            character_category.ranges(),
            settings,
            chunk_size as nat,
        ) {
            Some(Ok(model)) => res matches Some(Ok(dict)) && dict.model() == model && dict.wf(),
            Some(Err(e)) => res matches Some(Err(got)) && got.model() == e,
            None => res is None,
        },
{
    let grammar_raw: Vec<u8> = match grammar {
        Ok(grammar_raw) => grammar_raw,
        Err(_) => {
            return Some(Err(SudachiError::InvalidDictionaryGrammar));
        },
    };
    let mut grammar: Grammar<'a> = match Grammar::checked_parse(grammar_raw.as_slice(), 0) {
        Some(Ok(grammar)) => grammar.into_owned(),
        Some(Err(e)) => {
            return Some(Err(e));
        },
        None => {
            return None;
        },
    };
    grammar.set_character_category(character_category);
    let num_system_pos: usize = grammar.pos_list.len();
    let plugin: MeCabOovPlugin = match MeCabOovPlugin::set_up(settings, &grammar) {
        Ok(plugin) => plugin,
        Err(_) => {
            return Some(Err(SudachiError::InvalidDictionaryGrammar));
        },
    };
    let lexicon: Lexicon<'a> = sections.lexicon(header, chunk_size)?;
    let mut oov_providers: Vec<MeCabOovPlugin> = Vec::new();
    oov_providers.push(plugin);
    let loaded = LoadedDictionary {
        grammar,
        lexicon_set: LexiconSet::new(lexicon, num_system_pos),
        oov_providers,
    };
    assert(loaded.model().oov_providers =~= seq![(plugin.categories@, plugin.oovs@)]);
    Some(Ok(loaded))
}

/// What decompressing gave.
pub open spec fn decompressed(result: Result<Vec<u8>, DecompressError>) -> Option<Seq<u8>> {
    match result {
        Ok(data) => Some(data@),
        Err(_) => None,
    }
}

impl<'a> LoadedDictionary<'a> {
    /// Loads a compressed dictionary, with the given categories of characters and words that are
    /// made where the dictionary has none. `chunk_size` is the size that the chunks of the word
    /// records were cut to.
    pub fn from_xdic(
        xdic_bytes: &'a [u8],
        character_category: CharacterCategory,
        settings: OovSettings,
        chunk_size: usize,
    ) -> (res: SudachiResult<LoadedDictionary<'a>>)
        requires
            loadable(xdic_bytes@, settings, chunk_size as nat),
        ensures
            load_outcome(
                xdic_bytes@,
                character_category.ranges(),
                settings,
                chunk_size as nat,
                res,
            ),
    {
        match Self::checked_from_xdic(xdic_bytes, character_category, settings, chunk_size) {
            Some(res) => res,
            None => Err(SudachiError::InvalidDictionaryGrammar),
        }
    }

    /// Loads a compressed dictionary, as [`LoadedDictionary::from_xdic`] does. Returns nothing
    /// where a section is cut off.
    pub fn checked_from_xdic(
        xdic_bytes: &'a [u8],
        character_category: CharacterCategory,
        settings: OovSettings,
        chunk_size: usize,
    ) -> (res: Option<SudachiResult<LoadedDictionary<'a>>>)
        ensures
            match res {
                Some(loaded) => load_outcome(
                    xdic_bytes@,
                    character_category.ranges(),
                    settings,
                    chunk_size as nat,
                    loaded,
                ),
                None => !loadable(xdic_bytes@, settings, chunk_size as nat),
            },
    {
        if xdic_bytes.len() < STORAGE_SIZE {
            return None;
        }
        let header: Header = match Header::parse(slice_subrange(xdic_bytes, 0, STORAGE_SIZE)) {
            Ok(header) => header,
            Err(e) => {
                return Some(Err(e));
            },
        };
        let sections: Sections<'a> = Sections::find(xdic_bytes)?;
        let grammar: Result<Vec<u8>, DecompressError> = zstandard::zstd_decompress(
            sections.zdict,
            sections.grammar_zstd,
            GRAMMAR_CAPACITY,
        );
        proof {
            lemma_ranges_free(
                sections.model(),
                header.model(),
                decompressed(grammar),
                character_category.ranges(),
                settings,
                chunk_size as nat,
            );
        }
        load_sections(&sections, &header, grammar, character_category, settings, chunk_size)
    }
}

/// Whether a section is cut off does not depend on the categories of characters.
proof fn lemma_ranges_free(
    s: SectionsModel,
    header: HeaderModel,
    grammar: Option<Seq<u8>>,
    ranges: Seq<CategoryRange>,
    settings: OovSettings,
    chunk_size: nat,
)
    ensures
        loaded_from(s, header, grammar, ranges, settings, chunk_size) is Some == loaded_from(
            s,
            header,
            grammar,
            Seq::empty(),
            settings,
            chunk_size,
        ) is Some,
{
}

/// A compressed dictionary is loaded as a system dictionary: with its lexicon alone under the
/// number zero, the grammar that is the content of its grammar section, the categories of
/// characters that were given, and one provider of other words, made of the settings with the
/// parts of speech of that grammar.
pub proof fn law_compressed_dictionary_is_a_system_dictionary(
    d: Seq<u8>,
    ranges: Seq<CategoryRange>,
    settings: OovSettings,
    chunk_size: nat,
    model: LoadedModel,
    s: SectionsModel,
    grammar: Seq<u8>,
    g: GrammarModel,
)
    requires
        loads_as(d, ranges, settings, chunk_size, model),
        sections_in(d) == Some(s),
        zstandard::zstd_content(s.zdict, s.grammar_zstd) == Some(grammar),
        grammar::grammar_section(grammar, 0) == Some(Ok::<GrammarModel, error::ErrorModel>(g)),
    ensures
        model.lexicon_set.lexicons.len() == 1,
        model.lexicon_set.lexicons[0].id == 0,
        model.lexicon_set.num_system_pos == g.pos_list.len() as usize,
        model.grammar.pos_list == g.pos_list,
        model.grammar.columns == g.columns,
        model.grammar.rows == g.rows,
        model.grammar.costs == g.costs,
        model.grammar.ranges == ranges,
        model.oov_providers.len() == 1,
        model.oov_providers[0].0 == settings.categories@,
        model.oov_providers[0].1.len() == settings.definitions@.len(),
        forall|i: int|
            0 <= i < settings.definitions@.len() ==> {
                let kind = #[trigger] model.oov_providers[0].1[i];
                &&& kind.category == settings.definitions@[i].category
                &&& kind.left_id == settings.definitions@[i].left_id
                &&& kind.right_id == settings.definitions@[i].right_id
                &&& kind.cost == settings.definitions@[i].cost
                &&& kind.pos_id < g.pos_list.len()
                &&& g.pos_list[kind.pos_id as int] == grammar::pos_view(
                    settings.definitions@[i].pos@,
                )
            },
{
    let oovs = model.oov_providers[0].1;
    let definitions = settings.definitions@;
    if definitions.len() > 0 {
        oov::law_kinds_are_those_of_the_definitions(definitions, g.pos_list, oovs, 0);
    }
    assert forall|i: int| 0 <= i < definitions.len() implies {
        let kind = #[trigger] oovs[i];
        &&& kind.category == definitions[i].category
        &&& kind.left_id == definitions[i].left_id
        &&& kind.right_id == definitions[i].right_id
        &&& kind.cost == definitions[i].cost
        &&& kind.pos_id < g.pos_list.len()
        &&& g.pos_list[kind.pos_id as int] == grammar::pos_view(definitions[i].pos@)
    } by {
        oov::law_kinds_are_those_of_the_definitions(definitions, g.pos_list, oovs, i);
    }
}

/// Where a compressed dictionary can be loaded, and the encoder made its grammar of up to 128
/// mebibytes, loading does not fail.
pub proof fn law_grammars_of_up_to_128_mebibytes_load(
    d: Seq<u8>,
    ranges: Seq<CategoryRange>,
    settings: OovSettings,
    chunk_size: nat,
    model: LoadedModel,
    s: SectionsModel,
    grammar: Seq<u8>,
    e: error::ErrorModel,
)
    requires
        loads_as(d, ranges, settings, chunk_size, model),
        sections_in(d) == Some(s),
        zstandard::zstd_content(s.zdict, s.grammar_zstd) == Some(grammar),
        grammar.len() <= 128 * 1024 * 1024,
        zstandard::is_made(s.zdict, s.grammar_zstd),
    ensures
        !load_fails(d, ranges, settings, chunk_size, e),
{
}

} // verus!
