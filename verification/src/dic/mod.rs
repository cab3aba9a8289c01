//! Dictionaries.

pub mod category_type;
pub mod character_category;
pub mod compact;
pub mod connect;
pub mod grammar;
pub mod header;
pub mod lexicon;
pub mod lexicon_set;
pub mod read;
pub mod repack;
pub mod subset;
pub mod word_id;
pub mod xdic;
pub mod zstandard;

use vstd::prelude::*;
use vstd::slice::slice_subrange;

use self::character_category::{CategoryRange, CharacterCategory};
use self::grammar::{Grammar, GrammarModel};
use self::header::{Header, HeaderModel, HeaderVersion, STORAGE_SIZE};
use self::lexicon::word_infos::{InfoModel, WordInfo};
use self::lexicon::{Lexicon, LexiconModel};
use self::lexicon_set::{LexiconSet, LexiconSetModel};
use self::subset::InfoSubset;
use self::word_id::WordId;
use crate::error;
use crate::error::{HeaderError, ReadError, SudachiError, SudachiResult};
use crate::plugin::oov::{CategoryInfo, MeCabOovPlugin, Oov};

verus! {

/// What a [`DictionaryLoader`] holds.
pub struct DictionaryModel {
    pub header: HeaderModel,
    pub grammar: Option<GrammarModel>,
    pub lexicon: LexiconModel,
    pub lexicon_offset: nat,
    pub word_infos_offset: nat,
}

/// The dictionary in `d`: the header, the grammar where the format has one, and the lexicon.
pub open spec fn dictionary_in(d: Seq<u8>) -> Option<Result<DictionaryModel, error::ErrorModel>> {
    if d.len() < STORAGE_SIZE {
        None
    } else {
        match header::header_in(d.take(STORAGE_SIZE as int)) {
            Err(e) => Some(Err(e)),
            Ok(header) => if header::version_has_grammar(header.version) {
                match grammar::grammar_section(d, STORAGE_SIZE as nat) {
                    None => None,
                    Some(Err(e)) => Some(Err(e)),
                    Some(Ok(grammar)) => lexicon_behind(
                        d,
                        header,
                        Some(grammar),
                        STORAGE_SIZE as nat + grammar.storage_size,
                    ),
                }
            } else {
                lexicon_behind(d, header, None, STORAGE_SIZE as nat)
            },
        }
    }
}

/// The dictionary in `d` whose lexicon stands at `offset`.
pub open spec fn lexicon_behind(
    d: Seq<u8>,
    header: HeaderModel,
    grammar: Option<GrammarModel>,
    offset: nat,
) -> Option<Result<DictionaryModel, error::ErrorModel>> {
    match lexicon::lexicon_section(d, offset) {
        None => None,
        Some(Err(e)) => Some(Err(e)),
        Some(Ok(layout)) => Some(
            Ok(
                DictionaryModel {
                    header,
                    grammar,
                    lexicon: lexicon::laid_out_lexicon(
                        d,
                        layout,
                        header::version_has_synonyms(header.version),
                    ),
                    lexicon_offset: offset,
                    word_infos_offset: layout.infos_start,
                },
            ),
        ),
    }
}

/// What reading a dictionary of a certain kind comes to: an error for dictionaries of the other
/// kind.
pub open spec fn dictionary_of_kind(d: Seq<u8>, system: bool) -> Option<
    Result<DictionaryModel, error::ErrorModel>,
> {
    match dictionary_in(d) {
        Some(Ok(dict)) => if (dict.header.version is SystemDict) == system {
            Some(Ok(dict))
        } else {
            Some(
                Err(error::ErrorModel::InvalidHeader(HeaderError::InvalidSystemDictVersion)),
            )
        },
        other => other,
    }
}

/// A single system or user dictionary
pub struct DictionaryLoader<'a> {
    pub header: Header,
    pub grammar: Option<Grammar<'a>>,
    pub lexicon: Lexicon<'a>,
    /// Byte offset where the lexicon section starts in the dictionary bytes
    pub lexicon_offset: usize,
    /// Byte offset where the word records start, behind the lists and the parameters of words
    pub word_infos_offset: usize,
}

/// A result that may be missing, with what its value and its error hold.
pub open spec fn reads_as<'a>(
    res: Option<SudachiResult<DictionaryLoader<'a>>>,
    expected: Option<Result<DictionaryModel, error::ErrorModel>>,
) -> bool {
    match expected {
        Some(Ok(model)) => res matches Some(Ok(got)) && got.model() == model && got.wf(),
        Some(Err(e)) => res matches Some(Err(got)) && got.model() == e,
        None => res is None,
    }
}

impl<'a> DictionaryLoader<'a> {
    /// What the dictionary holds.
    pub open spec fn model(self) -> DictionaryModel {
        DictionaryModel {
            header: self.header.model(),
            grammar: match self.grammar {
                Some(grammar) => Some(grammar.model()),
                None => None,
            },
            lexicon: self.lexicon.model(),
            lexicon_offset: self.lexicon_offset as nat,
            word_infos_offset: self.word_infos_offset as nat,
        }
    }

    /// The parts of the dictionary are complete.
    pub open spec fn wf(self) -> bool {
        &&& self.lexicon.model().wf()
        &&& self.grammar matches Some(grammar) ==> grammar.model().wf()
    }

    /// Reads a dictionary of either kind. Returns nothing where the header, the connection
    /// matrix or the parameters of words are cut off.
    pub fn checked_read_any(dictionary_bytes: &'a [u8]) -> (res: Option<
        SudachiResult<DictionaryLoader<'a>>,
    >)
        ensures
            reads_as(res, dictionary_in(dictionary_bytes@)),
    {
        if dictionary_bytes.len() < STORAGE_SIZE {
            return None;
        }
        let header: Header = match Header::parse(
            slice_subrange(dictionary_bytes, 0, STORAGE_SIZE),
        ) {
            Ok(header) => header,
            Err(e) => {
                return Some(Err(e));
            },
        };
        let mut offset: usize = STORAGE_SIZE;
        let grammar: Option<Grammar<'a>> = if header.has_grammar() {
            match Grammar::checked_parse(dictionary_bytes, offset) {
                Some(Ok(grammar)) => {
                    proof {
                        grammar::lemma_storage_size(dictionary_bytes@, offset as nat);
                    }
                    offset = offset + grammar.storage_size;
                    Some(grammar)
                },
                Some(Err(e)) => {
                    return Some(Err(e));
                },
                None => {
                    return None;
                },
            }
        } else {
            None
        };
        let lexicon_offset: usize = offset;
        match Lexicon::checked_parse(dictionary_bytes, offset, header.has_synonym_group_ids()) {
            Some(Ok((lexicon, word_infos_offset))) => Some(
                Ok(
                    DictionaryLoader {
                        header,
                        grammar,
                        lexicon,
                        lexicon_offset,
                        word_infos_offset,
                    },
                ),
            ),
            Some(Err(e)) => Some(Err(e)),
            None => None,
        }
    }

    /// Reads a dictionary of either kind.
    pub fn read_any_dictionary(dictionary_bytes: &'a [u8]) -> (res: SudachiResult<
        DictionaryLoader<'a>,
    >)
        requires
            dictionary_in(dictionary_bytes@) is Some,
        ensures
            reads_as(Some(res), dictionary_in(dictionary_bytes@)),
    {
        match DictionaryLoader::checked_read_any(dictionary_bytes) {
            Some(res) => res,
            None => Err(SudachiError::ParseError(ReadError::Eof)),
        }
    }

    /// Reads a system dictionary. Fails for a user dictionary.
    pub fn read_system_dictionary(dictionary_bytes: &'a [u8]) -> (res: SudachiResult<
        DictionaryLoader<'a>,
    >)
        requires
            dictionary_in(dictionary_bytes@) is Some,
        ensures
            reads_as(Some(res), dictionary_of_kind(dictionary_bytes@, true)),
    {
        let dict: DictionaryLoader<'a> = match DictionaryLoader::read_any_dictionary(
            dictionary_bytes,
        ) {
            Ok(dict) => dict,
            Err(e) => {
                return Err(e);
            },
        };
        match dict.header.version {
            HeaderVersion::SystemDict(_) => Ok(dict),
            _ => Err(SudachiError::InvalidHeader(HeaderError::InvalidSystemDictVersion)),
        }
    }

    /// Reads a user dictionary. Fails for a system dictionary.
    pub fn read_user_dictionary(dictionary_bytes: &'a [u8]) -> (res: SudachiResult<
        DictionaryLoader<'a>,
    >)
        requires
            dictionary_in(dictionary_bytes@) is Some,
        ensures
            reads_as(Some(res), dictionary_of_kind(dictionary_bytes@, false)),
    {
        let dict: DictionaryLoader<'a> = match DictionaryLoader::read_any_dictionary(
            dictionary_bytes,
        ) {
            Ok(dict) => dict,
            Err(e) => {
                return Err(e);
            },
        };
        match dict.header.version {
            HeaderVersion::UserDict(_) => Ok(dict),
            _ => Err(SudachiError::InvalidHeader(HeaderError::InvalidSystemDictVersion)),
        }
    }

    /// Makes the dictionary the system dictionary of a set, if it has a grammar.
    pub fn to_loaded(self) -> (loaded: Option<LoadedDictionary<'a>>)
        requires
            self.wf(),
        ensures
            match self.grammar {
                Some(grammar) => loaded matches Some(dict) && dict.wf() && dict.model()
                    == system_model(grammar.model(), self.lexicon.model()),
                None => loaded is None,
            },
    {
        match self.grammar {
            None => None,
            Some(grammar) => {
                let num_system_pos: usize = grammar.pos_list.len();
                let loaded = LoadedDictionary {
                    grammar,
                    lexicon_set: LexiconSet::new(self.lexicon, num_system_pos),
                    oov_providers: Vec::new(),
                };
                assert(loaded.model().oov_providers =~= Seq::empty());
                Some(loaded)
            },
        }
    }
}

/// What a [`LoadedDictionary`] holds.
pub struct LoadedModel {
    pub grammar: GrammarModel,
    pub lexicon_set: LexiconSetModel,
    pub oov_providers: Seq<(Seq<CategoryInfo>, Seq<Oov>)>,
}

/// The set of a system dictionary alone, without providers of other words.
pub open spec fn system_model(grammar: GrammarModel, lexicon: LexiconModel) -> LoadedModel {
    LoadedModel {
        grammar,
        lexicon_set: LexiconSetModel {
            lexicons: seq![LexiconModel { id: 0, ..lexicon }],
            pos_offsets: seq![0usize],
            num_system_pos: grammar.pos_list.len() as usize,
        },
        oov_providers: Seq::empty(),
    }
}

/// What making a set of a system dictionary comes to.
pub open spec fn system_in(d: Seq<u8>, ranges: Seq<CategoryRange>) -> Option<
    Result<LoadedModel, error::ErrorModel>,
> {
    match dictionary_of_kind(d, true) {
        Some(Ok(dict)) => match dict.grammar {
            Some(grammar) => Some(
                Ok(system_model(GrammarModel { ranges, ..grammar }, dict.lexicon)),
            ),
            None => Some(Err(error::ErrorModel::InvalidDictionaryGrammar)),
        },
        Some(Err(e)) => Some(Err(e)),
        None => None,
    }
}

/// A dictionary consists of one system dictionary and zero or more user dictionaries
pub struct LoadedDictionary<'a> {
    pub grammar: Grammar<'a>,
    pub lexicon_set: LexiconSet<'a>,
    pub oov_providers: Vec<MeCabOovPlugin>,
}

impl<'a> LoadedDictionary<'a> {
    /// What the dictionary holds.
    pub open spec fn model(self) -> LoadedModel {
        LoadedModel {
            grammar: self.grammar.model(),
            lexicon_set: self.lexicon_set.model(),
            oov_providers: self.oov_providers@.map_values(
                |plugin: MeCabOovPlugin| (plugin.categories@, plugin.oovs@),
            ),
        }
    }

    /// The parts of the dictionary are complete.
    pub open spec fn wf(self) -> bool {
        &&& self.grammar.model().wf()
        &&& self.lexicon_set.model().wf()
    }

    /// Makes a set of a system dictionary, with the given categories of characters.
    pub fn from_system_dictionary_and_chardef(
        dictionary_bytes: &'a [u8],
        character_category: CharacterCategory,
    ) -> (res: SudachiResult<LoadedDictionary<'a>>)
        requires
            dictionary_in(dictionary_bytes@) is Some,
        ensures
            match system_in(dictionary_bytes@, character_category.ranges()).unwrap() {
                Ok(model) => res matches Ok(dict) && dict.model() == model && dict.wf(),
                Err(e) => res matches Err(got) && got.model() == e,
            },
    {
        let system_dict: DictionaryLoader<'a> = match DictionaryLoader::read_system_dictionary(
            dictionary_bytes,
        ) {
            Ok(dict) => dict,
            Err(e) => {
                return Err(e);
            },
        };
        let mut grammar: Grammar<'a> = match system_dict.grammar {
            Some(grammar) => grammar,
            None => {
                return Err(SudachiError::InvalidDictionaryGrammar);
            },
        };
        grammar.set_character_category(character_category);
        let num_system_pos: usize = grammar.pos_list.len();
        let loaded = LoadedDictionary {
            grammar,
            lexicon_set: LexiconSet::new(system_dict.lexicon, num_system_pos),
            oov_providers: Vec::new(),
        };
        assert(loaded.model().oov_providers =~= Seq::empty());
        Ok(loaded)
    }

    /// Makes a set of a system dictionary, with the categories of characters that a definition
    /// gives. `definition` is what the file of the definition holds.
    pub fn from_system_dictionary(dictionary_bytes: &'a [u8], definition: &[u8]) -> (res:
        SudachiResult<LoadedDictionary<'a>>)
        requires
            character_category::definition_from(definition@, 0, 0, Seq::empty()) is Ok
                ==> dictionary_in(dictionary_bytes@) is Some,
        ensures
            match character_category::definition_from(definition@, 0, 0, Seq::empty()) {
                Err(line) => res matches Err(e) && e.model()
                    == error::ErrorModel::InvalidCharacterCategory(line as usize),
                Ok(ranges) => match system_in(dictionary_bytes@, ranges).unwrap() {
                    Ok(model) => res matches Ok(dict) && dict.model() == model && dict.wf(),
                    Err(e) => res matches Err(got) && got.model() == e,
                },
            },
    {
        match CharacterCategory::from_bytes(definition) {
            Ok(character_category) => Self::from_system_dictionary_and_chardef(
                dictionary_bytes,
                character_category,
            ),
            Err(e) => Err(e),
        }
    }

    /// Makes a set of a system dictionary, with the categories of characters of the definition
    /// that the program brings along.
    pub fn from_system_dictionary_embedded(
        dictionary_bytes: &'a [u8],
        default_definition: &[u8],
    ) -> (res: SudachiResult<LoadedDictionary<'a>>)
        requires
            character_category::definition_from(default_definition@, 0, 0, Seq::empty()) is Ok
                ==> dictionary_in(dictionary_bytes@) is Some,
        ensures
            match character_category::definition_from(default_definition@, 0, 0, Seq::empty()) {
                Err(line) => res matches Err(e) && e.model()
                    == error::ErrorModel::InvalidCharacterCategory(line as usize),
                Ok(ranges) => match system_in(dictionary_bytes@, ranges).unwrap() {
                    Ok(model) => res matches Ok(dict) && dict.model() == model && dict.wf(),
                    Err(e) => res matches Err(got) && got.model() == e,
                },
            },
    {
        Self::from_system_dictionary(dictionary_bytes, default_definition)
    }

    /// Appends a user dictionary.
    pub fn merge_dictionary(self, other: DictionaryLoader<'a>) -> (res: SudachiResult<
        LoadedDictionary<'a>,
    >)
        requires
            self.wf(),
            other.wf(),
        ensures
            ({
                let n = self.model().lexicon_set.lexicons.len();
                if n >= lexicon::MAX_DICTIONARIES {
                    res matches Err(e) && e.model() == error::ErrorModel::LexiconSetError(
                        error::LexiconSetError::TooManyDictionaries(n as usize),
                    )
                } else {
                    res matches Ok(dict) && dict.wf() && dict.model() == merged_model(
                        self.model(),
                        other.model(),
                    )
                }
            }),
    {
        let mut grammar: Grammar<'a> = self.grammar;
        let mut lexicon_set: LexiconSet<'a> = self.lexicon_set;
        let npos: usize = grammar.pos_list.len();
        match lexicon_set.append(other.lexicon, npos) {
            Err(e) => {
                return Err(SudachiError::LexiconSetError(e));
            },
            Ok(_) => {},
        }
        if let Some(g) = other.grammar {
            grammar.merge(g);
        }
        Ok(LoadedDictionary { grammar, lexicon_set, oov_providers: self.oov_providers })
    }

    /// The grammar of all dictionaries together.
    pub fn grammar(&self) -> (grammar: &Grammar<'a>)
        ensures
            *grammar == self.grammar,
    {
        &self.grammar
    }

    /// The words of all dictionaries together.
    pub fn lexicon(&self) -> (lexicon: &LexiconSet<'a>)
        ensures
            *lexicon == self.lexicon_set,
    {
        &self.lexicon_set
    }

    /// The plugins that provide words for text that no dictionary knows.
    pub fn oov_provider_plugins(&self) -> (plugins: &[MeCabOovPlugin])
        ensures
            plugins@ == self.oov_providers@,
    {
        self.oov_providers.as_slice()
    }
}

/// A dictionary with a user dictionary appended.
pub open spec fn merged_model(m: LoadedModel, other: DictionaryModel) -> LoadedModel {
    LoadedModel {
        grammar: match other.grammar {
            Some(g) => GrammarModel { pos_list: m.grammar.pos_list + g.pos_list, ..m.grammar },
            None => m.grammar,
        },
        lexicon_set: LexiconSetModel {
            lexicons: m.lexicon_set.lexicons.push(
                LexiconModel { id: m.lexicon_set.lexicons.len() as u8, ..other.lexicon },
            ),
            pos_offsets: m.lexicon_set.pos_offsets.push(m.grammar.pos_list.len() as usize),
            ..m.lexicon_set
        },
        oov_providers: m.oov_providers,
    }
}

/// A dictionary is read out of its bytes: the header of 272 bytes; behind it the grammar, unless
/// the format is the first one of user dictionaries; and behind that the lexicon, whose records
/// hold synonym groups in the last formats of both kinds.
pub proof fn law_dictionary_is_read_out_of_its_bytes(d: Seq<u8>, m: DictionaryModel)
    requires
        dictionary_in(d) == Some(Ok::<DictionaryModel, error::ErrorModel>(m)),
    ensures
        ({
            let number = crate::bytes::u64_at(d, 0);
            let synonyms = number == 0xce9f011a92394434 || number == 0xca9811756ff64fb0;
            &&& d.len() >= 272
            &&& header::header_in(d) == Ok::<HeaderModel, error::ErrorModel>(m.header)
            &&& number == 0xa50f31188bd211e7 ==> m.grammar is None && m.lexicon_offset == 272
            &&& number != 0xa50f31188bd211e7 ==> {
                &&& m.grammar matches Some(g)
                &&& grammar::grammar_section(d, 272) == Some(
                    Ok::<GrammarModel, error::ErrorModel>(g),
                )
                &&& m.lexicon_offset == 272 + g.storage_size
            }
            &&& lexicon::lexicon_section(d, m.lexicon_offset) matches Some(Ok(layout))
            &&& m.lexicon == lexicon::laid_out_lexicon(d, layout, synonyms)
            &&& m.word_infos_offset == layout.infos_start
        }),
{
    let h = d.take(272);
    assert forall|i: int| 0 <= i < 272 implies h[i] == d[i] by {}
    assert(crate::bytes::u64_at(h, 0) == crate::bytes::u64_at(d, 0));
    assert(crate::bytes::u64_at(h, 8) == crate::bytes::u64_at(d, 8));
    assert(h.subrange(16, 272) =~= d.subrange(16, 272));
}

/// Dictionaries are told apart by the number of their format: asking for a system dictionary gives
/// one with a number of these, asking for a user dictionary one with another number, and a
/// dictionary of the other kind is not accepted.
pub proof fn law_kinds_are_told_apart_by_the_number(d: Seq<u8>, m: DictionaryModel, system: bool)
    requires
        dictionary_in(d) == Some(Ok::<DictionaryModel, error::ErrorModel>(m)),
    ensures
        ({
            let number = crate::bytes::u64_at(d, 0);
            let is_system = number == 0x7366d3f18bd111e7 || number == 0xce9f011a92394434;
            dictionary_of_kind(d, system) == if is_system == system {
                Some(Ok::<DictionaryModel, error::ErrorModel>(m))
            } else {
                Some(
                    Err(error::ErrorModel::InvalidHeader(HeaderError::InvalidSystemDictVersion)),
                )
            }
        }),
{
    law_dictionary_is_read_out_of_its_bytes(d, m);
}

/// A system dictionary alone has the number zero, and its parts of speech keep their numbers.
pub proof fn law_system_dictionary_comes_first(
    d: Seq<u8>,
    ranges: Seq<CategoryRange>,
    m: LoadedModel,
    dict: DictionaryModel,
    g: GrammarModel,
)
    requires
        system_in(d, ranges) == Some(Ok::<LoadedModel, error::ErrorModel>(m)),
        dictionary_in(d) == Some(Ok::<DictionaryModel, error::ErrorModel>(dict)),
        dict.grammar == Some(g),
    ensures
        m.lexicon_set.lexicons.len() == 1,
        m.lexicon_set.lexicons[0].id == 0,
        m.lexicon_set.lexicons[0].trie == dict.lexicon.trie,
        m.lexicon_set.lexicons[0].table == dict.lexicon.table,
        m.lexicon_set.lexicons[0].table_start == dict.lexicon.table_start,
        m.lexicon_set.lexicons[0].params == dict.lexicon.params,
        m.lexicon_set.lexicons[0].words == dict.lexicon.words,
        m.lexicon_set.lexicons[0].infos == dict.lexicon.infos,
        m.grammar.pos_list == g.pos_list,
        m.grammar.columns == g.columns,
        m.grammar.rows == g.rows,
        m.grammar.costs == g.costs,
        m.grammar.ranges == ranges,
        m.lexicon_set.num_system_pos == g.pos_list.len() as usize,
        m.oov_providers.len() == 0,
{
}

/// A word of a user dictionary has in the whole dictionary the part of speech that its own
/// dictionary means: one of the system dictionary under its number, or the one that the user
/// dictionary itself defines behind those.
pub proof fn law_user_words_have_their_parts_of_speech(
    m: LoadedModel,
    other: DictionaryModel,
    g: GrammarModel,
    id: WordId,
    read: WordInfo,
    found: InfoModel,
)
    requires
        m.lexicon_set.wf(),
        other.lexicon.wf(),
        1 <= m.lexicon_set.lexicons.len() < 15,
        other.grammar == Some(g),
        id.raw as int / 0x1000_0000 == m.lexicon_set.lexicons.len(),
        m.lexicon_set.num_system_pos <= m.grammar.pos_list.len(),
        m.grammar.pos_list.len() + g.pos_list.len() <= 0x1_0000,
        other.lexicon.infos.info(
            (id.raw % 0x1000_0000) as u32,
            InfoSubset::uniform(true),
        ) == Some(Ok::<InfoModel, ReadError>(found)),
        found.pos_id < m.lexicon_set.num_system_pos + g.pos_list.len(),
        merged_model(m, other).lexicon_set.outcome(
            id,
            InfoSubset::uniform(true),
            Some(Ok(read)),
        ),
    ensures
        ({
            let list = merged_model(m, other).grammar.pos_list;
            let system = m.lexicon_set.num_system_pos;
            &&& read.model().pos_id < list.len()
            &&& found.pos_id < system ==> list[read.model().pos_id as int]
                == m.grammar.pos_list[found.pos_id as int]
            &&& found.pos_id >= system ==> list[read.model().pos_id as int] == g.pos_list[
            found.pos_id - system]
        }),
{
    let merged = merged_model(m, other).lexicon_set;
    let n = m.lexicon_set.lexicons.len() as int;
    assert(merged.lexicons[n].infos == other.lexicon.infos);
    assert forall|i: int| 0 <= i < merged.lexicons.len() implies (
    #[trigger] merged.lexicons[i]).wf() && merged.lexicons[i].id == i by {
        if i < n {
            assert(merged.lexicons[i] == m.lexicon_set.lexicons[i]);
        }
    }
    assert(merged.wf());
    lexicon_set::law_record_is_renumbered(
        merged,
        id,
        InfoSubset::uniform(true),
        read,
        found,
    );
}

/// Appending a user dictionary changes nothing for the words that were there before: their records
/// and parameters are what they were, and their parts of speech keep their numbers. The words of
/// the user dictionary are found before all others.
pub proof fn law_earlier_words_stay_as_they_were(
    m: LoadedModel,
    other: DictionaryModel,
    id: WordId,
    subset: InfoSubset,
    res: Option<SudachiResult<WordInfo>>,
    p: int,
    input: Seq<u8>,
    offset: nat,
)
    requires
        m.lexicon_set.wf(),
        id.raw as int / 0x1000_0000 < m.lexicon_set.lexicons.len(),
        0 <= p < m.grammar.pos_list.len(),
    ensures
        ({
            let merged = merged_model(m, other);
            let n = m.lexicon_set.lexicons.len();
            let own = LexiconModel { id: n as u8, ..other.lexicon };
            &&& merged.lexicon_set.outcome(id, subset, res) == m.lexicon_set.outcome(
                id,
                subset,
                res,
            )
            &&& merged.lexicon_set.word_param(id) == m.lexicon_set.word_param(id)
            &&& merged.grammar.pos_list[p] == m.grammar.pos_list[p]
            &&& merged.grammar.costs == m.grammar.costs
            &&& merged.oov_providers == m.oov_providers
            &&& match (own.lookup(input, offset), m.lexicon_set.lookup(input, offset)) {
                (Some(first), Some(rest)) => merged.lexicon_set.lookup(input, offset) == Some(
                    first + rest,
                ),
                _ => merged.lexicon_set.lookup(input, offset) is None,
            }
        }),
{
    let merged = merged_model(m, other).lexicon_set;
    let n = m.lexicon_set.lexicons.len();
    let dic = id.raw as int / 0x1000_0000;
    assert(merged.lexicons[dic] == m.lexicon_set.lexicons[dic]);
    assert(merged.pos_offsets[dic] == m.lexicon_set.pos_offsets[dic]);
    assert(id.dic_of() == dic);
    lemma_same_first_lexicons(merged, m.lexicon_set, input, offset, n);
    assert(merged.lexicons[n as int] == (LexiconModel { id: n as u8, ..other.lexicon }));
    assert(merged.lexicons.len() == n + 1);
}

/// The first lexicons of two sets find the same where they are the same.
proof fn lemma_same_first_lexicons(
    a: LexiconSetModel,
    b: LexiconSetModel,
    input: Seq<u8>,
    offset: nat,
    n: nat,
)
    requires
        n <= a.lexicons.len(),
        n <= b.lexicons.len(),
        forall|i: int| 0 <= i < n ==> #[trigger] a.lexicons[i] == b.lexicons[i],
    ensures
        a.lookup_first(input, offset, n) == b.lookup_first(input, offset, n),
    decreases n,
{
    if n > 0 {
        lemma_same_first_lexicons(a, b, input, offset, (n - 1) as nat);
        assert(a.lexicons[n - 1] == b.lexicons[n - 1]);
    }
}

} // verus!
