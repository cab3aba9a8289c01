//! A tokenizer that hands out its words as plain values.

use vstd::prelude::*;
use vstd::utf8;

use crate::analysis::certainty;
use crate::analysis::input;
use crate::analysis::input::TextModel;
use crate::analysis::mode;
use crate::analysis::mode::Mode;
use crate::analysis::morpheme;
use crate::analysis::morpheme::{Morpheme, MorphemeModel};
use crate::analysis::tokenizer;
use crate::analysis::tokenizer::MorphemeList;
use crate::dic;
use crate::dic::character_category;
use crate::dic::character_category::CharacterCategory;
use crate::dic::grammar;
use crate::dic::word_id::OOV_DICTIONARY;
use crate::dic::xdic;
use crate::dic::{DictionaryLoader, LoadedDictionary, LoadedModel};
use crate::error;
use crate::error::{SudachiError, SudachiResult};
use crate::plugin::oov::OovSettings;

verus! {

/// A word of an analysed text.
#[derive(Debug)]
pub struct Token {
    pub surface: String,
    pub reading_form: String,
    pub dictionary_form: String,
    pub normalized_form: String,
    pub part_of_speech: Vec<String>,
    pub is_oov: bool,
    /// First byte
    pub begin: usize,
    /// Byte behind the last one
    pub end: usize,
}

impl Token {
    /// The token stands for a word.
    pub open spec fn stands_for(self, word: MorphemeModel) -> bool {
        &&& self.surface@ == word.surface
        &&& self.reading_form@ == word.info.text(word.info.reading_form)
        &&& self.dictionary_form@ == word.info.text(word.info.dictionary_form)
        &&& self.normalized_form@ == word.info.text(word.info.normalized_form)
        &&& grammar::pos_view(self.part_of_speech@) == word.pos
        &&& self.is_oov == (word.word_id.dic_of() == OOV_DICTIONARY)
        &&& self.begin == word.begin_b
        &&& self.end == word.end_b
    }

    /// The token for a word.
    fn of(word: &Morpheme) -> (token: Token)
        ensures
            token.stands_for(word.model()),
    {
        Token {
            surface: word.surface().to_owned(),
            reading_form: word.reading_form().to_owned(),
            dictionary_form: word.dictionary_form().to_owned(),
            normalized_form: word.normalized_form().to_owned(),
            part_of_speech: morpheme::copied_pos(word.part_of_speech()),
            is_oov: word.is_oov(),
            begin: word.begin(),
            end: word.end(),
        }
    }
}

/// The tokens stand for the words, one for each.
pub open spec fn stand_for(tokens: Seq<Token>, words: Seq<MorphemeModel>) -> bool {
    &&& tokens.len() == words.len()
    &&& forall|k: int| 0 <= k < tokens.len() ==> (#[trigger] tokens[k]).stands_for(words[k])
}

/// The tokens for the words of an analysis.
pub fn tokens_of(list: &MorphemeList) -> (tokens: Vec<Token>)
    ensures
        stand_for(tokens@, list.words()),
{
    let mut tokens: Vec<Token> = Vec::new();
    let n: usize = list.len();
    let mut i: usize = 0;
    while i < n
        invariant
            i <= n == list.words().len(),
            tokens@.len() == i,
            forall|k: int|
                0 <= k < i ==> (#[trigger] tokens@[k]).stands_for(list.words()[k]),
        decreases n - i,
    {
        tokens.push(Token::of(list.get(i)));
        i = i + 1;
    }
    tokens
}

/// The tokens stand for the words of an analysis of a text.
pub open spec fn are_tokens(
    m: LoadedModel,
    text: Seq<char>,
    mode: Mode,
    tokens: Seq<Token>,
) -> bool {
    exists|list: MorphemeList| #[trigger]
        analysed(m, text, mode, Ok(list)) && stand_for(tokens, list.words())
}

/// What analysing a text with a dictionary may come to.
pub open spec fn analysed(
    m: LoadedModel,
    text: Seq<char>,
    mode: Mode,
    res: SudachiResult<MorphemeList>,
) -> bool {
    tokenizer::tokenize_outcome(
        m,
        TextModel { chars: text, ranges: m.grammar.ranges },
        mode,
        res,
    )
}

/// What analysing a text in the units of the mode with the given name may come to.
pub open spec fn tokens_outcome(
    m: LoadedModel,
    text: Seq<char>,
    mode: Seq<char>,
    res: SudachiResult<Vec<Token>>,
) -> bool {
    match res {
        Ok(tokens) => are_tokens(m, text, mode::mode_named(mode), tokens@),
        Err(e) => analysed(m, text, mode::mode_named(mode), Err(e)),
    }
}

/// Both tokens have the same content.
pub open spec fn same_token(a: Token, b: Token) -> bool {
    &&& a.surface@ == b.surface@
    &&& a.reading_form@ == b.reading_form@
    &&& a.dictionary_form@ == b.dictionary_form@
    &&& a.normalized_form@ == b.normalized_form@
    &&& grammar::pos_view(a.part_of_speech@) == grammar::pos_view(b.part_of_speech@)
    &&& a.is_oov == b.is_oov
    &&& a.begin == b.begin
    &&& a.end == b.end
}

/// Equal calls give equal tokens, or fail both; where the records of the dictionary can be
/// decompressed, with the same error.
pub proof fn law_equal_calls_give_equal_tokens(
    m: LoadedModel,
    text: Seq<char>,
    mode: Seq<char>,
    a: SudachiResult<Vec<Token>>,
    b: SudachiResult<Vec<Token>>,
)
    requires
        certainty::is_certain(m),
        tokens_outcome(m, text, mode, a),
        tokens_outcome(m, text, mode, b),
    ensures
        match (a, b) {
            (Ok(p), Ok(q)) => {
                &&& p@.len() == q@.len()
                &&& forall|k: int|
                    0 <= k < p@.len() ==> same_token(#[trigger] p@[k], #[trigger] q@[k])
            },
            (Err(e), Err(f)) => certainty::is_sound(m) ==> e.model() == f.model(),
            _ => false,
        },
{
    let t = TextModel { chars: text, ranges: m.grammar.ranges };
    let mode = mode::mode_named(mode);
    let x: SudachiResult<MorphemeList> = match a {
        Ok(p) => Ok(
            choose|list: MorphemeList| #[trigger]
                analysed(m, text, mode, Ok(list)) && stand_for(p@, list.words()),
        ),
        Err(e) => Err(e),
    };
    let y: SudachiResult<MorphemeList> = match b {
        Ok(q) => Ok(
            choose|list: MorphemeList| #[trigger]
                analysed(m, text, mode, Ok(list)) && stand_for(q@, list.words()),
        ),
        Err(e) => Err(e),
    };
    certainty::law_equal_calls_agree(m, t, mode, x, y);
    if let (Ok(p), Ok(q)) = (a, b) {
        assert forall|k: int| 0 <= k < p@.len() implies same_token(
            #[trigger] p@[k],
            #[trigger] q@[k],
        ) by {
            assert(p@[k].stands_for(x->Ok_0.words()[k]));
            assert(q@[k].stands_for(y->Ok_0.words()[k]));
        }
    }
}

/// The tokens of a text follow each other from its first byte up to its last one; a text without
/// characters has none.
pub proof fn law_tokens_cover_the_text(
    m: LoadedModel,
    text: Seq<char>,
    mode: Seq<char>,
    tokens: Vec<Token>,
)
    requires
        tokens_outcome(m, text, mode, Ok(tokens)),
    ensures
        text.len() == 0 ==> tokens@.len() == 0,
        text.len() > 0 ==> {
            &&& tokens@.len() > 0
            &&& tokens@[0].begin == 0
            &&& tokens@.last().end == utf8::encode_utf8(text).len()
            &&& forall|k: int|
                0 < k < tokens@.len() ==> (#[trigger] tokens@[k]).begin == tokens@[k - 1].end
            &&& forall|k: int| #![trigger tokens@[k]]
                0 <= k < tokens@.len() ==> exists|i: nat, j: nat|
                    {
                        &&& i <= j <= text.len()
                        &&& tokens@[k].begin == #[trigger] input::byte_offset(text, i)
                        &&& tokens@[k].end == #[trigger] input::byte_offset(text, j)
                        &&& tokens@[k].surface@ == text.subrange(i as int, j as int)
                    }
        },
{
    let named = mode::mode_named(mode);
    let list = choose|list: MorphemeList| #[trigger]
        analysed(m, text, named, Ok(list)) && stand_for(tokens@, list.words());
    let words = list.words();
    tokenizer::law_words_make_up_text(list, m, named);
    if text.len() > 0 {
        assert(tokens@[0].stands_for(words[0]));
        assert(tokens@[tokens@.len() - 1].stands_for(words[words.len() - 1]));
        assert forall|k: int| 0 < k < tokens@.len() implies (#[trigger] tokens@[k]).begin
            == tokens@[k - 1].end by {
            assert(tokens@[k - 1].stands_for(words[k - 1]));
            assert(words[k].begin_b == words[k - 1].end_b);
        }
        assert forall|k: int| #![trigger tokens@[k]] 0 <= k < tokens@.len() implies exists|
            i: nat,
            j: nat,
        |
            {
                &&& i <= j <= text.len()
                &&& tokens@[k].begin == #[trigger] input::byte_offset(text, i)
                &&& tokens@[k].end == #[trigger] input::byte_offset(text, j)
                &&& tokens@[k].surface@ == text.subrange(i as int, j as int)
            } by {
            let word = words[k];
            assert(tokens@[k].stands_for(word));
            assert(tokens@[k].begin == input::byte_offset(text, word.begin));
            assert(tokens@[k].end == input::byte_offset(text, word.end));
        }
    }
}

/// A token has the texts of its word; the surface in the record of the word stands in for a
/// reading, a dictionary form or a normalized form that the record leaves empty. It tells whether
/// the word is in no dictionary, by the upper four bits of its identifier.
pub proof fn law_token_has_the_texts_of_its_word(
    tokens: Seq<Token>,
    words: Seq<MorphemeModel>,
    k: int,
)
    requires
        stand_for(tokens, words),
        0 <= k < words.len(),
    ensures
        ({
            let token = tokens[k];
            let word = words[k];
            let info = word.info;
            &&& tokens.len() == words.len()
            &&& token.surface@ == word.surface
            &&& info.reading_form.len() > 0 ==> token.reading_form@ == info.reading_form
            &&& info.reading_form.len() == 0 ==> token.reading_form@ == info.surface
            &&& info.dictionary_form.len() > 0 ==> token.dictionary_form@ == info.dictionary_form
            &&& info.dictionary_form.len() == 0 ==> token.dictionary_form@ == info.surface
            &&& info.normalized_form.len() > 0 ==> token.normalized_form@ == info.normalized_form
            &&& info.normalized_form.len() == 0 ==> token.normalized_form@ == info.surface
            &&& token.part_of_speech@.len() == word.pos.len()
            &&& forall|i: int|
                0 <= i < word.pos.len() ==> (#[trigger] token.part_of_speech@[i])@ == word.pos[i]
            &&& token.is_oov <==> word.word_id.raw >= 0xf000_0000
            &&& token.begin == word.begin_b
            &&& token.end == word.end_b
        }),
{
    let token = tokens[k];
    assert(token.stands_for(words[k]));
    let texts = grammar::pos_view(token.part_of_speech@);
    assert forall|i: int| 0 <= i < words[k].pos.len() implies (
    #[trigger] token.part_of_speech@[i])@ == words[k].pos[i] by {
        assert(texts[i] == token.part_of_speech@[i]@);
    }
}

/// The tokens of a text stand for the words of an analysis of that text with the categories of
/// characters of the dictionary: in short units for the name of the letter A, in middle units for
/// that of the letter B, and in the longest ones for every other name.
pub proof fn law_tokens_stand_for_an_analysis(
    m: LoadedModel,
    text: Seq<char>,
    mode: Seq<char>,
    tokens: Vec<Token>,
) -> (list: MorphemeList)
    requires
        tokens_outcome(m, text, mode, Ok(tokens)),
    ensures
        list.text().chars == text,
        list.text().ranges == m.grammar.ranges,
        mode == seq!['A'] ==> list.is_analysis(m, Mode::A),
        mode == seq!['B'] ==> list.is_analysis(m, Mode::B),
        mode != seq!['A'] && mode != seq!['B'] ==> list.is_analysis(m, Mode::C),
        stand_for(tokens@, list.words()),
{
    mode::law_names_and_numbers_of_modes(mode, 0);
    let named = mode::mode_named(mode);
    choose|list: MorphemeList| #[trigger]
        analysed(m, text, named, Ok(list)) && stand_for(tokens@, list.words())
}

/// Names other than those of the short and the middle units mean the longest ones.
pub proof fn law_other_names_mean_longest_units(
    m: LoadedModel,
    text: Seq<char>,
    mode: Seq<char>,
    res: SudachiResult<Vec<Token>>,
)
    requires
        mode != "A"@,
        mode != "B"@,
    ensures
        tokens_outcome(m, text, mode, res) == tokens_outcome(m, text, "C"@, res),
{
    reveal_strlit("A");
    reveal_strlit("B");
    reveal_strlit("C");
    assert("C"@[0] == 'C' && "A"@[0] == 'A' && "B"@[0] == 'B');
}

/// Why a tokenizer could not be made.
#[derive(Debug)]
pub enum LoadError {
    /// A part of the dictionary is cut off.
    CutOff,
    /// The definition of characters or the dictionary is not accepted.
    Rejected(SudachiError),
}

/// The error for a definition of characters with a wrong line.
pub open spec fn definition_error(line: nat) -> error::ErrorModel {
    error::ErrorModel::InvalidCharacterCategory(line as usize)
}

/// A text analyser with its dictionary.
pub struct Tokenizer<'a> {
    dict: LoadedDictionary<'a>,
}

impl<'a> Tokenizer<'a> {
    /// What the dictionary holds.
    pub closed spec fn model(self) -> LoadedModel {
        self.dict.model()
    }

    /// The dictionary is complete.
    pub closed spec fn wf(self) -> bool {
        self.dict.wf()
    }

    /// A tokenizer with an uncompressed dictionary, and with the categories of characters that a
    /// definition gives.
    pub fn new(dict_bytes: &'a [u8], char_def: &[u8]) -> (res: Result<Tokenizer<'a>, LoadError>)
        ensures
            match character_category::definition_from(char_def@, 0, 0, Seq::empty()) {
                Err(line) => res matches Err(LoadError::Rejected(e)) && e.model()
                    == definition_error(line),
                Ok(ranges) => match dic::system_in(dict_bytes@, ranges) {
                    None => res matches Err(LoadError::CutOff),
                    Some(Ok(model)) => res matches Ok(tokenizer) && tokenizer.model() == model
                        && tokenizer.wf(),
                    Some(Err(e)) => res matches Err(LoadError::Rejected(got)) && got.model() == e,
                },
            },
    {
        let char_cat: CharacterCategory = match CharacterCategory::from_bytes(char_def) {
            Ok(char_cat) => char_cat,
            Err(e) => {
                return Err(LoadError::Rejected(e));
            },
        };
        if DictionaryLoader::checked_read_any(dict_bytes).is_none() {
            return Err(LoadError::CutOff);
        }
        match LoadedDictionary::from_system_dictionary_and_chardef(dict_bytes, char_cat) {
            Ok(dict) => Ok(Tokenizer { dict }),
            Err(e) => Err(LoadError::Rejected(e)),
        }
    }

    /// A tokenizer with a compressed dictionary, and with the categories of characters that a
    /// definition gives. `chunk_size` is the size that the chunks of the word records were cut
    /// to.
    pub fn from_xdic(
        dict_bytes: &'a [u8],
        char_def: &[u8],
        settings: OovSettings,
        chunk_size: usize,
    ) -> (res: Result<Tokenizer<'a>, LoadError>)
        ensures
            match character_category::definition_from(char_def@, 0, 0, Seq::empty()) {
                Err(line) => res matches Err(LoadError::Rejected(e)) && e.model()
                    == definition_error(line),
                Ok(ranges) => match res {
                    Ok(tokenizer) => tokenizer.wf() && xdic::loads_as(
                        dict_bytes@,
                        ranges,
                        settings,
                        chunk_size as nat,
                        tokenizer.model(),
                    ),
                    Err(LoadError::Rejected(e)) => xdic::load_fails(
                        dict_bytes@,
                        ranges,
                        settings,
                        chunk_size as nat,
                        e.model(),
                    ),
                    Err(LoadError::CutOff) => !xdic::loadable(
                        dict_bytes@,
                        settings,
                        chunk_size as nat,
                    ),
                },
            },
    {
        let char_cat: CharacterCategory = match CharacterCategory::from_bytes(char_def) {
            Ok(char_cat) => char_cat,
            Err(e) => {
                return Err(LoadError::Rejected(e));
            },
        };
        match LoadedDictionary::checked_from_xdic(dict_bytes, char_cat, settings, chunk_size) {
            Some(Ok(dict)) => Ok(Tokenizer { dict }),
            Some(Err(e)) => Err(LoadError::Rejected(e)),
            None => Err(LoadError::CutOff),
        }
    }

    /// Analyses a text in the units of the mode with the given name.
    pub fn tokenize(&self, text: &str, mode: &str) -> (res: SudachiResult<Vec<Token>>)
        requires
            self.wf(),
        ensures
            tokens_outcome(self.model(), text@, mode@, res),
    {
        let mode: Mode = Mode::from_name(mode);
        match tokenizer::tokenize(&self.dict, text, mode) {
            Ok(list) => {
                assert(analysed(self.model(), text@, mode, Ok(list)));
                Ok(tokens_of(&list))
            },
            Err(e) => Err(e),
        }
    }
}

} // verus!
