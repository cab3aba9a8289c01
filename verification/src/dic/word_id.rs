//! Identifiers of dictionary words.

use vstd::prelude::*;

verus! {

/// Number of identifiers that one dictionary has for its words.
pub const WORD_LIMIT: u32 = 0x1000_0000;

/// Number of dictionary identifiers, the one of out-of-vocabulary words included.
pub const DICTIONARY_LIMIT: u8 = 16;

/// Dictionary identifier of words that are in no dictionary.
pub const OOV_DICTIONARY: u8 = 15;

/// Identifier of a word: the dictionary in the upper 4 bits, the word within it in the
/// lower 28 bits. Dictionary 0 is the system dictionary, 15 marks out-of-vocabulary words.
#[derive(Debug, Clone, Copy, PartialEq, Eq, Structural)]
pub struct WordId {
    pub raw: u32,
}

impl WordId {
    /// The identifier of word `word` of dictionary `dic`.
    pub open spec fn of(dic: u8, word: u32) -> WordId {
        WordId { raw: (dic * WORD_LIMIT + word) as u32 }
    }

    /// The dictionary that the identifier names.
    pub open spec fn dic_of(self) -> u8 {
        (self.raw / WORD_LIMIT) as u8
    }

    /// The word within its dictionary.
    pub open spec fn word_of(self) -> u32 {
        self.raw % WORD_LIMIT
    }

    /// The identifier with the given compressed representation.
    pub fn from_raw(raw: u32) -> (id: WordId)
        ensures
            id == (WordId { raw }),
    {
        WordId { raw }
    }

    /// The identifier of a word of a dictionary.
    pub fn new(dic: u8, word: u32) -> (id: WordId)
        requires
            dic < DICTIONARY_LIMIT,
            word < WORD_LIMIT,
        ensures
            id == WordId::of(dic, word),
            id.dic_of() == dic,
            id.word_of() == word,
    {
        WordId { raw: dic as u32 * WORD_LIMIT + word }
    }

    /// The identifier of an out-of-vocabulary word with the given part of speech.
    pub fn oov(pos_id: u16) -> (id: WordId)
        ensures
            id == WordId::of(OOV_DICTIONARY, pos_id as u32),
            id.dic_of() == OOV_DICTIONARY,
            id.word_of() == pos_id,
    {
        WordId::new(OOV_DICTIONARY, pos_id as u32)
    }

    /// The dictionary that the identifier names.
    pub fn dic(&self) -> (dic: u8)
        ensures
            dic == self.dic_of(),
            dic < DICTIONARY_LIMIT,
    {
        (self.raw / WORD_LIMIT) as u8
    }

    /// The word within its dictionary.
    pub fn word(&self) -> (word: u32)
        ensures
            word == self.word_of(),
            word < WORD_LIMIT,
    {
        self.raw % WORD_LIMIT
    }

    /// Whether the word is in no dictionary.
    pub fn is_oov(&self) -> (oov: bool)
        ensures
            oov == (self.dic_of() == OOV_DICTIONARY),
    {
        self.dic() == OOV_DICTIONARY
    }
}

/// The raw number of an identifier and its two parts determine each other: the dictionary counts
/// for `2^28` each, and the word is what is left.
pub proof fn law_parts_make_up_the_number(id: WordId, dic: u8, word: u32)
    requires
        dic < 16,
        word < 0x1000_0000,
    ensures
        id.raw == id.dic_of() * 0x1000_0000 + id.word_of(),
        id.dic_of() < 16,
        id.word_of() < 0x1000_0000,
        WordId::of(dic, word).raw == dic * 0x1000_0000 + word,
        WordId::of(dic, word).dic_of() == dic,
        WordId::of(dic, word).word_of() == word,
        id.raw == dic * 0x1000_0000 + word <==> id == WordId::of(dic, word),
{
}

} // verus!
