//! Words of an analysed text.

use vstd::prelude::*;
use vstd::utf8;

use crate::analysis::input;
use crate::analysis::input::{InputText, TextModel};
use crate::analysis::mode::Mode;
use crate::dic::grammar;
use crate::dic::lexicon::word_infos::{InfoModel, WordInfo, WordInfoData};
use crate::dic::lexicon_set::SplitIter;
use crate::dic::subset::InfoSubset;
use crate::dic::word_id::{WordId, OOV_DICTIONARY};
use crate::dic::{LoadedDictionary, LoadedModel};
use crate::error;
use crate::error::{SudachiError, SudachiResult};

verus! {

/// What a [`Morpheme`] holds.
pub struct MorphemeModel {
    pub begin: nat,
    pub end: nat,
    pub begin_b: nat,
    pub end_b: nat,
    pub surface: Seq<char>,
    pub word_id: WordId,
    pub info: InfoModel,
    pub pos: Seq<Seq<char>>,
}

/// A word of an analysed text.
#[derive(Debug)]
pub struct Morpheme {
    begin: usize,
    end: usize,
    begin_b: usize,
    end_b: usize,
    surface: String,
    word_id: WordId,
    info: WordInfo,
    pos: Vec<String>,
}

/// The record of a word that is in no dictionary.
pub open spec fn oov_info(surface: Seq<char>, width: nat, id: WordId) -> InfoModel {
    InfoModel {
        surface,
        head_word_length: width as u16,
        pos_id: (id.word_of() % 0x1_0000) as u16,
        normalized_form: surface,
        dictionary_form_word_id: (-1int) as i32,
        dictionary_form: surface,
        reading_form: surface,
        ..InfoModel::blank()
    }
}

/// The record of a word at a place in a text is what the dictionary has for it, or what is made
/// of the text where the word is in no dictionary.
#[verifier::opaque]
pub open spec fn is_record(
    m: LoadedModel,
    surface: Seq<char>,
    width: nat,
    id: WordId,
    info: InfoModel,
) -> bool {
    if id.dic_of() == OOV_DICTIONARY {
        info == oov_info(surface, width, id)
    } else {
        let set = m.lexicon_set;
        let subset = InfoSubset::uniform(true);
        &&& id.dic_of() < set.lexicons.len()
        &&& set.lexicons[id.dic_of() as int].infos.info(id.word_of(), subset) matches Some(
            Ok(found),
        )
        &&& info == set.adjusted(id.dic_of(), subset, found)
    }
}

/// The word `id` from character `begin` up to character `end` of a text.
pub open spec fn is_morpheme(
    m: LoadedModel,
    t: TextModel,
    begin: nat,
    end: nat,
    id: WordId,
    word: MorphemeModel,
) -> bool {
    &&& begin <= end <= t.chars.len()
    &&& word.begin == begin
    &&& word.end == end
    &&& word.begin_b == input::byte_offset(t.chars, begin)
    &&& word.end_b == input::byte_offset(t.chars, end)
    &&& word.surface == t.chars.subrange(begin as int, end as int)
    &&& word.word_id == id
    &&& is_record(m, word.surface, (word.end_b - word.begin_b) as nat, id, word.info)
    &&& word.info.pos_id < m.grammar.pos_list.len()
    &&& word.pos == m.grammar.pos_list[word.info.pos_id as int]
}

/// The words that a word is made up of in the units of a mode.
pub open spec fn split_of(info: InfoModel, mode: Mode) -> Seq<WordId> {
    match mode {
        Mode::A => info.a_unit_split,
        Mode::B => info.b_unit_split,
        Mode::C => Seq::empty(),
    }
}

/// Where the unit behind `units` begins, which begin at character `begin`.
pub open spec fn units_end(begin: nat, units: Seq<MorphemeModel>) -> nat {
    if units.len() == 0 {
        begin
    } else {
        units.last().end
    }
}

/// `unit` is word `k` of the words `ids`, each of which is in a dictionary, within the text up to
/// character `end`. It ends behind as many bytes as its record says, or at `end` where it is the
/// last one.
pub open spec fn is_unit(
    m: LoadedModel,
    t: TextModel,
    end: nat,
    ids: Seq<WordId>,
    k: int,
    unit: MorphemeModel,
) -> bool {
    &&& ids[k].dic_of() != OOV_DICTIONARY
    &&& is_morpheme(m, t, unit.begin, unit.end, ids[k], unit)
    &&& unit.end <= end
    &&& if k + 1 == ids.len() {
        unit.end == end
    } else {
        unit.end_b == unit.begin_b + unit.info.head_word_length
    }
}

/// `units` are the first of the words `ids` from character `begin` up to character `end` of a
/// text, one behind the other.
pub open spec fn are_first_units(
    m: LoadedModel,
    t: TextModel,
    begin: nat,
    end: nat,
    ids: Seq<WordId>,
    units: Seq<MorphemeModel>,
) -> bool {
    &&& units.len() <= ids.len()
    &&& units.len() > 0 ==> units[0].begin == begin
    &&& forall|k: int| 0 <= k < units.len() ==> is_unit(m, t, end, ids, k, #[trigger] units[k])
    &&& forall|k: int| 0 < k < units.len() ==> (#[trigger] units[k]).begin == units[k - 1].end
}

/// `units` are the words `ids` from character `begin` up to character `end` of a text, one
/// behind the other.
pub open spec fn are_units(
    m: LoadedModel,
    t: TextModel,
    begin: nat,
    end: nat,
    ids: Seq<WordId>,
    units: Seq<MorphemeModel>,
) -> bool {
    &&& units.len() == ids.len()
    &&& units.len() > 0
    &&& are_first_units(m, t, begin, end, ids, units)
}

/// `units` are what the word `id` at a place in a text is split into: the word itself, or the
/// words of its split where that has two at least.
pub open spec fn splits_into(
    m: LoadedModel,
    t: TextModel,
    begin: nat,
    end: nat,
    id: WordId,
    mode: Mode,
    whole: MorphemeModel,
    units: Seq<MorphemeModel>,
) -> bool {
    &&& is_morpheme(m, t, begin, end, id, whole)
    &&& if split_of(whole.info, mode).len() <= 1 {
        units == seq![whole]
    } else {
        are_units(m, t, begin, end, split_of(whole.info, mode), units)
    }
}

/// Asking the dictionary for the record of a word fails with `e`.
pub open spec fn record_fails(m: LoadedModel, id: WordId, e: SudachiError) -> bool {
    let subset = InfoSubset::uniform(true);
    ||| m.lexicon_set.outcome(id, subset, None) && e.model() == broken()
    ||| m.lexicon_set.outcome(id, subset, Some(Err(e)))
}

/// The record of a unit does not fit: the grammar lacks its part of speech, or its length leads
/// into the middle of a character or behind the end of the word.
pub open spec fn info_unfit(
    m: LoadedModel,
    t: TextModel,
    at: nat,
    end: nat,
    id: WordId,
    last: bool,
    info: WordInfo,
) -> bool {
    let behind = input::byte_offset(t.chars, at) + info.model().head_word_length as nat;
    &&& m.lexicon_set.outcome(id, InfoSubset::uniform(true), Some(Ok(info)))
    &&& {
        ||| info.model().pos_id >= m.grammar.pos_list.len()
        ||| !last && match input::char_from(t.chars, behind, at) {
            Some(j) => j > end,
            None => true,
        }
    }
}

/// Making a unit of the word `id` fails with `e`.
pub open spec fn unit_fails(
    m: LoadedModel,
    t: TextModel,
    at: nat,
    end: nat,
    id: WordId,
    last: bool,
    e: SudachiError,
) -> bool {
    ||| record_fails(m, id, e)
    ||| e.model() == broken() && exists|info: WordInfo| #[trigger]
        info_unfit(m, t, at, end, id, last, info)
}

/// Making units of the words `ids` fails with `e`.
pub open spec fn split_fails(
    m: LoadedModel,
    t: TextModel,
    begin: nat,
    end: nat,
    ids: Seq<WordId>,
    e: SudachiError,
) -> bool {
    exists|units: Seq<MorphemeModel>| #[trigger] fails_behind(m, t, begin, end, ids, units, e)
}

/// `units` could be made of the first of the words `ids`, and making one of the next word fails
/// with `e`.
pub open spec fn fails_behind(
    m: LoadedModel,
    t: TextModel,
    begin: nat,
    end: nat,
    ids: Seq<WordId>,
    units: Seq<MorphemeModel>,
    e: SudachiError,
) -> bool {
    let k = units.len() as int;
    &&& k < ids.len()
    &&& are_first_units(m, t, begin, end, ids, units)
    &&& unit_fails(m, t, units_end(begin, units), end, ids[k], k + 1 == ids.len(), e)
}

/// The record of a word at a place in a text names a part of speech that the grammar lacks.
pub open spec fn pos_unknown(
    m: LoadedModel,
    t: TextModel,
    begin: nat,
    end: nat,
    id: WordId,
    info: InfoModel,
) -> bool {
    let width = input::byte_offset(t.chars, end) - input::byte_offset(t.chars, begin);
    &&& is_record(m, t.chars.subrange(begin as int, end as int), width as nat, id, info)
    &&& info.pos_id >= m.grammar.pos_list.len()
}

/// Splitting the word `id` at a place in a text fails with `e`.
pub open spec fn word_fails(
    m: LoadedModel,
    t: TextModel,
    begin: nat,
    end: nat,
    id: WordId,
    mode: Mode,
    e: SudachiError,
) -> bool {
    ||| id.dic_of() != OOV_DICTIONARY && record_fails(m, id, e)
    ||| e.model() == broken() && exists|info: InfoModel| #[trigger]
        pos_unknown(m, t, begin, end, id, info)
    ||| exists|whole: MorphemeModel| #[trigger]
        is_morpheme(m, t, begin, end, id, whole) && split_of(whole.info, mode).len() > 1
            && split_fails(m, t, begin, end, split_of(whole.info, mode), e)
}

/// `units` are what the word `id` at a place in a text is split into, and `split` says whether
/// they are others than the word itself.
pub open spec fn word_splits(
    m: LoadedModel,
    t: TextModel,
    begin: nat,
    end: nat,
    id: WordId,
    mode: Mode,
    units: Seq<MorphemeModel>,
    split: bool,
) -> bool {
    exists|whole: MorphemeModel| #[trigger]
        splits_into(m, t, begin, end, id, mode, whole, units) && split == (split_of(
            whole.info,
            mode,
        ).len() > 1)
}

/// `units` are the words `ids`, one behind the other from character `begin` up to character
/// `end`.
pub open spec fn are_the_words(
    units: Seq<MorphemeModel>,
    ids: Seq<WordId>,
    begin: nat,
    end: nat,
) -> bool {
    &&& units.len() == ids.len() > 0
    &&& forall|i: int| 0 <= i < units.len() ==> (#[trigger] units[i]).word_id == ids[i]
    &&& units[0].begin == begin
    &&& units.last().end == end
    &&& forall|i: int| 0 < i < units.len() ==> (#[trigger] units[i]).begin == units[i - 1].end
}

/// What a word of a dictionary is split into follows from its record. In middle units it is
/// replaced by exactly the words that the record names as middle units, where these are two at
/// least, and in short units by those that it names as short units; otherwise, and in the longest
/// units, the word itself stays.
pub proof fn law_split_follows_the_record(
    m: LoadedModel,
    t: TextModel,
    begin: nat,
    end: nat,
    id: WordId,
    mode: Mode,
    units: Seq<MorphemeModel>,
    split: bool,
    read: WordInfo,
)
    requires
        word_splits(m, t, begin, end, id, mode, units, split),
        id.raw < 0xf000_0000,
        m.lexicon_set.outcome(id, InfoSubset::uniform(true), Some(Ok(read))),
    ensures
        mode == Mode::B && read.model().b_unit_split.len() >= 2 ==> split && are_the_words(
            units,
            read.model().b_unit_split,
            begin,
            end,
        ),
        mode == Mode::A && read.model().a_unit_split.len() >= 2 ==> split && are_the_words(
            units,
            read.model().a_unit_split,
            begin,
            end,
        ),
        mode == Mode::C || (mode == Mode::B && read.model().b_unit_split.len() < 2) || (mode
            == Mode::A && read.model().a_unit_split.len() < 2) ==> !split && are_the_words(
            units,
            seq![id],
            begin,
            end,
        ) && units[0].info == read.model(),
{
    reveal(is_record);
    let whole = choose|whole: MorphemeModel| #[trigger]
        splits_into(m, t, begin, end, id, mode, whole, units) && split == (split_of(
            whole.info,
            mode,
        ).len() > 1);
    assert(is_morpheme(m, t, begin, end, id, whole));
    assert(whole.info == read.model());
    let ids = split_of(whole.info, mode);
    if ids.len() > 1 {
        assert(are_first_units(m, t, begin, end, ids, units));
        assert(is_unit(m, t, end, ids, units.len() - 1, units[units.len() - 1]));
        assert forall|i: int| 0 <= i < units.len() implies (#[trigger] units[i]).word_id
            == ids[i] by {
            assert(is_unit(m, t, end, ids, i, units[i]));
        }
    }
}

/// A word that is in no dictionary stays whole in every mode. Its texts are its surface, its
/// length is that of its bytes, and its part of speech is the number that its identifier holds.
pub proof fn law_words_in_no_dictionary_stay_whole(
    m: LoadedModel,
    t: TextModel,
    begin: nat,
    end: nat,
    id: WordId,
    mode: Mode,
    units: Seq<MorphemeModel>,
    split: bool,
)
    requires
        word_splits(m, t, begin, end, id, mode, units, split),
        id.raw >= 0xf000_0000,
    ensures
        !split,
        are_the_words(units, seq![id], begin, end),
        ({
            let word = units[0];
            &&& word.surface == t.chars.subrange(begin as int, end as int)
            &&& word.info.surface == word.surface
            &&& word.info.reading_form == word.surface
            &&& word.info.normalized_form == word.surface
            &&& word.info.dictionary_form == word.surface
            &&& word.info.dictionary_form_word_id == -1
            &&& word.end_b - word.begin_b < 0x1_0000 ==> word.info.head_word_length == word.end_b
                - word.begin_b
            &&& word.info.pos_id == id.raw % 0x1_0000
            &&& word.pos == m.grammar.pos_list[id.raw as int % 0x1_0000]
            &&& word.info.a_unit_split.len() == 0
            &&& word.info.b_unit_split.len() == 0
            &&& word.info.word_structure.len() == 0
            &&& word.info.synonym_group_ids.len() == 0
        }),
{
    reveal(is_record);
    let whole = choose|whole: MorphemeModel| #[trigger]
        splits_into(m, t, begin, end, id, mode, whole, units) && split == (split_of(
            whole.info,
            mode,
        ).len() > 1);
    assert(is_morpheme(m, t, begin, end, id, whole));
    input::lemma_byte_offset_grows(t.chars, begin, end);
    assert(id.word_of() % 0x1_0000 == id.raw % 0x1_0000);
}

/// A word at a place in a text has the characters and the bytes of its place, the record that the
/// dictionary has for it, and the part of speech that the grammar has under the number of the
/// record.
pub proof fn law_word_is_what_its_place_and_record_say(
    m: LoadedModel,
    t: TextModel,
    begin: nat,
    end: nat,
    id: WordId,
    word: MorphemeModel,
    read: WordInfo,
)
    requires
        is_morpheme(m, t, begin, end, id, word),
        id.raw < 0xf000_0000,
        m.lexicon_set.outcome(id, InfoSubset::uniform(true), Some(Ok(read))),
    ensures
        word.begin == begin,
        word.end == end,
        word.begin_b == utf8::encode_utf8(t.chars.take(begin as int)).len(),
        word.end_b == utf8::encode_utf8(t.chars.take(end as int)).len(),
        word.surface == t.chars.subrange(begin as int, end as int),
        word.word_id == id,
        word.info == read.model(),
        word.pos == m.grammar.pos_list[read.model().pos_id as int],
{
    reveal(is_record);
    input::law_character_begins_behind_the_bytes_before(t.chars, begin);
    input::law_character_begins_behind_the_bytes_before(t.chars, end);
}

/// Each unit of a word but the last one has as many bytes as its record gives as its length, and
/// the last one ends where the word does; each is what its place and its record say.
pub proof fn law_units_have_the_lengths_of_their_records(
    m: LoadedModel,
    t: TextModel,
    begin: nat,
    end: nat,
    id: WordId,
    mode: Mode,
    units: Seq<MorphemeModel>,
    split: bool,
    i: int,
    read: WordInfo,
)
    requires
        word_splits(m, t, begin, end, id, mode, units, split),
        split,
        0 <= i < units.len(),
        m.lexicon_set.outcome(units[i].word_id, InfoSubset::uniform(true), Some(Ok(read))),
    ensures
        units[i].word_id.raw < 0xf000_0000,
        units[i].info == read.model(),
        units[i].surface == t.chars.subrange(units[i].begin as int, units[i].end as int),
        units[i].pos == m.grammar.pos_list[read.model().pos_id as int],
        units[i].begin_b == utf8::encode_utf8(t.chars.take(units[i].begin as int)).len(),
        units[i].end_b == utf8::encode_utf8(t.chars.take(units[i].end as int)).len(),
        i + 1 < units.len() ==> units[i].end_b == units[i].begin_b
            + read.model().head_word_length,
        i + 1 == units.len() ==> units[i].end == end,
{
    let whole = choose|whole: MorphemeModel| #[trigger]
        splits_into(m, t, begin, end, id, mode, whole, units) && split == (split_of(
            whole.info,
            mode,
        ).len() > 1);
    let ids = split_of(whole.info, mode);
    assert(is_unit(m, t, end, ids, i, units[i]));
    law_word_is_what_its_place_and_record_say(
        m,
        t,
        units[i].begin,
        units[i].end,
        ids[i],
        units[i],
        read,
    );
}

/// What morphemes hold.
pub open spec fn models(words: Seq<Morpheme>) -> Seq<MorphemeModel> {
    words.map_values(|word: Morpheme| word.model())
}

impl Morpheme {
    /// What the word is.
    pub closed spec fn model(self) -> MorphemeModel {
        MorphemeModel {
            begin: self.begin as nat,
            end: self.end as nat,
            begin_b: self.begin_b as nat,
            end_b: self.end_b as nat,
            surface: self.surface@,
            word_id: self.word_id,
            info: self.info.model(),
            pos: grammar::pos_view(self.pos@),
        }
    }

    /// The text of the word.
    pub fn surface(&self) -> (surface: &str)
        ensures
            surface@ == self.model().surface,
    {
        self.surface.as_str()
    }

    /// First character of the word.
    pub fn begin_c(&self) -> (begin: usize)
        ensures
            begin == self.model().begin,
    {
        self.begin
    }

    /// Character behind the word.
    pub fn end_c(&self) -> (end: usize)
        ensures
            end == self.model().end,
    {
        self.end
    }

    /// First byte of the word.
    pub fn begin(&self) -> (begin: usize)
        ensures
            begin == self.model().begin_b,
    {
        self.begin_b
    }

    /// Byte behind the word.
    pub fn end(&self) -> (end: usize)
        ensures
            end == self.model().end_b,
    {
        self.end_b
    }

    /// The texts of the part of speech.
    pub fn part_of_speech(&self) -> (pos: &Vec<String>)
        ensures
            grammar::pos_view(pos@) == self.model().pos,
    {
        &self.pos
    }

    /// The record of the word.
    pub fn get_word_info(&self) -> (info: &WordInfo)
        ensures
            info.model() == self.model().info,
    {
        &self.info
    }

    /// The normalized form of the word.
    pub fn normalized_form(&self) -> (text: &str)
        ensures
            text@ == self.model().info.text(self.model().info.normalized_form),
    {
        self.info.normalized_form()
    }

    /// The dictionary form of the word.
    pub fn dictionary_form(&self) -> (text: &str)
        ensures
            text@ == self.model().info.text(self.model().info.dictionary_form),
    {
        self.info.dictionary_form()
    }

    /// The reading of the word.
    pub fn reading_form(&self) -> (text: &str)
        ensures
            text@ == self.model().info.text(self.model().info.reading_form),
    {
        self.info.reading_form()
    }

    /// Identifiers of the synonym groups of the word.
    pub fn synonym_group_ids(&self) -> (ids: &[u32])
        ensures
            ids@ == self.model().info.synonym_group_ids,
    {
        self.info.synonym_group_ids()
    }

    /// Identifier of the word.
    pub fn word_id(&self) -> (id: WordId)
        ensures
            id == self.model().word_id,
    {
        self.word_id
    }

    /// Whether the word is in no dictionary.
    pub fn is_oov(&self) -> (oov: bool)
        ensures
            oov == (self.model().word_id.dic_of() == OOV_DICTIONARY),
    {
        self.word_id.is_oov()
    }

    /// Identifier of the dictionary of the word; negative where it is in none.
    pub fn dictionary_id(&self) -> (id: i32)
        ensures
            id == if self.model().word_id.dic_of() == OOV_DICTIONARY {
                -1
            } else {
                self.model().word_id.dic_of() as int
            },
    {
        if self.word_id.is_oov() {
            -1
        } else {
            self.word_id.dic() as i32
        }
    }
}

/// A copy of the texts of a part of speech.
pub fn copied_pos(pos: &Vec<String>) -> (copy: Vec<String>)
    ensures
        grammar::pos_view(copy@) == grammar::pos_view(pos@),
{
    let mut copy: Vec<String> = Vec::new();
    let mut i: usize = 0;
    while i < pos.len()
        invariant
            i <= pos@.len(),
            copy@.len() == i,
            forall|k: int| 0 <= k < i ==> (#[trigger] copy@[k])@ == pos@[k]@,
        decreases pos@.len() - i,
    {
        copy.push(pos[i].clone());
        i = i + 1;
    }
    assert(grammar::pos_view(copy@) =~= grammar::pos_view(pos@));
    copy
}

/// The record of a word that is in no dictionary.
fn make_oov_info(text: &InputText, begin: usize, end: usize, width: usize, id: WordId) -> (info:
    WordInfo)
    requires
        begin <= end <= text.chars().len(),
        width <= 0xffff,
    ensures
        info.model() == oov_info(
            text.chars().subrange(begin as int, end as int),
            width as nat,
            id,
        ),
{
    let mut data: WordInfoData = WordInfoData::default();
    data.surface = text.slice(begin, end);
    data.head_word_length = width as u16;
    data.pos_id = (id.word() % 0x1_0000) as u16;
    data.normalized_form = text.slice(begin, end);
    data.dictionary_form_word_id = -1;
    data.dictionary_form = text.slice(begin, end);
    data.reading_form = text.slice(begin, end);
    let info: WordInfo = WordInfo::from(data);
    proof {
        info.lemma_model();
        crate::dic::lexicon::word_infos::law_data_round_trip(info, data);
    }
    info
}

/// The word with the given record at a place in a text. Returns nothing where the grammar lacks
/// its part of speech.
fn make_morpheme(
    dict: &LoadedDictionary,
    text: &InputText,
    begin: usize,
    end: usize,
    id: WordId,
    info: WordInfo,
) -> (word: Option<Morpheme>)
    requires
        text.wf(),
        begin <= end <= text.chars().len(),
        is_record(
            dict.model(),
            text.chars().subrange(begin as int, end as int),
            (input::byte_offset(text.chars(), end as nat) - input::byte_offset(
                text.chars(),
                begin as nat,
            )) as nat,
            id,
            info.model(),
        ),
    ensures
        word matches Some(got) ==> is_morpheme(
            dict.model(),
            text.model(),
            begin as nat,
            end as nat,
            id,
            got.model(),
        ) && got.model().info == info.model(),
        word is None ==> info.model().pos_id >= dict.model().grammar.pos_list.len(),
{
    let pos_id: usize = info.pos_id() as usize;
    if pos_id >= dict.grammar.pos_list.len() {
        return None;
    }
    Some(
        Morpheme {
            begin,
            end,
            begin_b: text.offset(begin),
            end_b: text.offset(end),
            surface: text.slice(begin, end),
            word_id: id,
            info,
            pos: copied_pos(&dict.grammar.pos_list[pos_id]),
        },
    )
}

/// The error for a dictionary that lacks what it refers to.
pub open spec fn broken() -> error::ErrorModel {
    error::ErrorModel::InvalidDictionaryGrammar
}

/// Finds the record of a word at a place in a text.
fn find_record(
    dict: &LoadedDictionary,
    text: &InputText,
    begin: usize,
    end: usize,
    id: WordId,
) -> (res: SudachiResult<WordInfo>)
    requires
        dict.wf(),
        text.wf(),
        begin <= end <= text.chars().len(),
    ensures
        res matches Ok(info) ==> is_record(
            dict.model(),
            text.chars().subrange(begin as int, end as int),
            (input::byte_offset(text.chars(), end as nat) - input::byte_offset(
                text.chars(),
                begin as nat,
            )) as nat,
            id,
            info.model(),
        ),
        res matches Err(e) ==> id.dic_of() != OOV_DICTIONARY && record_fails(
            dict.model(),
            id,
            e,
        ),
{
    reveal(is_record);
    if id.is_oov() {
        proof {
            text.lemma_length();
            input::lemma_byte_offset_grows(text.chars(), begin as nat, end as nat);
            input::lemma_byte_offset_grows(text.chars(), end as nat, text.chars().len());
        }
        let width: usize = text.offset(end) - text.offset(begin);
        return Ok(make_oov_info(text, begin, end, width, id));
    }
    match dict.lexicon_set.checked_word_info(id, InfoSubset::all()) {
        Some(res) => res,
        None => Err(SudachiError::InvalidDictionaryGrammar),
    }
}

/// Splits a word at a place in a text into the units of a mode. Returns the units, and whether
/// they are others than the word itself.
pub fn split_word(
    dict: &LoadedDictionary,
    text: &InputText,
    begin: usize,
    end: usize,
    id: WordId,
    mode: Mode,
) -> (res: SudachiResult<(Vec<Morpheme>, bool)>)
    requires
        dict.wf(),
        text.wf(),
        begin <= end <= text.chars().len(),
    ensures
        match res {
            Ok((units, split)) => word_splits(
                dict.model(),
                text.model(),
                begin as nat,
                end as nat,
                id,
                mode,
                models(units@),
                split,
            ),
            Err(e) => word_fails(
                dict.model(),
                text.model(),
                begin as nat,
                end as nat,
                id,
                mode,
                e,
            ),
        },
{
    let info: WordInfo = match find_record(dict, text, begin, end, id) {
        Ok(info) => info,
        Err(e) => {
            return Err(e);
        },
    };
    let ghost record = info.model();
    let whole: Morpheme = match make_morpheme(dict, text, begin, end, id, info) {
        Some(whole) => whole,
        None => {
            assert(pos_unknown(
                dict.model(),
                text.model(),
                begin as nat,
                end as nat,
                id,
                record,
            ));
            return Err(SudachiError::InvalidDictionaryGrammar);
        },
    };
    let ghost model = whole.model();
    let count: usize = match mode {
        Mode::A => whole.info.a_unit_split().len(),
        Mode::B => whole.info.b_unit_split().len(),
        Mode::C => 0,
    };
    if count <= 1 {
        let mut units: Vec<Morpheme> = Vec::new();
        units.push(whole);
        assert(models(units@) =~= seq![model]);
        assert(splits_into(
            dict.model(),
            text.model(),
            begin as nat,
            end as nat,
            id,
            mode,
            model,
            models(units@),
        ));
        return Ok((units, false));
    }
    let ids = match mode {
        Mode::A => whole.info.a_unit_split(),
        _ => whole.info.b_unit_split(),
    };
    match split_units(dict, text, begin, end, ids) {
        Ok(units) => {
            assert(splits_into(
                dict.model(),
                text.model(),
                begin as nat,
                end as nat,
                id,
                mode,
                model,
                models(units@),
            ));
            Ok((units, true))
        },
        Err(e) => {
            assert(is_morpheme(
                dict.model(),
                text.model(),
                begin as nat,
                end as nat,
                id,
                model,
            ));
            Err(e)
        },
    }
}

/// The words of a split at a place in a text.
fn split_units(
    dict: &LoadedDictionary,
    text: &InputText,
    begin: usize,
    end: usize,
    ids: &[WordId],
) -> (res: SudachiResult<Vec<Morpheme>>)
    requires
        dict.wf(),
        text.wf(),
        begin <= end <= text.chars().len(),
        ids@.len() > 0,
    ensures
        match res {
            Ok(units) => are_units(
                dict.model(),
                text.model(),
                begin as nat,
                end as nat,
                ids@,
                models(units@),
            ),
            Err(e) => split_fails(
                dict.model(),
                text.model(),
                begin as nat,
                end as nat,
                ids@,
                e,
            ),
        },
{
    let ghost m = dict.model();
    let ghost t = text.model();
    let mut units: Vec<Morpheme> = Vec::new();
    let mut at: usize = begin;
    let mut records: SplitIter = SplitIter::new(ids, &dict.lexicon_set);
    assert(ids@.skip(0) =~= ids@);
    let mut i: usize = 0;
    while i < ids.len()
        invariant
            i <= ids@.len(),
            records.remaining() == ids@.skip(i as int),
            records.lexicons() == m.lexicon_set,
            dict.wf(),
            text.wf(),
            m == dict.model(),
            t == text.model(),
            begin <= at <= end <= t.chars.len(),
            models(units@).len() == i,
            at == units_end(begin as nat, models(units@)),
            are_first_units(m, t, begin as nat, end as nat, ids@, models(units@)),
        decreases ids@.len() - i,
    {
        assert(ids@.skip(i as int).drop_first() =~= ids@.skip(i + 1));
        let last: bool = i + 1 == ids.len();
        let (id, info) = match records.next() {
            Some((id, Some(Ok(info)))) => (id, info),
            Some((_, Some(Err(e)))) => {
                assert(fails_behind(
                    m,
                    t,
                    begin as nat,
                    end as nat,
                    ids@,
                    models(units@),
                    e,
                ));
                return Err(e);
            },
            _ => {
                let e: SudachiError = SudachiError::InvalidDictionaryGrammar;
                assert(fails_behind(
                    m,
                    t,
                    begin as nat,
                    end as nat,
                    ids@,
                    models(units@),
                    e,
                ));
                return Err(e);
            },
        };
        assert(id == ids@[i as int]);
        let word: Morpheme = match next_unit(dict, text, at, end, id, info, last) {
            Ok(word) => word,
            Err(e) => {
                assert(fails_behind(
                    m,
                    t,
                    begin as nat,
                    end as nat,
                    ids@,
                    models(units@),
                    e,
                ));
                return Err(e);
            },
        };
        let ghost before = models(units@);
        at = word.end;
        units.push(word);
        proof {
            let all = models(units@);
            assert(all =~= before.push(word.model()));
            assert forall|k: int| 0 <= k < all.len() implies is_unit(
                m,
                t,
                end as nat,
                ids@,
                k,
                #[trigger] all[k],
            ) by {
                if k < i {
                    assert(all[k] == before[k]);
                }
            }
            assert forall|k: int| 0 < k < all.len() implies (#[trigger] all[k]).begin == all[k
                - 1].end by {
                if k < i {
                    assert(all[k] == before[k] && all[k - 1] == before[k - 1]);
                } else {
                    assert(all[k - 1] == before.last());
                }
            }
        }
        i = i + 1;
    }
    Ok(units)
}

/// The next word of a split: up to `end` where it is the last one, and otherwise behind as many
/// bytes as its record says.
fn next_unit(
    dict: &LoadedDictionary,
    text: &InputText,
    at: usize,
    end: usize,
    id: WordId,
    info: WordInfo,
    last: bool,
) -> (res: SudachiResult<Morpheme>)
    requires
        dict.wf(),
        text.wf(),
        at <= end <= text.chars().len(),
        dict.model().lexicon_set.outcome(id, InfoSubset::uniform(true), Some(Ok(info))),
    ensures
        res matches Ok(word) ==> {
            let w = word.model();
            &&& w.begin == at
            &&& at <= w.end <= end
            &&& is_morpheme(dict.model(), text.model(), at as nat, w.end, id, w)
            &&& last ==> w.end == end
            &&& !last ==> w.end_b == w.begin_b + w.info.head_word_length
        },
        res matches Err(e) ==> e.model() == broken() && info_unfit(
            dict.model(),
            text.model(),
            at as nat,
            end as nat,
            id,
            last,
            info,
        ),
{
    reveal(is_record);
    proof {
        text.lemma_length();
        input::lemma_byte_offset_grows(text.chars(), at as nat, text.chars().len());
    }
    let mut unit_end: usize = end;
    if !last {
        let byte_end: usize = text.offset(at) + info.head_word_length();
        match text.char_at(byte_end, at) {
            Some(found) => {
                if found > end {
                    return Err(SudachiError::InvalidDictionaryGrammar);
                }
                proof {
                    input::lemma_char_from(text.chars(), byte_end as nat, at as nat);
                }
                unit_end = found;
            },
            None => {
                return Err(SudachiError::InvalidDictionaryGrammar);
            },
        }
    }
    match make_morpheme(dict, text, at, unit_end, id, info) {
        Some(word) => Ok(word),
        None => Err(SudachiError::InvalidDictionaryGrammar),
    }
}

} // verus!
