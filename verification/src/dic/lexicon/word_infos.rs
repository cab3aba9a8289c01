//! Word records.

use vstd::prelude::*;
use vstd::rwlock::{RwLock, RwLockPredicate};
use vstd::slice::{slice_subrange, slice_to_vec};
use vstd::std_specs::convert::FromSpecImpl;

use crate::bytes;
use crate::dic::read::word_info;
use crate::dic::read::word_info::WordInfoParser;
use crate::dic::subset::InfoSubset;
use crate::dic::word_id::WordId;
use crate::dic::zstandard;
use crate::dic::zstandard::DecompressError;
use crate::error;
use crate::error::{ReadError, SudachiError, SudachiResult};
use crate::util::text;

verus! {

/// What a [`WordInfoData`] holds.
pub struct InfoModel {
    pub surface: Seq<char>,
    pub head_word_length: u16,
    pub pos_id: u16,
    pub normalized_form: Seq<char>,
    pub dictionary_form_word_id: i32,
    pub dictionary_form: Seq<char>,
    pub reading_form: Seq<char>,
    pub a_unit_split: Seq<WordId>,
    pub b_unit_split: Seq<WordId>,
    pub word_structure: Seq<WordId>,
    pub synonym_group_ids: Seq<u32>,
}

impl InfoModel {
    /// A record with no value set.
    pub open spec fn blank() -> InfoModel {
        InfoModel {
            surface: Seq::empty(),
            head_word_length: 0,
            pos_id: 0,
            normalized_form: Seq::empty(),
            dictionary_form_word_id: 0,
            dictionary_form: Seq::empty(),
            reading_form: Seq::empty(),
            a_unit_split: Seq::empty(),
            b_unit_split: Seq::empty(),
            word_structure: Seq::empty(),
            synonym_group_ids: Seq::empty(),
        }
    }

    /// A text of the record; the surface stands in for one that is empty.
    pub open spec fn text(self, text: Seq<char>) -> Seq<char> {
        if text.len() == 0 {
            self.surface
        } else {
            text
        }
    }
}

/// Internal storage of the [`WordInfo`].
///
/// String fields can be empty; the value of the surface field is to be used instead then.
#[derive(Clone, Debug)]
pub struct WordInfoData {
    pub surface: String,
    pub head_word_length: u16,
    pub pos_id: u16,
    pub normalized_form: String,
    pub dictionary_form_word_id: i32,
    pub dictionary_form: String,
    pub reading_form: String,
    pub a_unit_split: Vec<WordId>,
    pub b_unit_split: Vec<WordId>,
    pub word_structure: Vec<WordId>,
    pub synonym_group_ids: Vec<u32>,
}

impl WordInfoData {
    /// What the record holds.
    pub open spec fn model(self) -> InfoModel {
        InfoModel {
            surface: self.surface@,
            head_word_length: self.head_word_length,
            pos_id: self.pos_id,
            normalized_form: self.normalized_form@,
            dictionary_form_word_id: self.dictionary_form_word_id,
            dictionary_form: self.dictionary_form@,
            reading_form: self.reading_form@,
            a_unit_split: self.a_unit_split@,
            b_unit_split: self.b_unit_split@,
            word_structure: self.word_structure@,
            synonym_group_ids: self.synonym_group_ids@,
        }
    }
}

impl Default for WordInfoData {
    fn default() -> (data: WordInfoData)
        ensures
            data.model() == InfoModel::blank(),
    {
        WordInfoData {
            surface: String::new(),
            head_word_length: 0,
            pos_id: 0,
            normalized_form: String::new(),
            dictionary_form_word_id: 0,
            dictionary_form: String::new(),
            reading_form: String::new(),
            a_unit_split: Vec::new(),
            b_unit_split: Vec::new(),
            word_structure: Vec::new(),
            synonym_group_ids: Vec::new(),
        }
    }
}

/// A word record.
///
/// Its data can be taken out as a [`WordInfoData`], which consumes the record.
#[derive(Clone, Debug)]
pub struct WordInfo {
    data: WordInfoData,
}

impl Default for WordInfo {
    fn default() -> (info: WordInfo)
        ensures
            info.model() == InfoModel::blank(),
    {
        WordInfo { data: WordInfoData::default() }
    }
}

impl WordInfo {
    /// What the record holds.
    pub closed spec fn model(self) -> InfoModel {
        self.data.model()
    }

    /// The record with the given data.
    pub closed spec fn of(data: WordInfoData) -> WordInfo {
        WordInfo { data }
    }

    /// The data of the record.
    pub closed spec fn inner(self) -> WordInfoData {
        self.data
    }

    /// A record holds what its data hold.
    pub proof fn lemma_model(self)
        ensures
            self.model() == self.inner().model(),
            self == WordInfo::of(self.inner()),
    {
    }

    /// The text under which the word is looked up.
    pub fn surface(&self) -> (text: &str)
        ensures
            text@ == self.model().surface,
    {
        self.data.surface.as_str()
    }

    /// Length of the head word.
    pub fn head_word_length(&self) -> (length: usize)
        ensures
            length == self.model().head_word_length,
    {
        self.data.head_word_length as usize
    }

    /// Identifier of the part of speech.
    pub fn pos_id(&self) -> (pos_id: u16)
        ensures
            pos_id == self.model().pos_id,
    {
        self.data.pos_id
    }

    /// The normalized form of the word.
    pub fn normalized_form(&self) -> (text: &str)
        ensures
            text@ == self.model().text(self.model().normalized_form),
    {
        self.text_or_surface(&self.data.normalized_form)
    }

    /// Identifier of the word that is the dictionary form of this one.
    pub fn dictionary_form_word_id(&self) -> (id: i32)
        ensures
            id == self.model().dictionary_form_word_id,
    {
        self.data.dictionary_form_word_id
    }

    /// The dictionary form of the word.
    pub fn dictionary_form(&self) -> (text: &str)
        ensures
            text@ == self.model().text(self.model().dictionary_form),
    {
        self.text_or_surface(&self.data.dictionary_form)
    }

    /// The reading of the word.
    pub fn reading_form(&self) -> (text: &str)
        ensures
            text@ == self.model().text(self.model().reading_form),
    {
        self.text_or_surface(&self.data.reading_form)
    }

    /// A text, or the surface in place of an empty one.
    fn text_or_surface<'a>(&'a self, text: &'a String) -> (chosen: &'a str)
        ensures
            chosen@ == self.model().text(text@),
    {
        if text.as_str().is_empty() {
            self.surface()
        } else {
            text.as_str()
        }
    }

    /// The words that make up this one in the shortest units.
    pub fn a_unit_split(&self) -> (ids: &[WordId])
        ensures
            ids@ == self.model().a_unit_split,
    {
        self.data.a_unit_split.as_slice()
    }

    /// The words that make up this one in middle units.
    pub fn b_unit_split(&self) -> (ids: &[WordId])
        ensures
            ids@ == self.model().b_unit_split,
    {
        self.data.b_unit_split.as_slice()
    }

    /// The words that this one is composed of.
    pub fn word_structure(&self) -> (ids: &[WordId])
        ensures
            ids@ == self.model().word_structure,
    {
        self.data.word_structure.as_slice()
    }

    /// Identifiers of the synonym groups of the word.
    pub fn synonym_group_ids(&self) -> (ids: &[u32])
        ensures
            ids@ == self.model().synonym_group_ids,
    {
        self.data.synonym_group_ids.as_slice()
    }

    /// The data of the record.
    pub fn borrow_data(&self) -> (data: &WordInfoData)
        ensures
            *data == self.inner(),
            data.model() == self.model(),
    {
        &self.data
    }
}

impl From<WordInfoData> for WordInfo {
    fn from(data: WordInfoData) -> (info: WordInfo) {
        WordInfo { data }
    }
}

impl FromSpecImpl<WordInfoData> for WordInfo {
    open spec fn obeys_from_spec() -> bool {
        true
    }

    open spec fn from_spec(data: WordInfoData) -> WordInfo {
        WordInfo::of(data)
    }
}

impl From<WordInfo> for WordInfoData {
    fn from(info: WordInfo) -> (data: WordInfoData) {
        info.data
    }
}

impl FromSpecImpl<WordInfo> for WordInfoData {
    open spec fn obeys_from_spec() -> bool {
        true
    }

    open spec fn from_spec(info: WordInfo) -> WordInfoData {
        info.inner()
    }
}

/// Taking the data out of a record and making a record of them gives back the record, and the
/// other way round.
pub proof fn law_data_round_trip(info: WordInfo, data: WordInfoData)
    ensures
        WordInfo::of(info.inner()) == info,
        WordInfo::of(data).inner() == data,
{
}

/// The outcome of reading a record.
pub type RecordOutcome = Option<Result<InfoModel, ReadError>>;

/// The record that `s` begins with, as far as it is asked for.
pub open spec fn record_in(s: Seq<u8>, subset: InfoSubset) -> RecordOutcome {
    match word_info::record(s, subset) {
        Some(Ok((n, info))) => Some(Ok(info)),
        Some(Err(e)) => Some(Err(e)),
        None => None,
    }
}

/// The word whose surface is the dictionary form of a word, if that is another one.
pub open spec fn form_word(info: InfoModel, word_id: u32) -> Option<u32> {
    if info.dictionary_form_word_id >= 0 && info.dictionary_form_word_id != word_id {
        Some(info.dictionary_form_word_id as u32)
    } else {
        None
    }
}

/// A record with the surface of the record of its dictionary form.
pub open spec fn with_form(info: InfoModel, form: RecordOutcome) -> RecordOutcome {
    match form {
        Some(Ok(inner)) => Some(Ok(InfoModel { dictionary_form: inner.surface, ..info })),
        Some(Err(e)) => Some(Err(e)),
        None => None,
    }
}

/// Uncompressed word records, found by a table of their places.
pub struct WordInfos<'a> {
    bytes: &'a [u8],
    offset: usize,
    has_synonym_group_ids: bool,
}

/// What a [`WordInfos`] holds.
pub struct FlatModel {
    pub bytes: Seq<u8>,
    pub offset: nat,
    pub has_synonym_group_ids: bool,
}

impl FlatModel {
    /// Where the record of a word begins.
    pub open spec fn start(self, word_id: u32) -> Option<Result<nat, ReadError>> {
        let p = self.offset + 4 * word_id;
        if p > self.bytes.len() {
            None
        } else if p + 4 > self.bytes.len() {
            Some(Err(ReadError::Eof))
        } else {
            Some(Ok(bytes::u32_at(self.bytes, p) as nat))
        }
    }

    /// The record of a word, as far as it is asked for.
    pub open spec fn record(self, word_id: u32, subset: InfoSubset) -> RecordOutcome {
        match self.start(word_id) {
            Some(Ok(start)) => if start > self.bytes.len() {
                None
            } else {
                record_in(self.bytes.skip(start as int), subset)
            },
            Some(Err(e)) => Some(Err(e)),
            None => None,
        }
    }

    /// The record of a word with its dictionary form.
    pub open spec fn info(self, word_id: u32, subset: InfoSubset) -> RecordOutcome {
        match self.record(word_id, subset.available(self.has_synonym_group_ids)) {
            Some(Ok(info)) => match form_word(info, word_id) {
                Some(form) => with_form(info, self.record(form, InfoSubset::just_surface())),
                None => Some(Ok(info)),
            },
            Some(Err(e)) => Some(Err(e)),
            None => None,
        }
    }
}

impl<'a> WordInfos<'a> {
    /// What the records are.
    pub closed spec fn model(self) -> FlatModel {
        FlatModel {
            bytes: self.bytes@,
            offset: self.offset as nat,
            has_synonym_group_ids: self.has_synonym_group_ids,
        }
    }

    /// The records whose table of places begins at byte `offset`.
    pub fn new(
        bytes: &'a [u8],
        offset: usize,
        _word_size: u32,
        has_synonym_group_ids: bool,
    ) -> (infos: WordInfos<'a>)
        ensures
            infos.model() == (FlatModel {
                bytes: bytes@,
                offset: offset as nat,
                has_synonym_group_ids,
            }),
    {
        WordInfos { bytes, offset, has_synonym_group_ids }
    }

    /// Where the record of a word begins. Returns nothing where the table of places ends before
    /// the place of the word.
    fn word_id_to_offset(&self, word_id: u32) -> (res: Option<SudachiResult<usize>>)
        ensures
            match self.model().start(word_id) {
                Some(Ok(start)) => res matches Some(Ok(got)) && got == start,
                Some(Err(e)) => res matches Some(Err(got)) && got == SudachiError::ParseError(e),
                None => res is None,
            },
    {
        let len: usize = self.bytes.len();
        if self.offset > len || word_id as usize > (len - self.offset) / 4 {
            return None;
        }
        let p: usize = self.offset + 4 * word_id as usize;
        if len - p < 4 {
            return Some(Err(SudachiError::ParseError(ReadError::Eof)));
        }
        Some(Ok(bytes::read_u32(self.bytes, p) as usize))
    }

    /// The record of a word. Returns nothing where there is none.
    fn parse_word_info(&self, word_id: u32, subset: InfoSubset) -> (res: Option<
        SudachiResult<WordInfoData>,
    >)
        ensures
            match self.model().record(word_id, subset) {
                Some(Ok(info)) => res matches Some(Ok(read)) && read.model() == info,
                Some(Err(e)) => res matches Some(Err(got)) && got == SudachiError::ParseError(e),
                None => res is None,
            },
    {
        match self.word_id_to_offset(word_id) {
            Some(Ok(index)) => {
                if index > self.bytes.len() {
                    return None;
                }
                let rest = slice_subrange(self.bytes, index, self.bytes.len());
                assert(rest@ =~= self.bytes@.skip(index as int));
                WordInfoParser::subset(subset).checked_parse(rest)
            },
            Some(Err(e)) => Some(Err(e)),
            None => None,
        }
    }

    /// The record of a word with its dictionary form, as far as it is asked for. Returns
    /// nothing where there is no such record.
    pub fn checked_word_info(&self, word_id: u32, subset: InfoSubset) -> (res: Option<
        SudachiResult<WordInfo>,
    >)
        ensures
            match self.model().info(word_id, subset) {
                Some(Ok(info)) => res matches Some(Ok(read)) && read.model() == info,
                Some(Err(e)) => res matches Some(Err(got)) && got == SudachiError::ParseError(e),
                None => res is None,
            },
    {
        let subset: InfoSubset = subset.without_unavailable(self.has_synonym_group_ids);
        let mut word_info: WordInfoData = match self.parse_word_info(word_id, subset) {
            Some(Ok(data)) => data,
            Some(Err(e)) => {
                return Some(Err(e));
            },
            None => {
                return None;
            },
        };
        let dfwi: i32 = word_info.dictionary_form_word_id;
        if dfwi >= 0 && dfwi as u32 != word_id {
            let inner: WordInfoData = match self.parse_word_info(
                dfwi as u32,
                InfoSubset::surface(),
            ) {
                Some(Ok(data)) => data,
                Some(Err(e)) => {
                    return Some(Err(e));
                },
                None => {
                    return None;
                },
            };
            word_info.dictionary_form = inner.surface;
        }
        Some(Ok(WordInfo { data: word_info }))
    }

    /// The record of a word with its dictionary form, as far as it is asked for.
    pub fn get_word_info(&self, word_id: u32, subset: InfoSubset) -> (res: SudachiResult<WordInfo>)
        requires
            self.model().info(word_id, subset) is Some,
        ensures
            match self.model().info(word_id, subset).unwrap() {
                Ok(info) => res matches Ok(read) && read.model() == info,
                Err(e) => res matches Err(got) && got == SudachiError::ParseError(e),
            },
    {
        match self.checked_word_info(word_id, subset) {
            Some(res) => res,
            None => Err(SudachiError::ParseError(ReadError::Eof)),
        }
    }
}

/// What a [`ChunkedWordInfos`] holds.
///
/// The records stand one after another in a sequence of bytes that was cut into chunks of
/// `chunk_size` bytes, each compressed on its own.
#[verifier::ext_equal]
pub struct ChunkedModel {
    /// Where the record of each word begins among the records.
    pub wi_index: Seq<u32>,
    /// The dictionary that the chunks are compressed with.
    pub zdict: Seq<u8>,
    /// Where each chunk begins among the compressed chunks.
    pub chunk_offsets: Seq<u32>,
    /// The compressed chunks, each with its length before it.
    pub compressed_data: Seq<u8>,
    pub chunk_size: nat,
    pub has_synonym_group_ids: bool,
}

impl ChunkedModel {
    /// Chunk `c` is there and lies within the compressed chunks.
    pub open spec fn has_chunk(self, c: int) -> bool {
        let start = self.chunk_offsets[c] as int;
        &&& 0 <= c < self.chunk_offsets.len()
        &&& start + 4 <= self.compressed_data.len()
        &&& start + 4 + bytes::u32_at(self.compressed_data, start) <= self.compressed_data.len()
    }

    /// Chunk `c` in its compressed form.
    pub open spec fn frame(self, c: int) -> Seq<u8> {
        let start = self.chunk_offsets[c] as int;
        self.compressed_data.subrange(
            start + 4,
            start + 4 + bytes::u32_at(self.compressed_data, start),
        )
    }

    /// The content of chunk `c`, if it has one.
    pub open spec fn chunk(self, c: int) -> Option<Seq<u8>> {
        zstandard::zstd_content(self.zdict, self.frame(c))
    }

    /// The number of the chunk in which the record of a word begins.
    pub open spec fn chunk_of(self, word_id: u32) -> int {
        self.wi_index[word_id as int] as int / self.chunk_size as int
    }

    /// The place within its chunk at which the record of a word begins.
    pub open spec fn place_of(self, word_id: u32) -> int {
        self.wi_index[word_id as int] as int % self.chunk_size as int
    }

    /// The record of a word can be looked for: the word has a record, and its chunk is there.
    pub open spec fn locatable(self, word_id: u32) -> bool {
        &&& word_id < self.wi_index.len()
        &&& self.chunk_size > 0
        &&& 2 * self.chunk_size <= isize::MAX
        &&& self.has_chunk(self.chunk_of(word_id))
    }

    /// The record of a word, as far as it is asked for, where its chunk has a content. The
    /// record ends where the chunk does at the latest.
    #[verifier::opaque]
    pub open spec fn record(self, word_id: u32, subset: InfoSubset) -> RecordOutcome {
        if !self.locatable(word_id) {
            None
        } else {
            match self.chunk(self.chunk_of(word_id)) {
                Some(content) => if self.place_of(word_id) <= content.len() {
                    record_in(content.skip(self.place_of(word_id)), subset)
                } else {
                    None
                },
                None => None,
            }
        }
    }

    /// The record of a word with its dictionary form.
    pub open spec fn info(self, word_id: u32, subset: InfoSubset) -> RecordOutcome {
        match self.record(word_id, subset.available(self.has_synonym_group_ids)) {
            Some(Ok(info)) => match form_word(info, word_id) {
                Some(form) => with_form(info, self.record(form, InfoSubset::just_surface())),
                None => Some(Ok(info)),
            },
            Some(Err(e)) => Some(Err(e)),
            None => None,
        }
    }

    /// The record of a word can be looked for, and is there if its chunk has a content.
    #[verifier::opaque]
    pub open spec fn readable(self, word_id: u32, subset: InfoSubset) -> bool {
        &&& self.locatable(word_id)
        &&& self.chunk(self.chunk_of(word_id)) is Some ==> self.record(word_id, subset) is Some
    }

    /// Chunk `c` cannot be decompressed, with the error `e`: no decoder can be made with the
    /// dictionary, or the decoder rejects the chunk. It does not reject chunks that the encoder
    /// made of up to two chunk sizes.
    #[verifier::opaque]
    pub open spec fn chunk_fails(self, c: int, e: error::ErrorModel) -> bool {
        exists|reason: Seq<char>| #[trigger] self.chunk_fails_for(c, e, reason)
    }

    /// Chunk `c` cannot be decompressed for the given reason.
    pub open spec fn chunk_fails_for(self, c: int, e: error::ErrorModel, reason: Seq<char>) -> bool {
        &&& zstandard::zstd_rejects(self.zdict, self.frame(c), 2 * self.chunk_size, reason)
        &&& {
            ||| e == dictionary_error(reason) && self.chunk(c) is None
            ||| e == chunk_error(c as nat, reason) && (!zstandard::is_made(
                self.zdict,
                self.frame(c),
            ) || (self.chunk(c) matches Some(content) && content.len() > 2 * self.chunk_size))
        }
    }

    /// `res` is what asking for the bytes from `abs_offset` on, up to the end of the chunk that
    /// they begin in, may come to: nothing where there is no such chunk, or it ends before.
    pub open spec fn bytes_outcome(
        self,
        abs_offset: nat,
        res: Option<SudachiResult<Vec<u8>>>,
    ) -> bool {
        let c = abs_offset as int / self.chunk_size as int;
        let place = abs_offset as int % self.chunk_size as int;
        let reachable = self.chunk_size > 0 && 2 * self.chunk_size <= isize::MAX && self.has_chunk(
            c,
        );
        match res {
            Some(Ok(content)) => {
                &&& reachable
                &&& self.chunk(c) matches Some(whole)
                &&& place <= whole.len()
                &&& content@ == whole.skip(place)
            },
            Some(Err(e)) => reachable && self.chunk_fails(c, e.model()),
            None => !reachable || (self.chunk(c) matches Some(whole) && place > whole.len()),
        }
    }

    /// The chunk of the record of a word, or that of the record of its dictionary form, cannot be
    /// decompressed, with the error `e`.
    pub open spec fn info_fails(
        self,
        word_id: u32,
        subset: InfoSubset,
        e: error::ErrorModel,
    ) -> bool {
        ||| self.locatable(word_id) && self.chunk_fails(self.chunk_of(word_id), e)
        ||| {
            &&& self.record(word_id, subset.available(self.has_synonym_group_ids)) matches Some(
                Ok(info),
            )
            &&& form_word(info, word_id) matches Some(form)
            &&& self.locatable(form)
            &&& self.chunk_fails(self.chunk_of(form), e)
        }
    }

    /// The record of a word and that of its dictionary form can be looked for, and are there if
    /// their chunks have a content.
    pub open spec fn answers(self, word_id: u32, subset: InfoSubset) -> bool {
        let fields = subset.available(self.has_synonym_group_ids);
        &&& self.readable(word_id, fields)
        &&& match self.record(word_id, fields) {
            Some(Ok(info)) => match form_word(info, word_id) {
                Some(form) => self.readable(form, InfoSubset::just_surface()),
                None => true,
            },
            _ => true,
        }
    }
}

/// The fields that are asked for of a record, where records may lack synonym groups.
pub open spec fn asked_of(subset: InfoSubset, has_synonym_group_ids: bool) -> InfoSubset {
    if has_synonym_group_ids {
        subset
    } else {
        InfoSubset { synonym_group_id: false, ..subset }
    }
}

/// `found` is the record `own` of word `word_id` with its dictionary form, where asking for the
/// surface of word `f` comes to `surface_of(f)`: the surface of the word that the record names,
/// before or behind the word itself, or nothing where it names none or the word itself.
pub open spec fn has_its_form(
    word_id: u32,
    own: InfoModel,
    surface_of: spec_fn(u32) -> RecordOutcome,
    found: RecordOutcome,
) -> bool {
    let named = own.dictionary_form_word_id;
    &&& named < 0 || named == word_id ==> found == Some(Ok::<InfoModel, ReadError>(own))
    &&& named >= 0 && named != word_id ==> match surface_of(named as u32) {
        Some(Ok(other)) => {
            &&& found matches Some(Ok(info))
            &&& info.dictionary_form == other.surface
            &&& info.surface == own.surface
            &&& info.head_word_length == own.head_word_length
            &&& info.pos_id == own.pos_id
            &&& info.normalized_form == own.normalized_form
            &&& info.dictionary_form_word_id == named
            &&& info.reading_form == own.reading_form
            &&& info.a_unit_split == own.a_unit_split
            &&& info.b_unit_split == own.b_unit_split
            &&& info.word_structure == own.word_structure
            &&& info.synonym_group_ids == own.synonym_group_ids
        },
        other => found == other,
    }
}

/// What word records hold is told of by the records themselves: the record of a word, with the
/// surface of the record that it names as its dictionary form, wherever among the words that one
/// stands. Where either record cannot be read, nor can the whole.
pub proof fn law_dictionary_form_is_the_surface_named(
    flat: FlatModel,
    chunked: ChunkedModel,
    word_id: u32,
    subset: InfoSubset,
)
    ensures
        match flat.record(word_id, asked_of(subset, flat.has_synonym_group_ids)) {
            Some(Ok(own)) => has_its_form(
                word_id,
                own,
                |f: u32| flat.record(f, InfoSubset::just_surface()),
                flat.info(word_id, subset),
            ),
            other => flat.info(word_id, subset) == other,
        },
        match chunked.record(word_id, asked_of(subset, chunked.has_synonym_group_ids)) {
            Some(Ok(own)) => has_its_form(
                word_id,
                own,
                |f: u32| chunked.record(f, InfoSubset::just_surface()),
                chunked.info(word_id, subset),
            ),
            other => chunked.info(word_id, subset) == other,
        },
{
    assert(subset.available(true) == subset);
    assert(subset.available(false) == asked_of(subset, false));
}

/// The record `r` stands at byte `start` of `s`, with its synonym groups or without them.
pub open spec fn stands_at(s: Seq<u8>, start: int, r: InfoModel, with_synonyms: bool) -> bool {
    let written = if with_synonyms {
        word_info::record_bytes(r)
    } else {
        word_info::main_bytes(r)
    };
    &&& word_info::can_be_written(r)
    &&& with_synonyms || r.synonym_group_ids.len() == 0
    &&& 0 <= start
    &&& start + written.len() <= s.len()
    &&& s.subrange(start, start + written.len()) == written
}

impl FlatModel {
    /// The table of places leads to the record `r` of a word.
    pub open spec fn holds(self, word_id: u32, r: InfoModel) -> bool {
        let p = self.offset as int + 4 * word_id;
        &&& p + 4 <= self.bytes.len()
        &&& stands_at(
            self.bytes,
            self.bytes[p] + 0x100 * self.bytes[p + 1] + 0x1_0000 * self.bytes[p + 2] + 0x100_0000
                * self.bytes[p + 3],
            r,
            self.has_synonym_group_ids,
        )
    }
}

impl ChunkedModel {
    /// Place `place` of the content of chunk `c`, where the table of places says that the record
    /// of a word is, holds the record `r`.
    pub open spec fn holds(self, word_id: u32, c: int, place: int, r: InfoModel) -> bool {
        let start = self.chunk_offsets[c] as int;
        let d = self.compressed_data;
        let size = d[start] + 0x100 * d[start + 1] + 0x1_0000 * d[start + 2] + 0x100_0000 * d[start
            + 3];
        &&& word_id < self.wi_index.len()
        &&& 0 < self.chunk_size
        &&& 2 * self.chunk_size <= isize::MAX
        &&& 0 <= place < self.chunk_size
        &&& self.wi_index[word_id as int] == c * self.chunk_size + place
        &&& 0 <= c < self.chunk_offsets.len()
        &&& start + 4 + size <= d.len()
        &&& zstandard::zstd_content(self.zdict, d.subrange(start + 4, start + 4 + size)) matches Some(
            content,
        )
        &&& stands_at(content, place, r, self.has_synonym_group_ids)
    }
}

/// A record that stands in bytes is read there.
proof fn lemma_stands_at(s: Seq<u8>, start: int, r: InfoModel, with_synonyms: bool)
    requires
        stands_at(s, start, r, with_synonyms),
    ensures
        record_in(
            s.skip(start),
            InfoSubset { synonym_group_id: with_synonyms, ..InfoSubset::uniform(true) },
        ) == Some(Ok::<InfoModel, ReadError>(r)),
        record_in(s.skip(start), InfoSubset::just_surface()) == Some(
            Ok::<InfoModel, ReadError>((InfoModel { surface: r.surface, ..InfoModel::blank() })),
        ),
{
    let written = if with_synonyms {
        word_info::record_bytes(r)
    } else {
        word_info::main_bytes(r)
    };
    let rest = s.skip(start + written.len());
    assert(s.skip(start) =~= written + rest) by {
        let head = s.subrange(start, start + written.len());
        assert forall|i: int| 0 <= i < written.len() implies s.skip(start)[i] == (written
            + rest)[i] by {
            assert(head[i] == s[start + i]);
        }
    }
    word_info::law_record_reads_back(r, rest);
    word_info::law_surface_reads_back(r, rest);
    assert(r.synonym_group_ids.len() == 0 ==> r.synonym_group_ids =~= Seq::<u32>::empty());
}

/// Asking for a word whose record and whose dictionary form the records hold gives the record
/// with every field as it was written, and the surface of the word that it names. With the
/// synonym groups in the records or without them, and wherever the two words stand.
pub proof fn law_flat_records_read_back(
    flat: FlatModel,
    word_id: u32,
    r: InfoModel,
    named: InfoModel,
)
    requires
        flat.holds(word_id, r),
        r.dictionary_form_word_id >= 0 ==> flat.holds(r.dictionary_form_word_id as u32, named),
    ensures
        flat.info(word_id, InfoSubset::uniform(true)) == Some(
            Ok::<InfoModel, ReadError>(
                InfoModel {
                    dictionary_form: if r.dictionary_form_word_id >= 0
                        && r.dictionary_form_word_id != word_id {
                        named.surface
                    } else {
                        Seq::empty()
                    },
                    ..r
                },
            ),
        ),
{
    let b = flat.bytes;
    let p = flat.offset as int + 4 * word_id;
    let start = b[p] + 0x100 * b[p + 1] + 0x1_0000 * b[p + 2] + 0x100_0000 * b[p + 3];
    lemma_stands_at(b, start, r, flat.has_synonym_group_ids);
    assert(flat.start(word_id) == Some(Ok::<nat, ReadError>(start as nat)));
    if r.dictionary_form_word_id >= 0 {
        let f = r.dictionary_form_word_id as u32;
        let q = flat.offset as int + 4 * f;
        let place = b[q] + 0x100 * b[q + 1] + 0x1_0000 * b[q + 2] + 0x100_0000 * b[q + 3];
        lemma_stands_at(b, place, named, flat.has_synonym_group_ids);
        assert(flat.start(f) == Some(Ok::<nat, ReadError>(place as nat)));
    }
    assert(r.dictionary_form =~= Seq::<char>::empty());
    assert(InfoSubset::uniform(true).available(flat.has_synonym_group_ids) == (InfoSubset {
        synonym_group_id: flat.has_synonym_group_ids,
        ..InfoSubset::uniform(true)
    }));
}

/// A record that a chunk holds is read.
proof fn lemma_chunk_holds(chunked: ChunkedModel, word_id: u32, c: int, place: int, r: InfoModel)
    requires
        chunked.holds(word_id, c, place, r),
    ensures
        chunked.record(
            word_id,
            InfoSubset {
                synonym_group_id: chunked.has_synonym_group_ids,
                ..InfoSubset::uniform(true)
            },
        ) == Some(Ok::<InfoModel, ReadError>(r)),
        chunked.record(word_id, InfoSubset::just_surface()) == Some(
            Ok::<InfoModel, ReadError>((InfoModel { surface: r.surface, ..InfoModel::blank() })),
        ),
{
    reveal(ChunkedModel::record);
    let at = chunked.wi_index[word_id as int] as int;
    let size = chunked.chunk_size as int;
    vstd::arithmetic::div_mod::lemma_fundamental_div_mod_converse(at, size, c, place);
    assert(chunked.chunk_of(word_id) == c && chunked.place_of(word_id) == place);
    lemma_stands_at(
        chunked.chunk(c).unwrap(),
        place,
        r,
        chunked.has_synonym_group_ids,
    );
}

/// Asking for a word whose record and whose dictionary form stand in chunks gives the record with
/// every field as it was written, and the surface of the word that it names.
pub proof fn law_chunked_records_read_back(
    chunked: ChunkedModel,
    word_id: u32,
    c: int,
    place: int,
    r: InfoModel,
    named_c: int,
    named_place: int,
    named: InfoModel,
)
    requires
        chunked.holds(word_id, c, place, r),
        r.dictionary_form_word_id >= 0 ==> chunked.holds(
            r.dictionary_form_word_id as u32,
            named_c,
            named_place,
            named,
        ),
    ensures
        chunked.info(word_id, InfoSubset::uniform(true)) == Some(
            Ok::<InfoModel, ReadError>(
                InfoModel {
                    dictionary_form: if r.dictionary_form_word_id >= 0
                        && r.dictionary_form_word_id != word_id {
                        named.surface
                    } else {
                        Seq::empty()
                    },
                    ..r
                },
            ),
        ),
{
    lemma_chunk_holds(chunked, word_id, c, place, r);
    if r.dictionary_form_word_id >= 0 {
        lemma_chunk_holds(
            chunked,
            r.dictionary_form_word_id as u32,
            named_c,
            named_place,
            named,
        );
    }
    assert(r.dictionary_form =~= Seq::<char>::empty());
    assert(InfoSubset::uniform(true).available(chunked.has_synonym_group_ids) == (InfoSubset {
        synonym_group_id: chunked.has_synonym_group_ids,
        ..InfoSubset::uniform(true)
    }));
}

/// The error for a dictionary with which no decoder can be made.
pub open spec fn dictionary_error(reason: Seq<char>) -> error::ErrorModel {
    error::ErrorModel::InvalidDataFormat(0, "zstd dict: "@ + reason)
}

/// The error for chunk `c` that the decoder rejects.
pub open spec fn chunk_error(c: nat, reason: Seq<char>) -> error::ErrorModel {
    error::ErrorModel::InvalidDataFormat(
        0,
        "zstd decompress chunk "@ + text::decimal(c) + ": "@ + reason,
    )
}

/// The section that `data` begins with: places of `word_count` records, the dictionary with its
/// length, the number of chunks and their places, and the chunks.
pub open spec fn chunked_section(
    data: Seq<u8>,
    word_count: nat,
    chunk_size: nat,
    has_synonym_group_ids: bool,
) -> Option<ChunkedModel> {
    let p = 4 * word_count;
    let zdict_len = bytes::u32_at(data, p as int) as nat;
    let q = p + 4 + zdict_len;
    let chunk_count = bytes::u32_at(data, q as int) as nat;
    let r = q + 4 + 4 * chunk_count;
    if p + 4 > data.len() || q + 4 > data.len() || r > data.len() {
        None
    } else {
        Some(
            ChunkedModel {
                wi_index: bytes::u32s_at(data, 0, word_count),
                zdict: data.subrange(p as int + 4, q as int),
                chunk_offsets: bytes::u32s_at(data, q as int + 4, chunk_count),
                compressed_data: data.skip(r as int),
                chunk_size,
                has_synonym_group_ids,
            },
        )
    }
}

/// What may be cached of a [`ChunkedWordInfos`]: the content of a chunk with its number.
pub struct ChunkCache {
    pub model: Ghost<ChunkedModel>,
}

impl RwLockPredicate<Option<(usize, Vec<u8>)>> for ChunkCache {
    open spec fn inv(self, cached: Option<(usize, Vec<u8>)>) -> bool {
        cached matches Some((c, content)) ==> self.model@.chunk(c as int) == Some(content@)
    }
}

/// Word records in compressed chunks, of which the one used last is kept decompressed.
///
/// Layout of the section:
///
/// ```text
/// [word_count * 4: places of the records]
/// [zdict_len: u32][zdict]
/// [chunk_count: u32][chunk_count * 4: places of the chunks][chunks]
/// ```
///
/// Each chunk is `[compressed_len: u32][compressed bytes]`.
pub struct ChunkedWordInfos {
    wi_index: Vec<u32>,
    zdict: Vec<u8>,
    chunk_offsets: Vec<u32>,
    compressed_data: Vec<u8>,
    chunk_size: usize,
    has_synonym_group_ids: bool,
    cache: RwLock<Option<(usize, Vec<u8>)>, ChunkCache>,
}

impl ChunkedWordInfos {
    /// What the records are.
    pub closed spec fn model(self) -> ChunkedModel {
        ChunkedModel {
            wi_index: self.wi_index@,
            zdict: self.zdict@,
            chunk_offsets: self.chunk_offsets@,
            compressed_data: self.compressed_data@,
            chunk_size: self.chunk_size as nat,
            has_synonym_group_ids: self.has_synonym_group_ids,
        }
    }

    #[verifier::type_invariant]
    spec fn cache_is_sound(self) -> bool {
        self.cache.pred().model@ == self.model()
    }

    /// The records in the section that `data` begins with. `chunk_size` is the size that the
    /// chunks were cut to. Returns nothing where the data end before the section does.
    pub fn checked_new(
        data: &[u8],
        word_count: usize,
        chunk_size: usize,
        has_synonym_group_ids: bool,
    ) -> (res: Option<ChunkedWordInfos>)
        ensures
            match chunked_section(
                data@,
                word_count as nat,
                chunk_size as nat,
                has_synonym_group_ids,
            ) {
                Some(model) => res matches Some(infos) && infos.model() == model,
                None => res is None,
            },
    {
        let len: usize = data.len();
        if word_count > len / 4 || len - word_count * 4 < 4 {
            return None;
        }
        let mut pos: usize = word_count * 4;
        let wi_index: Vec<u32> = bytes::read_u32s(data, 0, word_count);

        let zdict_len: usize = bytes::read_u32(data, pos) as usize;
        pos = pos + 4;
        if len - pos < zdict_len || len - pos - zdict_len < 4 {
            return None;
        }
        let zdict: Vec<u8> = slice_to_vec(slice_subrange(data, pos, pos + zdict_len));
        pos = pos + zdict_len;

        let chunk_count: usize = bytes::read_u32(data, pos) as usize;
        pos = pos + 4;
        if (len - pos) / 4 < chunk_count {
            return None;
        }
        let chunk_offsets: Vec<u32> = bytes::read_u32s(data, pos, chunk_count);
        pos = pos + chunk_count * 4;

        let compressed_data: Vec<u8> = slice_to_vec(slice_subrange(data, pos, len));
        let ghost model = ChunkedModel {
            wi_index: wi_index@,
            zdict: zdict@,
            chunk_offsets: chunk_offsets@,
            compressed_data: compressed_data@,
            chunk_size: chunk_size as nat,
            has_synonym_group_ids,
        };
        let cache: RwLock<Option<(usize, Vec<u8>)>, ChunkCache> = RwLock::new(
            None,
            Ghost(ChunkCache { model: Ghost(model) }),
        );
        let infos = ChunkedWordInfos {
            wi_index,
            zdict,
            chunk_offsets,
            compressed_data,
            chunk_size,
            has_synonym_group_ids,
            cache,
        };
        assert(compressed_data@ =~= data@.skip(pos as int));
        Some(infos)
    }

    /// The records in the section that `data` begins with. `chunk_size` is the size that the
    /// chunks were cut to.
    pub fn new(
        data: &[u8],
        word_count: usize,
        chunk_size: usize,
        has_synonym_group_ids: bool,
    ) -> (res: SudachiResult<ChunkedWordInfos>)
        requires
            chunked_section(
                data@,
                word_count as nat,
                chunk_size as nat,
                has_synonym_group_ids,
            ) is Some,
        ensures
            res matches Ok(infos) && chunked_section(
                data@,
                word_count as nat,
                chunk_size as nat,
                has_synonym_group_ids,
            ) == Some(infos.model()),
    {
        match ChunkedWordInfos::checked_new(data, word_count, chunk_size, has_synonym_group_ids) {
            Some(infos) => Ok(infos),
            None => Err(SudachiError::ParseError(ReadError::Eof)),
        }
    }

    /// The content of a chunk, or why there is none.
    fn decompress_chunk(&self, chunk_idx: usize) -> (res: SudachiResult<Vec<u8>>)
        requires
            self.model().has_chunk(chunk_idx as int),
            2 * self.model().chunk_size <= isize::MAX,
        ensures
            match res {
                Ok(content) => self.model().chunk(chunk_idx as int) == Some(content@),
                Err(e) => self.model().chunk_fails(chunk_idx as int, e.model()),
            },
    {
        let start: usize = self.chunk_offsets[chunk_idx] as usize;
        assert(self.compressed_data.len() == self.compressed_data@.len());
        let data = self.compressed_data.as_slice();
        let clen: usize = bytes::read_u32(data, start) as usize;
        let compressed = slice_subrange(data, start + 4, start + 4 + clen);
        assert(compressed@ == self.model().frame(chunk_idx as int));
        let result = zstandard::zstd_decompress(
            self.zdict.as_slice(),
            compressed,
            self.chunk_size * 2,
        );
        reveal(ChunkedModel::chunk_fails);
        let ghost reason = failure_reason(result);
        let res = chunk_outcome(chunk_idx, result);
        assert(res matches Err(e) ==> self.model().chunk_fails_for(
            chunk_idx as int,
            e.model(),
            reason,
        ));
        res
    }

    /// The bytes from `abs_offset` on, up to the end of the chunk that they begin in. Returns
    /// nothing where there is no such chunk, or it ends before.
    fn get_record_bytes(&self, abs_offset: usize) -> (res: Option<SudachiResult<Vec<u8>>>)
        ensures
            self.model().bytes_outcome(abs_offset as nat, res),
    {
        proof {
            use_type_invariant(self);
        }
        if self.chunk_size == 0 || self.chunk_size > isize::MAX as usize / 2 {
            return None;
        }
        let chunk_idx: usize = abs_offset / self.chunk_size;
        let chunk_off: usize = abs_offset % self.chunk_size;
        if !self.chunk_is_there(chunk_idx) {
            return None;
        }
        let (cached, handle) = self.cache.acquire_write();
        let mut found: Option<Vec<u8>> = None;
        match &cached {
            Some((ci, content)) => {
                if *ci == chunk_idx {
                    if content.len() < chunk_off {
                        handle.release_write(cached);
                        return None;
                    }
                    found = Some(
                        slice_to_vec(
                            slice_subrange(content.as_slice(), chunk_off, content.len()),
                        ),
                    );
                    assert(found.unwrap()@ =~= content@.skip(chunk_off as int));
                }
            },
            None => {},
        }
        handle.release_write(cached);
        if let Some(record_bytes) = found {
            return Some(Ok(record_bytes));
        }
        match self.decompress_chunk(chunk_idx) {
            Err(e) => Some(Err(e)),
            Ok(decompressed) => {
                if decompressed.len() < chunk_off {
                    return None;
                }
                let result: Vec<u8> = slice_to_vec(
                    slice_subrange(decompressed.as_slice(), chunk_off, decompressed.len()),
                );
                assert(result@ =~= decompressed@.skip(chunk_off as int));
                let (_old, handle) = self.cache.acquire_write();
                handle.release_write(Some((chunk_idx, decompressed)));
                Some(Ok(result))
            },
        }
    }

    /// Whether a chunk is there and lies within the compressed chunks.
    fn chunk_is_there(&self, c: usize) -> (there: bool)
        ensures
            there == self.model().has_chunk(c as int),
    {
        if c >= self.chunk_offsets.len() {
            return false;
        }
        let start: usize = self.chunk_offsets[c] as usize;
        let len: usize = self.compressed_data.len();
        if start > len || len - start < 4 {
            return false;
        }
        let clen: usize = bytes::read_u32(self.compressed_data.as_slice(), start) as usize;
        len - start - 4 >= clen
    }

    /// The record of a word. Returns nothing where the record cannot be looked for, or lies
    /// outside its chunk.
    fn parse_word_info(&self, word_id: u32, subset: InfoSubset) -> (res: Option<
        SudachiResult<WordInfoData>,
    >)
        ensures
            match res {
                Some(Ok(read)) => self.model().readable(word_id, subset) && self.model().record(
                    word_id,
                    subset,
                ) == Some(Ok::<InfoModel, ReadError>(read.model())),
                Some(Err(e)) => {
                    ||| e matches SudachiError::ParseError(pe) && self.model().record(
                        word_id,
                        subset,
                    ) == Some(Err::<InfoModel, ReadError>(pe))
                    ||| self.model().locatable(word_id) && self.model().chunk_fails(
                        self.model().chunk_of(word_id),
                        e.model(),
                    )
                },
                None => !self.model().readable(word_id, subset),
            },
    {
        reveal(ChunkedModel::record);
        reveal(ChunkedModel::readable);
        assert(self.wi_index.len() == self.wi_index@.len());
        if word_id as usize >= self.wi_index.len() {
            return None;
        }
        let abs_offset: usize = self.wi_index[word_id as usize] as usize;
        match self.get_record_bytes(abs_offset) {
            Some(Ok(record_bytes)) => WordInfoParser::subset(subset).checked_parse(
                record_bytes.as_slice(),
            ),
            Some(Err(e)) => Some(Err(e)),
            None => None,
        }
    }

    /// The record of a word with its dictionary form, as far as it is asked for. Returns
    /// nothing where the section does not answer for the word.
    #[verifier::rlimit(30)]
    pub fn checked_word_info(&self, word_id: u32, subset: InfoSubset) -> (res: Option<
        SudachiResult<WordInfo>,
    >)
        ensures
            res matches Some(Ok(read)) ==> self.model().answers(word_id, subset),
            match res {
                Some(Ok(read)) => self.model().info(word_id, subset) == Some(
                    Ok::<InfoModel, ReadError>(read.model()),
                ),
                Some(Err(e)) => {
                    ||| e matches SudachiError::ParseError(pe) && self.model().info(word_id, subset)
                        == Some(Err::<InfoModel, ReadError>(pe))
                    ||| self.model().info_fails(word_id, subset, e.model())
                },
                None => !self.model().answers(word_id, subset),
            },
    {
        let subset: InfoSubset = subset.without_unavailable(self.has_synonym_group_ids);
        let mut word_info: WordInfoData = match self.parse_word_info(word_id, subset) {
            Some(Ok(data)) => data,
            Some(Err(e)) => {
                return Some(Err(e));
            },
            None => {
                return None;
            },
        };
        let dfwi: i32 = word_info.dictionary_form_word_id;
        if dfwi >= 0 && dfwi as u32 != word_id {
            let inner: WordInfoData = match self.parse_word_info(
                dfwi as u32,
                InfoSubset::surface(),
            ) {
                Some(Ok(data)) => data,
                Some(Err(e)) => {
                    return Some(Err(e));
                },
                None => {
                    return None;
                },
            };
            word_info.dictionary_form = inner.surface;
        }
        Some(Ok(WordInfo { data: word_info }))
    }

    /// The record of a word with its dictionary form, as far as it is asked for.
    pub fn get_word_info(&self, word_id: u32, subset: InfoSubset) -> (res: SudachiResult<WordInfo>)
        requires
            self.model().answers(word_id, subset),
        ensures
            match res {
                Ok(read) => self.model().info(word_id, subset) == Some(
                    Ok::<InfoModel, ReadError>(read.model()),
                ),
                Err(e) => {
                    ||| e matches SudachiError::ParseError(pe) && self.model().info(word_id, subset)
                        == Some(Err::<InfoModel, ReadError>(pe))
                    ||| self.model().info_fails(word_id, subset, e.model())
                },
            },
    {
        match self.checked_word_info(word_id, subset) {
            Some(res) => res,
            None => Err(SudachiError::ParseError(ReadError::Eof)),
        }
    }
}

/// Why a chunk could not be decompressed.
pub open spec fn failure_reason(result: Result<Vec<u8>, DecompressError>) -> Seq<char> {
    match result {
        Err(DecompressError::Dictionary(reason)) => reason@,
        Err(DecompressError::Frame(reason)) => reason@,
        Ok(_) => Seq::empty(),
    }
}

/// The content of a chunk, or the error for what came of decompressing it.
pub fn chunk_outcome(chunk_idx: usize, result: Result<Vec<u8>, DecompressError>) -> (res:
    SudachiResult<Vec<u8>>)
    ensures
        match result {
            Ok(content) => res matches Ok(got) && got == content,
            Err(DecompressError::Dictionary(reason)) => res matches Err(e) && e.model()
                == dictionary_error(reason@),
            Err(DecompressError::Frame(reason)) => res matches Err(e) && e.model() == chunk_error(
                chunk_idx as nat,
                reason@,
            ),
        },
{
    match result {
        Ok(content) => Ok(content),
        Err(DecompressError::Dictionary(reason)) => {
            let mut message: String = "zstd dict: ".to_owned();
            message.append(reason.as_str());
            Err(SudachiError::InvalidDataFormat(0, message))
        },
        Err(DecompressError::Frame(reason)) => {
            let mut message: String = "zstd decompress chunk ".to_owned();
            text::push_decimal(&mut message, chunk_idx);
            message.append(": ");
            message.append(reason.as_str());
            Err(SudachiError::InvalidDataFormat(0, message))
        },
    }
}

} // verus!
