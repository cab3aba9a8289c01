//! Sets of lexicons: that of the system dictionary and those of user dictionaries.

use vstd::prelude::*;

use crate::dic::lexicon::word_infos::{InfoModel, WordInfo, WordInfoData};
use crate::dic::lexicon::{Lexicon, LexiconEntry, LexiconModel, MAX_DICTIONARIES};
use crate::dic::subset::InfoSubset;
use crate::dic::word_id::WordId;
use crate::error::{LexiconSetError, ReadError, SudachiResult};

verus! {

/// What a [`LexiconSet`] holds.
pub struct LexiconSetModel {
    /// The lexicons, that of the system dictionary first.
    pub lexicons: Seq<LexiconModel>,
    /// For each lexicon the number of the first part of speech that it defines itself.
    pub pos_offsets: Seq<usize>,
    /// Number of parts of speech of the system dictionary.
    pub num_system_pos: usize,
}

impl LexiconSetModel {
    /// Each lexicon has its place as its identifier, and there are not too many of them.
    pub open spec fn wf(self) -> bool {
        &&& 1 <= self.lexicons.len() <= MAX_DICTIONARIES
        &&& self.pos_offsets.len() == self.lexicons.len()
        &&& forall|i: int|
            0 <= i < self.lexicons.len() ==> (#[trigger] self.lexicons[i]).wf()
                && self.lexicons[i].id == i
    }

    /// The entries that the first `n` lexicons have, those of later lexicons first.
    pub open spec fn lookup_first(self, input: Seq<u8>, offset: nat, n: nat) -> Option<
        Seq<LexiconEntry>,
    >
        decreases n,
    {
        if n == 0 {
            Some(Seq::empty())
        } else {
            match self.lexicons[n - 1].lookup(input, offset) {
                None => None,
                Some(own) => match self.lookup_first(input, offset, (n - 1) as nat) {
                    None => None,
                    Some(rest) => Some(own + rest),
                },
            }
        }
    }

    /// The entries for all words whose surface is a prefix of `input[offset..]`.
    pub open spec fn lookup(self, input: Seq<u8>, offset: nat) -> Option<Seq<LexiconEntry>> {
        self.lookup_first(input, offset, self.lexicons.len())
    }

    /// A part of speech of a lexicon in the numbering of the set.
    pub open spec fn set_pos(self, dic: int, pos_id: u16) -> u16 {
        if dic > 0 && pos_id >= self.num_system_pos {
            ((pos_id - self.num_system_pos + self.pos_offsets[dic]) % 0x1_0000) as u16
        } else {
            pos_id
        }
    }

    /// The record of a word with the numbers that hold within the set.
    pub open spec fn adjusted(self, dic: u8, subset: InfoSubset, info: InfoModel) -> InfoModel {
        InfoModel {
            pos_id: if subset.pos_id {
                self.set_pos(dic as int, info.pos_id)
            } else {
                info.pos_id
            },
            a_unit_split: if subset.split_a {
                set_ids(dic, info.a_unit_split)
            } else {
                info.a_unit_split
            },
            b_unit_split: if subset.split_b {
                set_ids(dic, info.b_unit_split)
            } else {
                info.b_unit_split
            },
            word_structure: if subset.word_structure {
                set_ids(dic, info.word_structure)
            } else {
                info.word_structure
            },
            ..info
        }
    }

    /// `res` is what asking for the record of a word may come to; nothing where the lexicons do
    /// not answer for the word.
    pub open spec fn outcome(
        self,
        id: WordId,
        subset: InfoSubset,
        res: Option<SudachiResult<WordInfo>>,
    ) -> bool {
        let infos = self.lexicons[id.dic_of() as int].infos;
        match res {
            Some(Ok(read)) => {
                &&& id.dic_of() < self.lexicons.len()
                &&& infos.info(id.word_of(), subset) matches Some(Ok(info))
                &&& read.model() == self.adjusted(id.dic_of(), subset, info)
            },
            Some(Err(e)) => id.dic_of() < self.lexicons.len() && infos.may_fail_with(
                id.word_of(),
                subset,
                e,
            ),
            None => id.dic_of() >= self.lexicons.len() || !infos.answers(id.word_of(), subset),
        }
    }

    /// The left and right connection identifiers and the cost of a word, if there is such a word.
    pub open spec fn word_param(self, id: WordId) -> Option<(i16, i16, i16)> {
        if id.dic_of() < self.lexicons.len() && id.word_of()
            < self.lexicons[id.dic_of() as int].words {
            Some(self.lexicons[id.dic_of() as int].word_param(id.word_of() as int))
        } else {
            None
        }
    }
}

/// The identifier within the set of a word that a lexicon names: words outside the system
/// dictionary are its own.
pub open spec fn set_id(dic: u8, id: WordId) -> WordId {
    if id.dic_of() > 0 {
        WordId::of(dic, id.word_of())
    } else {
        id
    }
}

/// The identifiers within the set of words that a lexicon names.
pub open spec fn set_ids(dic: u8, ids: Seq<WordId>) -> Seq<WordId> {
    ids.map_values(|id: WordId| set_id(dic, id))
}

/// `ids` are the identifiers within a set of the words `stored` that lexicon `dic` names: what
/// names a word of the system dictionary stays, and what names another word becomes the word of
/// the lexicon itself with the same number.
pub open spec fn are_renumbered(dic: u8, stored: Seq<WordId>, ids: Seq<WordId>) -> bool {
    &&& ids.len() == stored.len()
    &&& forall|i: int|
        0 <= i < stored.len() ==> if (#[trigger] stored[i]).raw < 0x1000_0000 {
            ids[i].raw == stored[i].raw
        } else {
            ids[i].raw == dic * 0x1000_0000 + stored[i].raw % 0x1000_0000
        }
}

/// The identifiers that a record names are renumbered one by one, by their raw numbers alone.
proof fn lemma_renumbered(dic: u8, stored: Seq<WordId>)
    requires
        dic < MAX_DICTIONARIES,
    ensures
        are_renumbered(dic, stored, set_ids(dic, stored)),
{
    assert forall|i: int| 0 <= i < stored.len() implies if (#[trigger] stored[i]).raw
        < 0x1000_0000 {
        set_ids(dic, stored)[i].raw == stored[i].raw
    } else {
        set_ids(dic, stored)[i].raw == dic * 0x1000_0000 + stored[i].raw % 0x1000_0000
    } by {
        assert(set_ids(dic, stored)[i] == set_id(dic, stored[i]));
    }
}

/// A record that a set hands out is the one that the lexicon of the word holds, but for numbers.
/// Splits and structures that are asked for name the same words of the system dictionary, and
/// other words as those of the lexicon itself. Parts of speech of the system dictionary keep
/// their numbers; those that the lexicon of a user dictionary defines itself follow on from where
/// the set has the first one of them, within 16 bits.
pub proof fn law_record_is_renumbered(
    set: LexiconSetModel,
    id: WordId,
    subset: InfoSubset,
    read: WordInfo,
    found: InfoModel,
)
    requires
        set.wf(),
        set.outcome(id, subset, Some(Ok(read))),
        set.lexicons[id.raw as int / 0x1000_0000].infos.info(
            (id.raw % 0x1000_0000) as u32,
            subset,
        ) == Some(Ok::<InfoModel, ReadError>(found)),
    ensures
        ({
            let dic = (id.raw as int / 0x1000_0000) as u8;
            let got = read.model();
            &&& dic < set.lexicons.len()
            &&& got.surface == found.surface
            &&& got.head_word_length == found.head_word_length
            &&& got.normalized_form == found.normalized_form
            &&& got.dictionary_form_word_id == found.dictionary_form_word_id
            &&& got.dictionary_form == found.dictionary_form
            &&& got.reading_form == found.reading_form
            &&& got.synonym_group_ids == found.synonym_group_ids
            &&& if subset.split_a {
                are_renumbered(dic, found.a_unit_split, got.a_unit_split)
            } else {
                got.a_unit_split == found.a_unit_split
            }
            &&& if subset.split_b {
                are_renumbered(dic, found.b_unit_split, got.b_unit_split)
            } else {
                got.b_unit_split == found.b_unit_split
            }
            &&& if subset.word_structure {
                are_renumbered(dic, found.word_structure, got.word_structure)
            } else {
                got.word_structure == found.word_structure
            }
            &&& !subset.pos_id || dic == 0 || found.pos_id < set.num_system_pos ==> got.pos_id
                == found.pos_id
            &&& subset.pos_id && dic > 0 && found.pos_id >= set.num_system_pos ==> got.pos_id
                == (set.pos_offsets[dic as int] + (found.pos_id - set.num_system_pos)) % 0x1_0000
        }),
{
    let dic = (id.raw as int / 0x1000_0000) as u8;
    assert(id.dic_of() == dic);
    lemma_renumbered(dic, found.a_unit_split);
    lemma_renumbered(dic, found.b_unit_split);
    lemma_renumbered(dic, found.word_structure);
}

/// What the first lexicons find is what each of them finds, that of later ones first.
proof fn lemma_lookup_first(
    set: LexiconSetModel,
    input: Seq<u8>,
    offset: nat,
    parts: Seq<Seq<LexiconEntry>>,
    n: nat,
)
    requires
        n <= set.lexicons.len(),
        parts.len() == n,
        forall|i: int|
            0 <= i < n ==> set.lexicons[n - 1 - i].lookup(input, offset) == Some(
                #[trigger] parts[i],
            ),
    ensures
        set.lookup_first(input, offset, n) == Some(parts.flatten()),
    decreases n,
{
    if n > 0 {
        let rest = parts.drop_first();
        assert forall|i: int| 0 <= i < n - 1 implies set.lexicons[(n - 1) as nat - 1 - i].lookup(
            input,
            offset,
        ) == Some(#[trigger] rest[i]) by {
            assert(rest[i] == parts[i + 1]);
        }
        lemma_lookup_first(set, input, offset, rest, (n - 1) as nat);
        assert(set.lexicons[n - 1 - 0].lookup(input, offset) == Some(parts[0]));
    }
}

/// A lookup gives what each lexicon finds, one after another, from the last lexicon that was
/// added to that of the system dictionary.
pub proof fn law_lookup_goes_from_the_last_lexicon_to_the_first(
    set: LexiconSetModel,
    input: Seq<u8>,
    offset: nat,
    parts: Seq<Seq<LexiconEntry>>,
)
    requires
        parts.len() == set.lexicons.len(),
        forall|i: int|
            0 <= i < parts.len() ==> set.lexicons[parts.len() - 1 - i].lookup(input, offset)
                == Some(#[trigger] parts[i]),
    ensures
        set.lookup(input, offset) == Some(parts.flatten()),
{
    lemma_lookup_first(set, input, offset, parts, parts.len());
}

/// The parameters of a word are the three numbers that its dictionary holds for its number; there
/// are none where there is no such dictionary or word.
pub proof fn law_parameters_are_those_of_the_dictionary(set: LexiconSetModel, id: WordId)
    ensures
        ({
            let dic = id.raw as int / 0x1000_0000;
            let word = id.raw as int % 0x1000_0000;
            if dic < set.lexicons.len() && word < set.lexicons[dic].words {
                set.word_param(id) == Some(
                    (
                        set.lexicons[dic].params[3 * word],
                        set.lexicons[dic].params[3 * word + 1],
                        set.lexicons[dic].params[3 * word + 2],
                    ),
                )
            } else {
                set.word_param(id) is None
            }
        }),
{
}

/// As many lexicons can be held as leave the highest value of the upper four bits of an identifier
/// to words that are in no dictionary.
pub proof fn law_lexicons_leave_room_for_other_words()
    ensures
        MAX_DICTIONARIES * 0x1000_0000 == 0xf000_0000,
{
}

/// What lexicons hold.
pub open spec fn lexicon_models(lexicons: Seq<Lexicon>) -> Seq<LexiconModel> {
    lexicons.map_values(|lexicon: Lexicon| lexicon.model())
}

/// The lexicons of a system dictionary and of user dictionaries.
pub struct LexiconSet<'a> {
    lexicons: Vec<Lexicon<'a>>,
    pos_offsets: Vec<usize>,
    num_system_pos: usize,
}

impl<'a> LexiconSet<'a> {
    /// What the set holds.
    pub closed spec fn model(self) -> LexiconSetModel {
        LexiconSetModel {
            lexicons: lexicon_models(self.lexicons@),
            pos_offsets: self.pos_offsets@,
            num_system_pos: self.num_system_pos,
        }
    }

    /// The set with the lexicon of the system dictionary alone.
    pub fn new(system_lexicon: Lexicon<'a>, num_system_pos: usize) -> (set: LexiconSet<'a>)
        requires
            system_lexicon.model().wf(),
        ensures
            set.model().wf(),
            set.model().lexicons == seq![LexiconModel { id: 0, ..system_lexicon.model() }],
            set.model().num_system_pos == num_system_pos,
            set.model().pos_offsets == seq![0usize],
    {
        let mut lexicon: Lexicon<'a> = system_lexicon;
        lexicon.set_dic_id(0);
        let mut lexicons: Vec<Lexicon<'a>> = Vec::new();
        lexicons.push(lexicon);
        let mut pos_offsets: Vec<usize> = Vec::new();
        pos_offsets.push(0);
        let set = LexiconSet { lexicons, pos_offsets, num_system_pos };
        assert(set.model().lexicons =~= seq![LexiconModel { id: 0, ..system_lexicon.model() }]);
        set
    }

    /// Appends the lexicon of a user dictionary, whose own parts of speech begin at
    /// `pos_offset` in the numbering of the set.
    pub fn append(&mut self, lexicon: Lexicon<'a>, pos_offset: usize) -> (res: Result<
        (),
        LexiconSetError,
    >)
        requires
            old(self).model().wf(),
            lexicon.model().wf(),
        ensures
            final(self).model().wf(),
            ({
                let before = old(self).model();
                let n = before.lexicons.len();
                if n >= MAX_DICTIONARIES {
                    &&& res == Err::<(), LexiconSetError>(
                        LexiconSetError::TooManyDictionaries(n as usize),
                    )
                    &&& final(self).model() == before
                } else {
                    &&& res is Ok
                    &&& final(self).model().lexicons == before.lexicons.push(
                        LexiconModel { id: n as u8, ..lexicon.model() },
                    )
                    &&& final(self).model().pos_offsets == before.pos_offsets.push(pos_offset)
                    &&& final(self).model().num_system_pos == before.num_system_pos
                }
            }),
    {
        let n: usize = self.lexicons.len();
        if n >= MAX_DICTIONARIES {
            return Err(LexiconSetError::TooManyDictionaries(n));
        }
        let mut lexicon: Lexicon<'a> = lexicon;
        lexicon.set_dic_id(n as u8);
        let ghost before = self.model();
        self.lexicons.push(lexicon);
        self.pos_offsets.push(pos_offset);
        proof {
            let after = self.model();
            assert(after.lexicons =~= before.lexicons.push(lexicon.model()));
            assert forall|i: int| 0 <= i < after.lexicons.len() implies (
            #[trigger] after.lexicons[i]).wf() && after.lexicons[i].id == i by {
                if i < n {
                    assert(after.lexicons[i] == before.lexicons[i]);
                }
            }
        }
        Ok(())
    }

    /// The entries for all words whose surface is a prefix of `input[offset..]`, those of later
    /// lexicons first. Returns nothing where a search leads out of what is stored.
    pub fn checked_lookup(&self, input: &[u8], offset: usize) -> (found: Option<Vec<LexiconEntry>>)
        requires
            self.model().wf(),
        ensures
            match self.model().lookup(input@, offset as nat) {
                Some(entries) => found matches Some(got) && got@ == entries,
                None => found is None,
            },
    {
        let ghost m = self.model();
        let ghost total = m.lookup(input@, offset as nat);
        let mut out: Vec<LexiconEntry> = Vec::new();
        let mut k: usize = self.lexicons.len();
        assert(total is Some ==> out@ + total.unwrap() =~= total.unwrap());
        while k > 0
            invariant
                k <= self.lexicons@.len(),
                m == self.model(),
                m.wf(),
                total == m.lookup(input@, offset as nat),
                total == (match m.lookup_first(input@, offset as nat, k as nat) {
                    Some(rest) => Some(out@ + rest),
                    None => None,
                }),
            decreases k,
        {
            k = k - 1;
            assert(m.lexicons[k as int] == self.lexicons@[k as int].model());
            let mut own: Vec<LexiconEntry> = self.lexicons[k].checked_lookup(input, offset)?;
            let ghost before = out@;
            let ghost added = own@;
            out.append(&mut own);
            proof {
                if let Some(rest) = m.lookup_first(input@, offset as nat, k as nat) {
                    assert(before + (added + rest) =~= out@ + rest);
                }
            }
        }
        assert(out@ + Seq::<LexiconEntry>::empty() =~= out@);
        Some(out)
    }

    /// The record of a word with the numbers that hold within the set, as far as it is asked
    /// for. Returns nothing where there is no such lexicon, or its records do not answer for the
    /// word.
    pub fn checked_word_info(&self, id: WordId, subset: InfoSubset) -> (res: Option<
        SudachiResult<WordInfo>,
    >)
        requires
            self.model().wf(),
        ensures
            self.model().outcome(id, subset, res),
    {
        let dic: u8 = id.dic();
        if dic as usize >= self.lexicons.len() {
            return None;
        }
        let ghost m = self.model();
        assert(m.lexicons[dic as int] == self.lexicons@[dic as int].model());
        let read: WordInfo = match self.lexicons[dic as usize].checked_word_info(
            id.word(),
            subset,
        ) {
            Some(Ok(read)) => read,
            Some(Err(e)) => {
                return Some(Err(e));
            },
            None => {
                return None;
            },
        };
        proof {
            read.lemma_model();
        }
        let mut data: WordInfoData = WordInfoData::from(read);
        let ghost info = data.model();
        if subset.pos_id {
            data.pos_id = self.set_pos_id(dic, data.pos_id);
        }
        if subset.split_a {
            update_dict_id(&mut data.a_unit_split, dic);
        }
        if subset.split_b {
            update_dict_id(&mut data.b_unit_split, dic);
        }
        if subset.word_structure {
            update_dict_id(&mut data.word_structure, dic);
        }
        let adjusted: WordInfo = WordInfo::from(data);
        proof {
            adjusted.lemma_model();
            crate::dic::lexicon::word_infos::law_data_round_trip(adjusted, data);
        }
        Some(Ok(adjusted))
    }

    /// A part of speech of a lexicon in the numbering of the set.
    fn set_pos_id(&self, dic: u8, pos_id: u16) -> (id: u16)
        requires
            self.model().wf(),
            dic < self.model().lexicons.len(),
        ensures
            id == self.model().set_pos(dic as int, pos_id),
    {
        let own: usize = pos_id as usize;
        if dic > 0 && own >= self.num_system_pos {
            let shift: usize = own - self.num_system_pos;
            let offset: usize = self.pos_offsets[dic as usize];
            ((shift as u128 + offset as u128) % 0x1_0000) as u16
        } else {
            pos_id
        }
    }

    /// The left and right connection identifiers and the cost of a word, if there is such a word.
    pub fn checked_word_param(&self, id: WordId) -> (param: Option<(i16, i16, i16)>)
        requires
            self.model().wf(),
        ensures
            param == self.model().word_param(id),
    {
        let dic: usize = id.dic() as usize;
        if dic >= self.lexicons.len() {
            return None;
        }
        assert(self.model().lexicons[dic as int] == self.lexicons@[dic as int].model());
        let lexicon: &Lexicon<'a> = &self.lexicons[dic];
        if id.word() < lexicon.size() {
            Some(lexicon.get_word_param(id.word()))
        } else {
            None
        }
    }

    /// Number of lexicons.
    pub fn len(&self) -> (n: usize)
        ensures
            n == self.model().lexicons.len(),
    {
        self.lexicons.len()
    }
}

/// Turns the identifiers of words that a lexicon names into those within the set.
fn update_dict_id(ids: &mut Vec<WordId>, dic: u8)
    requires
        dic < MAX_DICTIONARIES,
    ensures
        final(ids)@ == set_ids(dic, old(ids)@),
{
    let ghost all = ids@;
    let mut i: usize = 0;
    while i < ids.len()
        invariant
            i <= ids@.len() == all.len(),
            dic < MAX_DICTIONARIES,
            forall|k: int| 0 <= k < i ==> #[trigger] ids@[k] == set_id(dic, all[k]),
            forall|k: int| i <= k < all.len() ==> #[trigger] ids@[k] == all[k],
        decreases all.len() - i,
    {
        let id: WordId = ids[i];
        if id.dic() > 0 {
            ids[i] = WordId::new(dic, id.word());
        }
        i = i + 1;
    }
    assert(ids@ =~= set_ids(dic, all));
}

/// The records of the words of a split, one after another.
pub struct SplitIter<'a> {
    index: usize,
    split: &'a [WordId],
    lexicon: &'a LexiconSet<'a>,
}

impl<'a> SplitIter<'a> {
    /// The words whose records are still to come.
    pub closed spec fn remaining(self) -> Seq<WordId> {
        if self.index <= self.split@.len() {
            self.split@.skip(self.index as int)
        } else {
            Seq::empty()
        }
    }

    /// The lexicons that hold the records.
    pub closed spec fn lexicons(self) -> LexiconSetModel {
        self.lexicon.model()
    }

    /// The records of the words of a split.
    pub fn new(split: &'a [WordId], lexicon: &'a LexiconSet<'a>) -> (iter: SplitIter<'a>)
        ensures
            iter.remaining() == split@,
            iter.lexicons() == lexicon.model(),
    {
        assert(split@.skip(0) =~= split@);
        SplitIter { index: 0, split, lexicon }
    }

    /// Number of records that are still to come.
    pub fn len(&self) -> (n: usize)
        ensures
            n == self.remaining().len(),
    {
        if self.index <= self.split.len() {
            self.split.len() - self.index
        } else {
            0
        }
    }

    /// The next word and its record, if there is one. The record is missing where the lexicons
    /// do not answer for the word.
    pub fn next(&mut self) -> (item: Option<(WordId, Option<SudachiResult<WordInfo>>)>)
        requires
            old(self).lexicons().wf(),
        ensures
            final(self).lexicons() == old(self).lexicons(),
            match item {
                Some((id, res)) => {
                    &&& old(self).remaining().len() > 0
                    &&& id == old(self).remaining()[0]
                    &&& final(self).remaining() == old(self).remaining().drop_first()
                    &&& old(self).lexicons().outcome(id, InfoSubset::uniform(true), res)
                },
                None => {
                    &&& old(self).remaining().len() == 0
                    &&& final(self).remaining() == old(self).remaining()
                },
            },
    {
        let idx: usize = self.index;
        if idx >= self.split.len() {
            None
        } else {
            self.index = self.index + 1;
            assert(self.remaining() =~= old(self).remaining().drop_first());
            let id: WordId = self.split[idx];
            let res: Option<SudachiResult<WordInfo>> = self.lexicon.checked_word_info(
                id,
                InfoSubset::all(),
            );
            Some((id, res))
        }
    }
}

} // verus!
