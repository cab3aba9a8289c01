//! The parts of an uncompressed dictionary.

use vstd::prelude::*;
use vstd::slice::slice_subrange;

use crate::bytes;
use crate::dic;
use crate::dic::header::STORAGE_SIZE;
use crate::dic::lexicon;
use crate::dic::lexicon::TrieVariantModel;
use crate::dic::{DictionaryLoader, DictionaryModel};
use crate::error;

verus! {

/// Where the parts of a dictionary stand.
#[derive(Debug, Clone, Copy, PartialEq, Eq, Structural)]
pub struct Layout {
    /// Where the lexicon begins, behind the header and the grammar
    pub lexicon_offset: usize,
    /// Number of bytes of the trie and of its size before it
    pub trie_size: usize,
    /// Where the places of the word records begin
    pub word_infos_offset: usize,
    /// Number of words
    pub word_count: usize,
    /// Number of bytes of the dictionary
    pub total: usize,
}

/// Numbers of bytes of the parts of a dictionary.
#[derive(Debug, Clone, Copy, PartialEq, Eq, Structural)]
pub struct SectionSizes {
    pub header: usize,
    pub grammar: usize,
    pub trie: usize,
    /// Lists and parameters of words
    pub lists: usize,
    /// Places of the word records
    pub wi_index: usize,
    pub wi_records: usize,
    pub total: usize,
}

impl SectionSizes {
    /// The sizes of the parts together.
    pub open spec fn sum(self) -> int {
        self.header + self.grammar + self.trie + self.lists + self.wi_index + self.wi_records
    }
}

/// Where the word records begin, behind their places.
pub open spec fn records_start(m: DictionaryModel) -> int {
    m.word_infos_offset + 4 * m.lexicon.words
}

/// No record stands before the place where the records begin.
pub open spec fn none_misplaced(places: Seq<u32>, start: int) -> bool {
    forall|k: int| 0 <= k < places.len() ==> #[trigger] places[k] >= start
}

/// The parts of a dictionary in `d` stand one behind the other, and the places of the word
/// records are not cut off.
pub open spec fn is_layout(d: Seq<u8>, m: DictionaryModel, layout: Layout) -> bool {
    &&& layout.lexicon_offset == m.lexicon_offset
    &&& m.lexicon.trie matches TrieVariantModel::Yada(t) && layout.trie_size == 4 + 4
        * t.units.len()
    &&& layout.word_infos_offset == m.word_infos_offset
    &&& layout.word_count == m.lexicon.words
    &&& layout.total == d.len()
    &&& layout.wf()
}

impl Layout {
    /// The parts stand one behind the other.
    pub open spec fn wf(self) -> bool {
        &&& STORAGE_SIZE <= self.lexicon_offset
        &&& self.lexicon_offset + self.trie_size <= self.word_infos_offset
        &&& self.word_infos_offset + 4 * self.word_count <= self.total
    }

    /// Finds the parts of a dictionary that was read from `data`. Returns nothing where the
    /// places of the word records are cut off.
    pub fn of(loader: &DictionaryLoader, data: &[u8]) -> (layout: Option<Layout>)
        requires
            dic::dictionary_in(data@) == Some(
                Ok::<DictionaryModel, error::ErrorModel>(loader.model()),
            ),
        ensures
            match layout {
                Some(found) => is_layout(data@, loader.model(), found),
                None => records_start(loader.model()) > data@.len(),
            },
    {
        assert(data.len() == data@.len());
        proof {
            lemma_dictionary(data@, loader.model());
        }
        let word_infos_offset: usize = loader.word_infos_offset;
        let word_count: usize = loader.lexicon.size() as usize;
        if word_count > (data.len() - word_infos_offset) / 4 {
            return None;
        }
        Some(
            Layout {
                lexicon_offset: loader.lexicon_offset,
                trie_size: loader.lexicon.trie_storage_size(),
                word_infos_offset,
                word_count,
                total: data.len(),
            },
        )
    }

    /// Where the word records begin.
    pub fn records_start(&self) -> (start: usize)
        requires
            self.wf(),
        ensures
            start == self.word_infos_offset + 4 * self.word_count,
    {
        self.word_infos_offset + 4 * self.word_count
    }

    /// Numbers of bytes of the parts.
    pub fn sizes(&self) -> (sizes: SectionSizes)
        requires
            self.wf(),
        ensures
            sizes.header == STORAGE_SIZE,
            sizes.grammar == self.lexicon_offset - STORAGE_SIZE,
            sizes.trie == self.trie_size,
            sizes.lists == self.word_infos_offset - self.lexicon_offset - self.trie_size,
            sizes.wi_index == 4 * self.word_count,
            sizes.wi_records == self.total - self.word_infos_offset - 4 * self.word_count,
            sizes.total == self.total,
            sizes.sum() == self.total,
    {
        let wi_index: usize = 4 * self.word_count;
        SectionSizes {
            header: STORAGE_SIZE,
            grammar: self.lexicon_offset - STORAGE_SIZE,
            trie: self.trie_size,
            lists: self.word_infos_offset - self.lexicon_offset - self.trie_size,
            wi_index,
            wi_records: self.total - self.word_infos_offset - wi_index,
            total: self.total,
        }
    }

    /// The bytes of the grammar.
    pub open spec fn grammar_of(self, d: Seq<u8>) -> Seq<u8> {
        d.subrange(STORAGE_SIZE as int, self.lexicon_offset as int)
    }

    /// The bytes of the lists and parameters of words.
    pub open spec fn lists_of(self, d: Seq<u8>) -> Seq<u8> {
        d.subrange(self.lexicon_offset + self.trie_size, self.word_infos_offset as int)
    }

    /// The places of the word records in the dictionary.
    pub open spec fn index_of(self, d: Seq<u8>) -> Seq<u32> {
        bytes::u32s_at(d, self.word_infos_offset as int, self.word_count as nat)
    }

    /// The bytes of the word records.
    pub open spec fn records_of(self, d: Seq<u8>) -> Seq<u8> {
        d.skip(self.word_infos_offset + 4 * self.word_count)
    }

    /// The bytes of the word records.
    pub fn records<'a>(&self, data: &'a [u8]) -> (records: &'a [u8])
        requires
            self.wf(),
            self.total == data@.len(),
        ensures
            records@ == self.records_of(data@),
    {
        let records = slice_subrange(data, self.records_start(), self.total);
        assert(records@ =~= self.records_of(data@));
        records
    }

    /// The places of the word records, counted from where the records begin. Returns the number
    /// of the first word whose record stands elsewhere, if there is one.
    pub fn relative_index(&self, data: &[u8]) -> (res: Result<Vec<u32>, u32>)
        requires
            self.wf(),
            self.total == data@.len(),
            self.word_count <= u32::MAX,
        ensures
            match res {
                Ok(index) => is_relative(
                    self.index_of(data@),
                    self.word_infos_offset + 4 * self.word_count,
                    index@,
                ),
                Err(word_id) => is_first_misplaced(
                    self.index_of(data@),
                    self.word_infos_offset + 4 * self.word_count,
                    word_id as int,
                ),
            },
    {
        let start: usize = self.records_start();
        let ghost places = self.index_of(data@);
        let mut index: Vec<u32> = Vec::new();
        let mut i: usize = 0;
        while i < self.word_count
            invariant
                i <= self.word_count <= u32::MAX,
                self.wf(),
                self.total == data@.len(),
                start == self.word_infos_offset + 4 * self.word_count,
                places == self.index_of(data@),
                index@.len() == i,
                forall|k: int|
                    0 <= k < i ==> #[trigger] places[k] >= start && index@[k] == places[k] - start,
            decreases self.word_count - i,
        {
            let place: u32 = bytes::read_u32(data, self.word_infos_offset + 4 * i);
            assert(places[i as int] == place);
            if (place as usize) < start {
                return Err(i as u32);
            }
            index.push((place as usize - start) as u32);
            i = i + 1;
        }
        Ok(index)
    }
}

/// `index` holds the places of records, counted from `start`.
pub open spec fn is_relative(places: Seq<u32>, start: int, index: Seq<u32>) -> bool {
    &&& index.len() == places.len()
    &&& forall|k: int|
        0 <= k < places.len() ==> #[trigger] places[k] >= start && index[k] == places[k] - start
}

/// The record of word `i` stands before `start`, and those of the words before it do not.
pub open spec fn is_first_misplaced(places: Seq<u32>, start: int, i: int) -> bool {
    &&& 0 <= i < places.len()
    &&& places[i] < start
    &&& forall|k: int| 0 <= k < i ==> #[trigger] places[k] >= start
}

/// The parts of a dictionary that can be read stand one behind the other.
pub proof fn lemma_dictionary(d: Seq<u8>, m: DictionaryModel)
    requires
        dic::dictionary_in(d) == Some(Ok::<DictionaryModel, error::ErrorModel>(m)),
    ensures
        STORAGE_SIZE <= m.lexicon_offset,
        m.lexicon.trie matches TrieVariantModel::Yada(t) && m.lexicon_offset + 4 + 4
            * t.units.len() <= m.word_infos_offset,
        m.word_infos_offset <= d.len(),
        lexicon::lexicon_section(d, m.lexicon_offset) matches Some(Ok(layout)) && {
            &&& m.lexicon == lexicon::laid_out_lexicon(
                d,
                layout,
                dic::header::version_has_synonyms(m.header.version),
            )
            &&& layout.infos_start == m.word_infos_offset
        },
{
}

} // verus!
