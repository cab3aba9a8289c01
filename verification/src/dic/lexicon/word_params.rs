//! Connection identifiers and costs of words.

use vstd::prelude::*;

use crate::bytes;
use crate::util::cow_array::CowArray;

verus! {

/// For each word the identifiers with which it connects on its left and on its right side, and
/// its cost.
pub struct WordParams<'a> {
    data: CowArray<'a>,
    size: u32,
}

impl<'a> WordParams<'a> {
    /// The parameters, three for each word.
    pub closed spec fn params(self) -> Seq<i16> {
        self.data@
    }

    /// Number of words.
    pub closed spec fn words(self) -> u32 {
        self.size
    }

    /// Every word has its parameters.
    pub open spec fn wf(self) -> bool {
        &&& self.params().len() == 3 * self.words()
        &&& 6 * self.words() + 4 <= usize::MAX
    }

    /// The left and right identifiers and the cost of a word.
    pub open spec fn of(self, word_id: int) -> (i16, i16, i16) {
        (
            self.params()[3 * word_id],
            self.params()[3 * word_id + 1],
            self.params()[3 * word_id + 2],
        )
    }

    /// The parameters of `size` words that are stored from byte `offset` on.
    pub fn new(bytes: &'a [u8], size: u32, offset: usize) -> (params: WordParams<'a>)
        requires
            offset + 6 * size <= bytes.len(),
            6 * size + 4 <= usize::MAX,
        ensures
            params.wf(),
            params.words() == size,
            params.params() == bytes::i16s_at(bytes@, offset as int, (3 * size) as nat),
    {
        let count: usize = size as usize * 3;
        WordParams { data: CowArray::from_bytes(bytes, offset, count), size }
    }

    /// Number of bytes of the parameters and of their number before them.
    pub fn storage_size(&self) -> (size: usize)
        requires
            self.wf(),
        ensures
            size == 4 + 6 * self.words(),
    {
        4 + 6 * self.size as usize
    }

    /// Number of words.
    pub fn size(&self) -> (size: u32)
        ensures
            size == self.words(),
    {
        self.size
    }

    /// Parameter `index` of all.
    fn param(&self, index: usize) -> (param: i16)
        requires
            index < self.params().len(),
        ensures
            param == self.params()[index as int],
    {
        match self.data.get(index) {
            Some(param) => param,
            None => 0,
        }
    }

    /// The left and right identifiers and the cost of a word.
    pub fn get_params(&self, word_id: u32) -> (params: (i16, i16, i16))
        requires
            self.wf(),
            word_id < self.words(),
        ensures
            params == self.of(word_id as int),
    {
        let begin: usize = word_id as usize * 3;
        (self.param(begin), self.param(begin + 1), self.param(begin + 2))
    }

    /// The cost of a word.
    pub fn get_cost(&self, word_id: u32) -> (cost: i16)
        requires
            self.wf(),
            word_id < self.words(),
        ensures
            cost == self.of(word_id as int).2,
    {
        self.param(word_id as usize * 3 + 2)
    }

    /// Replaces the cost of a word, and nothing else.
    pub fn set_cost(&mut self, word_id: u32, cost: i16)
        requires
            old(self).wf(),
            word_id < old(self).words(),
        ensures
            final(self).wf(),
            final(self).words() == old(self).words(),
            final(self).params() == old(self).params().update(3 * word_id + 2, cost),
    {
        self.data.set(word_id as usize * 3 + 2, cost);
    }
}

/// After a cost is set, its word has it, and all other parameters are as before.
pub proof fn law_set_cost_changes_one_cost(
    before: WordParams,
    after: WordParams,
    word_id: int,
    cost: i16,
    other: int,
)
    requires
        before.wf(),
        0 <= word_id < before.words(),
        0 <= other < before.words(),
        after.params() == before.params().update(3 * word_id + 2, cost),
    ensures
        after.of(other) == (
            before.of(other).0,
            before.of(other).1,
            if other == word_id {
                cost
            } else {
                before.of(other).2
            },
        ),
{
}

} // verus!
