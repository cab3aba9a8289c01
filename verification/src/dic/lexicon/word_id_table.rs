//! Lists of the words that share a surface.

use vstd::prelude::*;

use crate::bytes;

verus! {

/// The lists of words, each found by its place in the table.
pub struct WordIdTable<'a> {
    bytes: &'a [u8],
    size: u32,
    offset: usize,
}

/// The list of words that stands at byte `p`, its length before it in one byte.
pub open spec fn word_list(s: Seq<u8>, p: int) -> Option<Seq<u32>> {
    if p >= s.len() || p + 1 + 4 * s[p] > s.len() {
        None
    } else {
        Some(bytes::u32s_at(s, p + 1, s[p] as nat))
    }
}

impl<'a> WordIdTable<'a> {
    /// The bytes that hold the table.
    pub closed spec fn source(self) -> Seq<u8> {
        self.bytes@
    }

    /// Where the table begins.
    pub closed spec fn start(self) -> nat {
        self.offset as nat
    }

    /// Number of bytes of the table.
    pub closed spec fn byte_size(self) -> u32 {
        self.size
    }

    /// The list of words at a place in the table.
    pub open spec fn list(self, index: nat) -> Option<Seq<u32>> {
        word_list(self.source(), (self.start() + index) as int)
    }

    /// The bytes that hold the table fit in memory.
    pub proof fn lemma_source_len(self)
        ensures
            self.source().len() <= usize::MAX,
    {
        assert(self.bytes.len() == self.bytes@.len());
    }

    /// The table of `size` bytes that begins at byte `offset`.
    pub fn new(bytes: &'a [u8], size: u32, offset: usize) -> (table: WordIdTable<'a>)
        ensures
            table.source() == bytes@,
            table.start() == offset,
            table.byte_size() == size,
    {
        WordIdTable { bytes, size, offset }
    }

    /// Number of bytes of the table and of its size before it.
    pub fn storage_size(&self) -> (size: usize)
        requires
            4 + self.byte_size() <= usize::MAX,
        ensures
            size == 4 + self.byte_size(),
    {
        4 + self.size as usize
    }

    /// The list of words at a place in the table, if there is one.
    pub fn checked_entries(&self, index: usize) -> (entries: Option<Vec<u32>>)
        ensures
            match self.list(index as nat) {
                Some(list) => entries matches Some(got) && got@ == list,
                None => entries is None,
            },
    {
        let len: usize = self.bytes.len();
        if self.offset >= len || index >= len - self.offset {
            return None;
        }
        let p: usize = self.offset + index;
        let count: usize = self.bytes[p] as usize;
        if len - p - 1 < 4 * count {
            return None;
        }
        Some(bytes::read_u32s(self.bytes, p + 1, count))
    }

    /// The list of words at a place in the table.
    pub fn entries(&self, index: usize) -> (entries: Vec<u32>)
        requires
            self.list(index as nat) is Some,
        ensures
            self.list(index as nat) == Some(entries@),
    {
        match self.checked_entries(index) {
            Some(entries) => entries,
            None => Vec::new(),
        }
    }
}

/// A list that was written into a table, its length before it in one byte and then the numbers
/// of the words with the lowest byte first, is found at its place.
pub proof fn law_list_reads_back(before: Seq<u8>, list: Seq<u32>, rest: Seq<u8>)
    requires
        list.len() < 0x100,
    ensures
        word_list(
            before + seq![list.len() as u8] + bytes::u32s_bytes(list) + rest,
            before.len() as int,
        ) == Some(list),
{
    let head = before + seq![list.len() as u8];
    let s = head + bytes::u32s_bytes(list) + rest;
    bytes::lemma_u32s_bytes_len(list);
    bytes::lemma_u32s_round_trip(list, head, rest);
    assert(s[before.len() as int] == head[before.len() as int]);
}

} // verus!
