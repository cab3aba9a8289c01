//! Assembling compressed dictionaries of their sections.

use vstd::prelude::*;

use crate::bytes;
use crate::dic::header::STORAGE_SIZE;
use crate::dic::lexicon::word_infos;
use crate::dic::lexicon::word_infos::ChunkedModel;
use crate::dic::repack::records::CompressedRecords;
use crate::dic::xdic;
use crate::dic::xdic::SectionsModel;

verus! {

/// What a compressed dictionary is assembled of.
pub struct XdicParts<'a> {
    pub header: &'a [u8],
    pub grammar_zstd: &'a [u8],
    pub xcdat: &'a [u8],
    /// For each rank of a key of the trie the place of the words in the table of word lists
    pub rank_to_offset: &'a [u32],
    /// Lists and parameters of words
    pub rest: &'a [u8],
    /// Places of the word records, counted from where the records begin
    pub wi_index: &'a [u32],
    pub zdict: &'a [u8],
    pub records: &'a CompressedRecords,
}

/// What an [`XdicParts`] holds.
pub struct XdicModel {
    pub header: Seq<u8>,
    pub grammar_zstd: Seq<u8>,
    pub xcdat: Seq<u8>,
    pub rank_to_offset: Seq<u32>,
    pub rest: Seq<u8>,
    pub wi_index: Seq<u32>,
    pub zdict: Seq<u8>,
    pub chunk_offsets: Seq<u32>,
    pub chunk_data: Seq<u8>,
}

/// A section: bytes with their number before them.
#[verifier::opaque]
pub open spec fn section(s: Seq<u8>) -> Seq<u8> {
    bytes::u32_bytes(s.len() as u32) + s
}

/// Numbers with their count before them.
#[verifier::opaque]
pub open spec fn numbers(vs: Seq<u32>) -> Seq<u8> {
    bytes::u32_bytes(vs.len() as u32) + bytes::u32s_bytes(vs)
}

impl XdicModel {
    /// The places of the word records and what is behind.
    pub open spec fn chunked_bytes(self) -> Seq<u8> {
        bytes::u32s_bytes(self.wi_index) + (section(self.zdict) + (numbers(self.chunk_offsets)
            + self.chunk_data))
    }

    /// The bytes of the compressed dictionary.
    #[verifier::opaque]
    pub open spec fn bytes(self) -> Seq<u8> {
        self.header + (section(self.grammar_zstd) + (section(self.xcdat) + (numbers(
            self.rank_to_offset,
        ) + (section(self.rest) + (bytes::u32_bytes((4 * self.wi_index.len()) as u32)
            + self.chunked_bytes())))))
    }

    /// The header has its size, and the sizes of all sections can be written.
    pub open spec fn fits(self) -> bool {
        &&& self.header.len() == STORAGE_SIZE
        &&& self.grammar_zstd.len() <= u32::MAX
        &&& self.xcdat.len() <= u32::MAX
        &&& self.rank_to_offset.len() <= u32::MAX
        &&& self.rest.len() <= u32::MAX
        &&& 4 * self.wi_index.len() <= u32::MAX
        &&& self.zdict.len() <= u32::MAX
        &&& self.chunk_offsets.len() <= u32::MAX
    }

    /// The word records of the compressed dictionary.
    pub open spec fn chunked(self, chunk_size: nat, has_synonym_group_ids: bool) -> ChunkedModel {
        ChunkedModel {
            wi_index: self.wi_index,
            zdict: self.zdict,
            chunk_offsets: self.chunk_offsets,
            compressed_data: self.chunk_data,
            chunk_size,
            has_synonym_group_ids,
        }
    }
}

impl<'a> XdicParts<'a> {
    /// The parts as sequences.
    pub open spec fn model(self) -> XdicModel {
        XdicModel {
            header: self.header@,
            grammar_zstd: self.grammar_zstd@,
            xcdat: self.xcdat@,
            rank_to_offset: self.rank_to_offset@,
            rest: self.rest@,
            wi_index: self.wi_index@,
            zdict: self.zdict@,
            chunk_offsets: self.records.chunk_offsets@,
            chunk_data: self.records.data@,
        }
    }
}

/// Appends a section.
fn push_section(out: &mut Vec<u8>, s: &[u8])
    ensures
        final(out)@ == old(out)@ + section(s@),
{
    reveal(section);
    bytes::push_u32(out, s.len() as u32);
    bytes::push_all(out, s);
    assert(out@ =~= old(out)@ + section(s@));
}

/// Appends numbers with their count before them.
fn push_numbers(out: &mut Vec<u8>, vs: &[u32])
    ensures
        final(out)@ == old(out)@ + numbers(vs@),
{
    reveal(numbers);
    bytes::push_u32(out, vs.len() as u32);
    bytes::push_u32s(out, vs);
    assert(out@ =~= old(out)@ + numbers(vs@));
}

/// Concatenation is associative.
proof fn lemma_regroup(a: Seq<u8>, b: Seq<u8>, c: Seq<u8>)
    ensures
        a + (b + c) == (a + b) + c,
{
    assert(a + (b + c) =~= (a + b) + c);
}

/// Assembles a compressed dictionary.
pub fn assemble(parts: &XdicParts) -> (out: Vec<u8>)
    requires
        4 * parts.wi_index.len() <= usize::MAX,
    ensures
        out@ == parts.model().bytes(),
{
    let mut out: Vec<u8> = Vec::new();
    bytes::push_all(&mut out, parts.header);
    push_section(&mut out, parts.grammar_zstd);
    push_section(&mut out, parts.xcdat);
    push_numbers(&mut out, parts.rank_to_offset);
    push_section(&mut out, parts.rest);
    bytes::push_u32(&mut out, (4 * parts.wi_index.len()) as u32);
    bytes::push_u32s(&mut out, parts.wi_index);
    push_section(&mut out, parts.zdict);
    push_numbers(&mut out, parts.records.chunk_offsets.as_slice());
    bytes::push_all(&mut out, parts.records.data.as_slice());
    proof {
        reveal(XdicModel::bytes);
        let m = parts.model();
        let s1 = section(m.grammar_zstd);
        let s2 = section(m.xcdat);
        let s3 = numbers(m.rank_to_offset);
        let s4 = section(m.rest);
        let s5 = bytes::u32_bytes((4 * m.wi_index.len()) as u32);
        let s6 = bytes::u32s_bytes(m.wi_index);
        let s7 = section(m.zdict);
        let s8 = numbers(m.chunk_offsets);
        let r7 = s8 + m.chunk_data;
        let r6 = s7 + r7;
        let r5 = s6 + r6;
        let r4 = s5 + r5;
        let r3 = s4 + r4;
        let r2 = s3 + r3;
        let r1 = s2 + r2;
        let a0 = m.header;
        assert(Seq::<u8>::empty() + a0 =~= a0);
        lemma_regroup(a0, s1, r1);
        lemma_regroup(a0 + s1, s2, r2);
        lemma_regroup(a0 + s1 + s2, s3, r3);
        lemma_regroup(a0 + s1 + s2 + s3, s4, r4);
        lemma_regroup(a0 + s1 + s2 + s3 + s4, s5, r5);
        lemma_regroup(a0 + s1 + s2 + s3 + s4 + s5, s6, r6);
        lemma_regroup(a0 + s1 + s2 + s3 + s4 + s5 + s6, s7, r7);
        lemma_regroup(a0 + s1 + s2 + s3 + s4 + s5 + s6 + s7, s8, m.chunk_data);
    }
    out
}

/// A section that was written can be found.
proof fn lemma_section(before: Seq<u8>, s: Seq<u8>, after: Seq<u8>)
    requires
        s.len() <= u32::MAX,
    ensures
        ({
            let d = before + (section(s) + after);
            let p = before.len() as int;
            &&& xdic::section_end(d, p) == Some(p + 4 + s.len())
            &&& d.subrange(p + 4, p + 4 + s.len()) == s
            &&& bytes::u32_at(d, p) == s.len()
            &&& d == (before + section(s)) + after
            &&& (before + section(s)).len() == p + 4 + s.len()
        }),
{
    reveal(section);
    let d = before + (section(s) + after);
    let p = before.len() as int;
    bytes::lemma_u32_round_trip(s.len() as u32, before, s + after);
    assert(d =~= before + bytes::u32_bytes(s.len() as u32) + (s + after));
    assert(d.subrange(p + 4, p + 4 + s.len()) =~= s);
    lemma_regroup(before, section(s), after);
}

/// Numbers that were written with their count before them can be read.
proof fn lemma_numbers(before: Seq<u8>, vs: Seq<u32>, after: Seq<u8>)
    requires
        vs.len() <= u32::MAX,
    ensures
        ({
            let d = before + (numbers(vs) + after);
            let p = before.len() as int;
            &&& bytes::u32_at(d, p) == vs.len()
            &&& bytes::u32s_at(d, p + 4, vs.len()) == vs
            &&& d.len() == p + 4 + 4 * vs.len() + after.len()
            &&& d == (before + numbers(vs)) + after
            &&& (before + numbers(vs)).len() == p + 4 + 4 * vs.len()
        }),
{
    reveal(numbers);
    let count = bytes::u32_bytes(vs.len() as u32);
    let d = before + (numbers(vs) + after);
    bytes::lemma_u32s_bytes_len(vs);
    bytes::lemma_u32_round_trip(vs.len() as u32, before, bytes::u32s_bytes(vs) + after);
    assert(d =~= before + count + (bytes::u32s_bytes(vs) + after));
    bytes::lemma_u32s_round_trip(vs, before + count, after);
    assert(d =~= (before + count) + bytes::u32s_bytes(vs) + after);
    lemma_regroup(before, numbers(vs), after);
}

/// The word records of a compressed dictionary are read back as they were written.
pub proof fn law_chunked_section_reads_back(
    m: XdicModel,
    chunk_size: nat,
    has_synonym_group_ids: bool,
)
    requires
        m.fits(),
    ensures
        word_infos::chunked_section(
            m.chunked_bytes(),
            m.wi_index.len(),
            chunk_size,
            has_synonym_group_ids,
        ) == Some(m.chunked(chunk_size, has_synonym_group_ids)),
{
    let d = m.chunked_bytes();
    let index = bytes::u32s_bytes(m.wi_index);
    let b2 = numbers(m.chunk_offsets) + m.chunk_data;
    let b1 = section(m.zdict) + b2;
    bytes::lemma_u32s_bytes_len(m.wi_index);
    bytes::lemma_u32s_round_trip(m.wi_index, Seq::empty(), b1);
    assert(Seq::<u8>::empty() + index =~= index);
    lemma_section(index, m.zdict, b2);
    lemma_numbers(index + section(m.zdict), m.chunk_offsets, m.chunk_data);
    let p = 4 * m.wi_index.len();
    let q = p + 4 + m.zdict.len();
    let r = q + 4 + 4 * m.chunk_offsets.len();
    assert(d.skip(r as int) =~= m.chunk_data);
}

/// The bytes before the ranks, before the lists of words, and before the places of the word
/// records.
spec fn heads(m: XdicModel) -> (Seq<u8>, Seq<u8>, Seq<u8>) {
    let ranks = m.header + section(m.grammar_zstd) + section(m.xcdat);
    let lists = ranks + numbers(m.rank_to_offset);
    (ranks, lists, lists + section(m.rest))
}

/// The bytes behind the trie, behind the ranks, and behind the lists of words.
spec fn tails(m: XdicModel) -> (Seq<u8>, Seq<u8>, Seq<u8>) {
    let places = bytes::u32_bytes((4 * m.wi_index.len()) as u32) + m.chunked_bytes();
    let lists = section(m.rest) + places;
    (numbers(m.rank_to_offset) + lists, lists, places)
}

/// The grammar and the trie can be found.
proof fn lemma_find_trie(m: XdicModel)
    requires
        m.fits(),
    ensures
        ({
            let d = m.bytes();
            let p0 = STORAGE_SIZE as int;
            let p1 = p0 + 4 + m.grammar_zstd.len();
            let p2 = p1 + 4 + m.xcdat.len();
            &&& xdic::section_end(d, p0) == Some(p1)
            &&& d.subrange(p0 + 4, p1) == m.grammar_zstd
            &&& xdic::section_end(d, p1) == Some(p2)
            &&& d.subrange(p1 + 4, p2) == m.xcdat
            &&& d.take(p0) == m.header
            &&& heads(m).0.len() == p2
            &&& d == heads(m).0 + tails(m).0
        }),
{
    reveal(XdicModel::bytes);
    let b1 = section(m.xcdat) + tails(m).0;
    lemma_section(m.header, m.grammar_zstd, b1);
    lemma_section(m.header + section(m.grammar_zstd), m.xcdat, tails(m).0);
    assert(m.bytes().take(STORAGE_SIZE as int) =~= m.header);
}

/// The ranks can be found.
proof fn lemma_find_ranks(m: XdicModel)
    requires
        m.fits(),
    ensures
        ({
            let d = m.bytes();
            let p2 = heads(m).0.len() as int;
            let p3 = p2 + 4 + 4 * m.rank_to_offset.len();
            &&& p3 <= d.len()
            &&& bytes::u32_at(d, p2) == m.rank_to_offset.len()
            &&& bytes::u32s_at(d, p2 + 4, m.rank_to_offset.len()) == m.rank_to_offset
            &&& heads(m).1.len() == p3
            &&& d == heads(m).1 + tails(m).1
        }),
{
    lemma_find_trie(m);
    lemma_numbers(heads(m).0, m.rank_to_offset, tails(m).1);
}

/// The lists and parameters of words can be found.
proof fn lemma_find_lists(m: XdicModel)
    requires
        m.fits(),
    ensures
        ({
            let d = m.bytes();
            let p3 = heads(m).1.len() as int;
            let p4 = p3 + 4 + m.rest.len();
            &&& xdic::section_end(d, p3) == Some(p4)
            &&& d.subrange(p3 + 4, p4) == m.rest
            &&& heads(m).2.len() == p4
            &&& d == heads(m).2 + tails(m).2
        }),
{
    lemma_find_ranks(m);
    lemma_section(heads(m).1, m.rest, tails(m).2);
}

/// The places of the word records and the dictionary of the chunks can be found.
proof fn lemma_find_records(m: XdicModel)
    requires
        m.fits(),
    ensures
        ({
            let d = m.bytes();
            let p4 = heads(m).2.len() as int;
            let p5 = p4 + 4 + 4 * m.wi_index.len();
            let p6 = p5 + 4 + m.zdict.len();
            &&& xdic::section_end(d, p4) == Some(p5)
            &&& bytes::u32_at(d, p4) == 4 * m.wi_index.len()
            &&& xdic::section_end(d, p5) == Some(p6)
            &&& d.subrange(p5 + 4, p6) == m.zdict
            &&& d.skip(p4 + 4) == m.chunked_bytes()
        }),
{
    let index = bytes::u32s_bytes(m.wi_index);
    let index_len = bytes::u32_bytes((4 * m.wi_index.len()) as u32);
    let b6 = numbers(m.chunk_offsets) + m.chunk_data;
    let b5 = section(m.zdict) + b6;
    let a5 = heads(m).2;
    bytes::lemma_u32s_bytes_len(m.wi_index);
    lemma_find_lists(m);
    assert(section(index) == index_len + index) by {
        reveal(section);
    }
    lemma_regroup(index_len, index, b5);
    lemma_section(a5, index, b5);
    lemma_section(a5 + section(index), m.zdict, b6);
    lemma_regroup(a5, index_len, m.chunked_bytes());
    assert(m.bytes().skip(a5.len() as int + 4) =~= m.chunked_bytes());
}

/// The sections of a compressed dictionary are read back as they were written.
pub proof fn law_sections_read_back(m: XdicModel)
    requires
        m.fits(),
    ensures
        xdic::sections_in(m.bytes()) == Some(
            SectionsModel {
                header: m.header,
                grammar_zstd: m.grammar_zstd,
                xcdat: m.xcdat,
                rank_to_offset: m.rank_to_offset,
                rest: m.rest,
                word_count: m.wi_index.len(),
                zdict: m.zdict,
                chunked: m.chunked_bytes(),
            },
        ),
{
    let d = m.bytes();
    let p0 = STORAGE_SIZE as int;
    let p1 = p0 + 4 + m.grammar_zstd.len();
    let p2 = p1 + 4 + m.xcdat.len();
    let p3 = p2 + 4 + 4 * m.rank_to_offset.len();
    let p4 = p3 + 4 + m.rest.len();
    let p5 = p4 + 4 + 4 * m.wi_index.len();
    let p6 = p5 + 4 + m.zdict.len();
    assert({
        &&& xdic::section_end(d, p0) == Some(p1)
        &&& d.subrange(p0 + 4, p1) == m.grammar_zstd
        &&& xdic::section_end(d, p1) == Some(p2)
        &&& d.subrange(p1 + 4, p2) == m.xcdat
        &&& d.take(p0) == m.header
    }) by {
        lemma_find_trie(m);
    }
    assert({
        &&& p3 <= d.len()
        &&& bytes::u32_at(d, p2) == m.rank_to_offset.len()
        &&& bytes::u32s_at(d, p2 + 4, m.rank_to_offset.len()) == m.rank_to_offset
    }) by {
        lemma_find_trie(m);
        lemma_find_ranks(m);
    }
    assert({
        &&& xdic::section_end(d, p3) == Some(p4)
        &&& d.subrange(p3 + 4, p4) == m.rest
    }) by {
        lemma_find_trie(m);
        lemma_find_ranks(m);
        lemma_find_lists(m);
    }
    assert({
        &&& xdic::section_end(d, p4) == Some(p5)
        &&& bytes::u32_at(d, p4) == 4 * m.wi_index.len()
        &&& xdic::section_end(d, p5) == Some(p6)
        &&& d.subrange(p5 + 4, p6) == m.zdict
        &&& d.skip(p4 + 4) == m.chunked_bytes()
    }) by {
        lemma_find_trie(m);
        lemma_find_ranks(m);
        lemma_find_lists(m);
        lemma_find_records(m);
    }
}

/// The parts of a compressed dictionary stand in it one behind the other: the header; the grammar,
/// the trie, the ranks, and the lists and parameters, each with its size before it, for ranks
/// their number; the number of bytes of the places of the records, and the places; the dictionary
/// of the encoder with its size; the number of chunks, the places of the chunks, and the chunks.
/// All numbers take up four bytes.
pub proof fn law_parts_stand_one_behind_the_other(m: XdicModel)
    requires
        m.fits(),
    ensures
        m.bytes() == m.header + bytes::u32_bytes(m.grammar_zstd.len() as u32) + m.grammar_zstd
            + bytes::u32_bytes(m.xcdat.len() as u32) + m.xcdat + bytes::u32_bytes(
            m.rank_to_offset.len() as u32,
        ) + bytes::u32s_bytes(m.rank_to_offset) + bytes::u32_bytes(m.rest.len() as u32) + m.rest
            + bytes::u32_bytes((4 * m.wi_index.len()) as u32) + bytes::u32s_bytes(m.wi_index)
            + bytes::u32_bytes(m.zdict.len() as u32) + m.zdict + bytes::u32_bytes(
            m.chunk_offsets.len() as u32,
        ) + bytes::u32s_bytes(m.chunk_offsets) + m.chunk_data,
{
    reveal(section);
    reveal(numbers);
    reveal(XdicModel::bytes);
    let a1 = bytes::u32_bytes(m.grammar_zstd.len() as u32);
    let b1 = bytes::u32_bytes(m.xcdat.len() as u32);
    let c1 = bytes::u32_bytes(m.rank_to_offset.len() as u32);
    let c2 = bytes::u32s_bytes(m.rank_to_offset);
    let d1 = bytes::u32_bytes(m.rest.len() as u32);
    let e1 = bytes::u32_bytes((4 * m.wi_index.len()) as u32);
    let e2 = bytes::u32s_bytes(m.wi_index);
    let f1 = bytes::u32_bytes(m.zdict.len() as u32);
    let g1 = bytes::u32_bytes(m.chunk_offsets.len() as u32);
    let g2 = bytes::u32s_bytes(m.chunk_offsets);
    let t6 = (g1 + g2) + m.chunk_data;
    let t5 = (f1 + m.zdict) + t6;
    let t4 = e1 + (e2 + t5);
    let t3 = (d1 + m.rest) + t4;
    let t2 = (c1 + c2) + t3;
    let t1 = (b1 + m.xcdat) + t2;
    let x1 = m.header + a1 + m.grammar_zstd;
    let x2 = x1 + b1 + m.xcdat;
    let x3 = x2 + c1 + c2;
    let x4 = x3 + d1 + m.rest;
    let x5 = x4 + e1 + e2;
    let x6 = x5 + f1 + m.zdict;
    assert(m.bytes() == m.header + ((a1 + m.grammar_zstd) + t1));
    lemma_append(m.header, a1, m.grammar_zstd, t1);
    lemma_append(x1, b1, m.xcdat, t2);
    lemma_append(x2, c1, c2, t3);
    lemma_append(x3, d1, m.rest, t4);
    lemma_regroup(x4, e1, e2 + t5);
    lemma_regroup(x4 + e1, e2, t5);
    lemma_append(x5, f1, m.zdict, t6);
    lemma_append(x6, g1, g2, m.chunk_data);
}

/// A part with its size before it is appended in two steps.
proof fn lemma_append(x: Seq<u8>, size: Seq<u8>, part: Seq<u8>, behind: Seq<u8>)
    ensures
        x + ((size + part) + behind) == (x + size + part) + behind,
{
    lemma_regroup(x, size + part, behind);
    lemma_regroup(x, size, part);
}

} // verus!
