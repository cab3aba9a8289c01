//! Succinct vectors: bits with rank, and integers of a fixed number of bits.

use vstd::prelude::*;

verus! {

/// Number of ones among the lowest `n` bits of a word.
pub open spec fn ones(word: u64, n: nat) -> nat
    decreases n,
{
    if n == 0 {
        0
    } else {
        ones(word, (n - 1) as nat) + ((word >> ((n - 1) as u64)) & 1) as nat
    }
}

/// `u64::count_ones` returns the number of ones in the binary representation of its argument.
pub assume_specification[ u64::count_ones ](word: u64) -> (n: u32)
    ensures
        n == ones(word, 64),
;

/// Bit `p` of a sequence of words, the lowest bit of a word first.
pub open spec fn word_bit(words: Seq<u64>, p: int) -> bool {
    (words[p / 64] >> ((p % 64) as u64)) & 1 == 1
}

/// Number of ones among the first `n` bits of a sequence of words.
pub open spec fn ones_below(words: Seq<u64>, n: nat) -> nat
    decreases n,
{
    if n == 0 {
        0
    } else {
        ones_below(words, (n - 1) as nat) + if word_bit(words, n - 1) {
            1nat
        } else {
            0nat
        }
    }
}

/// Shifting a word to the left moves its lower bits up and fills with zeros.
proof fn lemma_ones_shifted(word: u64, shift: u64, n: nat)
    requires
        shift < 64,
        n <= 64,
    ensures
        ones(word << shift, n) == if n <= shift {
            0
        } else {
            ones(word, (n - shift) as nat)
        },
    decreases n,
{
    if n > 0 {
        lemma_ones_shifted(word, shift, (n - 1) as nat);
        let k = (n - 1) as u64;
        if k < shift {
            assert(((word << shift) >> k) & 1 == 0) by (bit_vector)
                requires
                    k < shift,
                    shift < 64,
            ;
        } else {
            let d = (k - shift) as u64;
            assert(ones(word, 0) == 0);
            assert(((word << shift) >> k) & 1 == (word >> d) & 1) by (bit_vector)
                requires
                    d == k - shift,
                    shift <= k,
                    k < 64,
            ;
        }
    }
}

/// The ones below a bit are those below its word and those below it in its word.
proof fn lemma_ones_below_word(words: Seq<u64>, wi: nat, n: nat)
    requires
        n <= 64,
    ensures
        ones_below(words, 64 * wi + n) == ones_below(words, 64 * wi) + ones(words[wi as int], n),
    decreases n,
{
    if n > 0 {
        lemma_ones_below_word(words, wi, (n - 1) as nat);
        let p = 64 * wi + n - 1;
        assert(p / 64 == wi && p % 64 == n - 1);
        let w = words[wi as int];
        let k = (n - 1) as u64;
        assert((w >> k) & 1 == 0 || (w >> k) & 1 == 1) by (bit_vector);
    }
}

/// What a [`BitVector`] holds.
pub struct BitVectorModel {
    pub size: u64,
    pub num_ones: u64,
    pub words: Seq<u64>,
    pub rank_hints: Seq<u64>,
}

impl BitVectorModel {
    /// Bit `i`, where it is stored.
    pub open spec fn bit(self, i: int) -> Option<bool> {
        if i / 64 < self.words.len() {
            Some(word_bit(self.words, i))
        } else {
            None
        }
    }

    /// The stored number of ones before word `wi`: that of its block of eight words, and within
    /// the block a field of nine bits.
    pub open spec fn word_hint(self, wi: int) -> int {
        self.rank_hints[wi / 8 * 2] + ((self.rank_hints[wi / 8 * 2 + 1] >> (((7 - wi % 8)
            * 9) as u64)) & 0x1FF)
    }

    /// The number of ones before bit `i`, as the stored counts give it.
    pub open spec fn rank(self, i: int) -> Option<u64> {
        let rank = self.word_hint(i / 64) + ones(self.words[i / 64], (i % 64) as nat);
        if i == self.size {
            Some(self.num_ones)
        } else if i / 64 / 8 * 2 + 1 >= self.rank_hints.len() || (i % 64 != 0 && i / 64
            >= self.words.len()) || rank > u64::MAX {
            None
        } else {
            Some(rank as u64)
        }
    }

    /// The stored counts are those of the bits.
    pub open spec fn counts_ones(self) -> bool {
        &&& self.num_ones == ones_below(self.words, self.size as nat)
        &&& self.size <= 64 * self.words.len()
        &&& self.size <= 256 * self.rank_hints.len()
        &&& self.rank_hints.len() % 2 == 0
        &&& forall|wi: int|
            0 <= wi && 64 * wi < self.size ==> #[trigger] self.word_hint(wi) == ones_below(
                self.words,
                (64 * wi) as nat,
            )
    }
}

/// Where the stored counts are those of the bits, the rank of a bit is the number of ones
/// before it.
pub proof fn law_rank_counts_ones(v: BitVectorModel, i: nat)
    requires
        v.counts_ones(),
        i <= v.size,
    ensures
        v.rank(i as int) == Some(ones_below(v.words, i) as u64),
        ones_below(v.words, i) <= i,
{
    lemma_ones_below_bound(v.words, i);
    if i < v.size {
        let wi = (i / 64) as int;
        assert(64 * wi < v.size);
        lemma_ones_below_word(v.words, wi as nat, (i % 64) as nat);
        assert(v.word_hint(wi) == ones_below(v.words, (64 * wi) as nat));
        assert(64 * wi + i % 64 == i);
        if i % 64 == 0 {
            assert(ones(v.words[wi], 0) == 0);
        }
    }
}

/// The counts within a block of eight words are found again: a block stores the number of ones
/// before it, and in a second word seven fields of nine bits, the one of the second word of the
/// block in the highest bits, each with the number of ones of the block before its word.
pub proof fn law_counts_within_a_block(
    v: BitVectorModel,
    b: int,
    c1: u64,
    c2: u64,
    c3: u64,
    c4: u64,
    c5: u64,
    c6: u64,
    c7: u64,
)
    requires
        0 <= b,
        2 * b + 1 < v.rank_hints.len(),
        c1 < 512,
        c2 < 512,
        c3 < 512,
        c4 < 512,
        c5 < 512,
        c6 < 512,
        c7 < 512,
        v.rank_hints[2 * b + 1] == 0x40_0000_0000_0000 * c1 + 0x2000_0000_0000 * c2 + 0x10_0000_0000
            * c3 + 0x800_0000 * c4 + 0x4_0000 * c5 + 0x200 * c6 + c7,
    ensures
        v.word_hint(8 * b) == v.rank_hints[2 * b],
        v.word_hint(8 * b + 1) == v.rank_hints[2 * b] + c1,
        v.word_hint(8 * b + 2) == v.rank_hints[2 * b] + c2,
        v.word_hint(8 * b + 3) == v.rank_hints[2 * b] + c3,
        v.word_hint(8 * b + 4) == v.rank_hints[2 * b] + c4,
        v.word_hint(8 * b + 5) == v.rank_hints[2 * b] + c5,
        v.word_hint(8 * b + 6) == v.rank_hints[2 * b] + c6,
        v.word_hint(8 * b + 7) == v.rank_hints[2 * b] + c7,
{
    let w = v.rank_hints[2 * b + 1];
    assert((w >> 63) & 0x1FF == 0 && (w >> 54) & 0x1FF == c1 && (w >> 45) & 0x1FF == c2 && (w >> 36)
        & 0x1FF == c3 && (w >> 27) & 0x1FF == c4 && (w >> 18) & 0x1FF == c5 && (w >> 9) & 0x1FF
        == c6 && (w >> 0) & 0x1FF == c7) by (bit_vector)
        requires
            c1 < 512,
            c2 < 512,
            c3 < 512,
            c4 < 512,
            c5 < 512,
            c6 < 512,
            c7 < 512,
            w == 0x40_0000_0000_0000 * c1 + 0x2000_0000_0000 * c2 + 0x10_0000_0000 * c3
                + 0x800_0000 * c4 + 0x4_0000 * c5 + 0x200 * c6 + c7,
    ;
}

/// There are no more ones below a bit than bits.
proof fn lemma_ones_below_bound(words: Seq<u64>, n: nat)
    ensures
        ones_below(words, n) <= n,
    decreases n,
{
    if n > 0 {
        lemma_ones_below_bound(words, (n - 1) as nat);
    }
}

/// A vector of bits with the number of ones before each.
pub struct BitVector {
    pub size: u64,
    pub num_ones: u64,
    pub words: Vec<u64>,
    pub rank_hints: Vec<u64>,
}

impl BitVector {
    /// What the vector holds.
    pub open spec fn model(self) -> BitVectorModel {
        BitVectorModel {
            size: self.size,
            num_ones: self.num_ones,
            words: self.words@,
            rank_hints: self.rank_hints@,
        }
    }

    /// Bit `i`, if it is stored.
    pub fn checked_get(&self, i: u64) -> (bit: Option<bool>)
        ensures
            bit == self.model().bit(i as int),
    {
        if i / 64 >= self.words.len() as u64 {
            return None;
        }
        let word: u64 = self.words[(i / 64) as usize];
        let k: u64 = i % 64;
        assert((word & (1u64 << k) != 0) == ((word >> k) & 1 == 1)) by (bit_vector)
            requires
                k < 64,
        ;
        Some(word & (1u64 << k) != 0)
    }

    /// Bit `i`.
    pub fn get(&self, i: u64) -> (bit: bool)
        requires
            self.model().bit(i as int) is Some,
        ensures
            self.model().bit(i as int) == Some(bit),
    {
        match self.checked_get(i) {
            Some(bit) => bit,
            None => false,
        }
    }

    /// Number of ones before bit `i`, if the stored counts give it.
    pub fn checked_rank(&self, i: u64) -> (rank: Option<u64>)
        ensures
            rank == self.model().rank(i as int),
    {
        if i == self.size {
            return Some(self.num_ones);
        }
        let wi: u64 = i / 64;
        let wj: u64 = i % 64;
        if wi / 8 * 2 + 1 >= self.rank_hints.len() as u64 {
            return None;
        }
        if wj != 0 && wi >= self.words.len() as u64 {
            return None;
        }
        let before: u64 = match self.rank_for_word(wi) {
            Some(before) => before,
            None => {
                return None;
            },
        };
        if wj == 0 {
            Some(before)
        } else {
            let word: u64 = self.words[wi as usize];
            let shift: u64 = 64 - wj;
            proof {
                lemma_ones_shifted(word, shift, 64);
            }
            before.checked_add((word << shift).count_ones() as u64)
        }
    }

    /// Number of ones before bit `i`.
    pub fn rank(&self, i: u64) -> (rank: u64)
        requires
            self.model().rank(i as int) is Some,
        ensures
            self.model().rank(i as int) == Some(rank),
    {
        match self.checked_rank(i) {
            Some(rank) => rank,
            None => 0,
        }
    }

    /// Number of ones before word `wi`, if it fits.
    fn rank_for_word(&self, wi: u64) -> (rank: Option<u64>)
        requires
            wi / 8 * 2 + 1 < self.rank_hints.len(),
        ensures
            match rank {
                Some(r) => r == self.model().word_hint(wi as int),
                None => self.model().word_hint(wi as int) > u64::MAX,
            },
    {
        let bi: usize = (wi / 8) as usize;
        let bj: usize = (wi % 8) as usize;
        self.rank_hints[bi * 2].checked_add(self.rank_in_block(bi, bj))
    }

    /// Number of ones in block `bi` before its word `bj`.
    fn rank_in_block(&self, bi: usize, bj: usize) -> (rank: u64)
        requires
            bi * 2 + 1 < self.rank_hints.len(),
            bj < 8,
        ensures
            rank == (self.rank_hints@[bi * 2 + 1] >> (((7 - bj) * 9) as u64)) & 0x1FF,
    {
        let shift: u64 = ((7 - bj) * 9) as u64;
        (self.rank_hints[bi * 2 + 1] >> shift) & 0x1FF
    }
}

/// What a [`CompactVector`] holds.
pub struct CompactVectorModel {
    pub size: u64,
    pub bits: u64,
    pub mask: u64,
    pub chunks: Seq<u64>,
}

impl CompactVectorModel {
    /// Integer `i`, where it is stored.
    pub open spec fn value(self, i: int) -> Option<u64> {
        let pos = i * self.bits;
        let quo = pos / 64;
        let rem = (pos % 64) as u64;
        if pos > u64::MAX || rem + self.bits > u64::MAX || quo >= self.chunks.len() {
            None
        } else if rem + self.bits <= 64 {
            Some((self.chunks[quo] >> rem) & self.mask)
        } else if rem == 0 || quo + 1 >= self.chunks.len() {
            None
        } else {
            Some(
                ((self.chunks[quo] >> rem) | (self.chunks[quo + 1] << ((64 - rem) as u64)))
                    & self.mask,
            )
        }
    }
}

/// Bit `k` of an integer is bit `k` of the field that is stored for it.
pub proof fn law_compact_field(v: CompactVectorModel, i: int, k: u64)
    requires
        0 <= i,
        k < v.bits <= 64,
        (v.mask >> k) & 1 == 1,
        v.value(i) is Some,
    ensures
        (v.value(i).unwrap() >> k) & 1 == 1 <==> word_bit(v.chunks, i * v.bits + k),
{
    let pos = i * v.bits;
    assert(0 <= pos) by (nonlinear_arith)
        requires
            0 <= i,
            0 <= v.bits,
            pos == i * v.bits,
    ;
    let quo = pos / 64;
    let rem = (pos % 64) as u64;
    let mask = v.mask;
    let a = v.chunks[quo];
    if rem + k < 64 {
        let d = (rem + k) as u64;
        assert((pos + k) / 64 == quo && (pos + k) % 64 == d);
        if rem + v.bits <= 64 {
            assert((((a >> rem) & mask) >> k) & 1 == (a >> d) & 1) by (bit_vector)
                requires
                    d == rem + k,
                    d < 64,
                    (mask >> k) & 1 == 1,
            ;
        } else {
            let b = v.chunks[quo + 1];
            let s = (64 - rem) as u64;
            assert(((((a >> rem) | (b << s)) & mask) >> k) & 1 == (a >> d) & 1) by (bit_vector)
                requires
                    d == rem + k,
                    d < 64,
                    s == 64 - rem,
                    0 < rem,
                    (mask >> k) & 1 == 1,
            ;
        }
    } else {
        let b = v.chunks[quo + 1];
        let s = (64 - rem) as u64;
        let d = (rem + k - 64) as u64;
        assert((pos + k) / 64 == quo + 1 && (pos + k) % 64 == d);
        assert(((((a >> rem) | (b << s)) & mask) >> k) & 1 == (b >> d) & 1) by (bit_vector)
            requires
                d == rem + k - 64,
                k < 64,
                s == 64 - rem,
                0 < rem < 64,
                rem + k >= 64,
                (mask >> k) & 1 == 1,
        ;
    }
}

/// A vector of integers that each take up the same number of bits.
pub struct CompactVector {
    pub size: u64,
    pub bits: u64,
    pub mask: u64,
    pub chunks: Vec<u64>,
}

impl CompactVector {
    /// What the vector holds.
    pub open spec fn model(self) -> CompactVectorModel {
        CompactVectorModel {
            size: self.size,
            bits: self.bits,
            mask: self.mask,
            chunks: self.chunks@,
        }
    }

    /// Integer `i`, if it is stored.
    pub fn checked_get(&self, i: u64) -> (value: Option<u64>)
        ensures
            value == self.model().value(i as int),
    {
        assert(0 <= i * self.bits) by (nonlinear_arith);
        let bit_pos: u64 = match i.checked_mul(self.bits) {
            Some(pos) => pos,
            None => {
                return None;
            },
        };
        let rem: u64 = bit_pos % 64;
        let end: u64 = match rem.checked_add(self.bits) {
            Some(end) => end,
            None => {
                return None;
            },
        };
        if bit_pos / 64 >= self.chunks.len() as u64 {
            return None;
        }
        let quo: usize = (bit_pos / 64) as usize;
        if end <= 64 {
            Some((self.chunks[quo] >> rem) & self.mask)
        } else if rem == 0 || self.chunks.len() - quo < 2 {
            None
        } else {
            Some(((self.chunks[quo] >> rem) | (self.chunks[quo + 1] << (64 - rem))) & self.mask)
        }
    }

    /// Integer `i`.
    pub fn get(&self, i: u64) -> (value: u64)
        requires
            self.model().value(i as int) is Some,
        ensures
            self.model().value(i as int) == Some(value),
    {
        match self.checked_get(i) {
            Some(value) => value,
            None => 0,
        }
    }
}

} // verus!
