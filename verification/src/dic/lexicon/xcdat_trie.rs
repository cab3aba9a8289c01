//! Reader of the compressed double-array tries that `xcdat_build -t 8` makes.
//!
//! Binary layout, little-endian:
//!
//! ```text
//! trie:                 u64 num_keys, code_table, bit_vector terms, bc_vector_8, tail_vector
//! immutable_vector<T>:  u64 size, then size elements
//! bit_vector:           u64 size, u64 num_ones, immutable_vector<u64> words,
//!                       immutable_vector<u64> rank_hints, immutable_vector<u64> select_hints
//! code_table:           u64 max_length, [u8; 512] table, immutable_vector<u8> alphabet
//! compact_vector:       u64 size, u64 bits, u64 mask, immutable_vector<u64> chunks
//! bc_vector_8:          u32 num_levels, u64 num_frees, [immutable_vector<u8>; 8] bytes,
//!                       [bit_vector; 7] nexts, compact_vector links, bit_vector leaves
//! tail_vector:          immutable_vector<u8> chars, bit_vector terms
//! ```

use vstd::prelude::*;
use vstd::slice::{slice_subrange, slice_to_vec};

use crate::bytes;
use crate::dic::lexicon::bit_vector;
use crate::dic::lexicon::bit_vector::{
    BitVector, BitVectorModel, CompactVector, CompactVectorModel,
};
use crate::error::{ReadError, SudachiError, SudachiResult};

verus! {

/// Number of byte levels of a [`BcVector8`].
pub const BYTE_LEVELS: usize = 8;

/// Number of entries of a [`CodeTable`].
pub const CODE_TABLE_SIZE: usize = 512;

/// The byte vector at `p`, and where it ends.
pub open spec fn bytes_at(d: Seq<u8>, p: int) -> Option<(Seq<u8>, int)> {
    if p + 8 > d.len() || p + 8 + bytes::u64_at(d, p) > d.len() {
        None
    } else {
        let end = p + 8 + bytes::u64_at(d, p);
        Some((d.subrange(p + 8, end), end))
    }
}

/// The vector of words at `p`, and where it ends.
pub open spec fn words_at(d: Seq<u8>, p: int) -> Option<(Seq<u64>, int)> {
    if p + 8 > d.len() || p + 8 + 8 * bytes::u64_at(d, p) > d.len() {
        None
    } else {
        let n = bytes::u64_at(d, p) as nat;
        Some((bytes::u64s_at(d, p + 8, n), p + 8 + 8 * n))
    }
}

/// The bit vector at `p`, and where it ends.
pub open spec fn bit_vector_at(d: Seq<u8>, p: int) -> Option<(BitVectorModel, int)> {
    if p + 16 > d.len() {
        None
    } else {
        match words_at(d, p + 16) {
            None => None,
            Some((words, p2)) => match words_at(d, p2) {
                None => None,
                Some((rank_hints, p3)) => match words_at(d, p3) {
                    None => None,
                    Some((_, p4)) => Some(
                        (
                            BitVectorModel {
                                size: bytes::u64_at(d, p),
                                num_ones: bytes::u64_at(d, p + 8),
                                words,
                                rank_hints,
                            },
                            p4,
                        ),
                    ),
                },
            },
        }
    }
}

/// The compact vector at `p`, and where it ends.
pub open spec fn compact_vector_at(d: Seq<u8>, p: int) -> Option<(CompactVectorModel, int)> {
    if p + 24 > d.len() {
        None
    } else {
        match words_at(d, p + 24) {
            None => None,
            Some((chunks, p2)) => Some(
                (
                    CompactVectorModel {
                        size: bytes::u64_at(d, p),
                        bits: bytes::u64_at(d, p + 8),
                        mask: bytes::u64_at(d, p + 16),
                        chunks,
                    },
                    p2,
                ),
            ),
        }
    }
}

/// The `n` byte vectors from `p` on, and where the last one ends.
pub open spec fn byte_vectors_at(d: Seq<u8>, p: int, n: nat) -> Option<(Seq<Seq<u8>>, int)>
    decreases n,
{
    if n == 0 {
        Some((Seq::empty(), p))
    } else {
        match byte_vectors_at(d, p, (n - 1) as nat) {
            None => None,
            Some((levels, p2)) => match bytes_at(d, p2) {
                None => None,
                Some((level, p3)) => Some((levels.push(level), p3)),
            },
        }
    }
}

/// The `n` bit vectors from `p` on, and where the last one ends.
pub open spec fn bit_vectors_at(d: Seq<u8>, p: int, n: nat) -> Option<(Seq<BitVectorModel>, int)>
    decreases n,
{
    if n == 0 {
        Some((Seq::empty(), p))
    } else {
        match bit_vectors_at(d, p, (n - 1) as nat) {
            None => None,
            Some((vectors, p2)) => match bit_vector_at(d, p2) {
                None => None,
                Some((vector, p3)) => Some((vectors.push(vector), p3)),
            },
        }
    }
}

/// The first ones of the byte vectors can be read where all of them can.
proof fn lemma_byte_vectors_prefix(d: Seq<u8>, p: int, m: nat, n: nat)
    requires
        m <= n,
        byte_vectors_at(d, p, n) is Some,
    ensures
        byte_vectors_at(d, p, m) is Some,
    decreases n,
{
    if m < n {
        lemma_byte_vectors_prefix(d, p, m, (n - 1) as nat);
    }
}

/// The first ones of the bit vectors can be read where all of them can.
proof fn lemma_bit_vectors_prefix(d: Seq<u8>, p: int, m: nat, n: nat)
    requires
        m <= n,
        bit_vectors_at(d, p, n) is Some,
    ensures
        bit_vectors_at(d, p, m) is Some,
    decreases n,
{
    if m < n {
        lemma_bit_vectors_prefix(d, p, m, (n - 1) as nat);
    }
}

/// What a [`BcVector8`] holds.
pub struct BcModel {
    pub num_levels: u32,
    pub bytes: Seq<Seq<u8>>,
    pub nexts: Seq<BitVectorModel>,
    pub links: CompactVectorModel,
    pub leaves: BitVectorModel,
}

impl BcModel {
    /// The integer whose lowest byte is entry `idx` of the bytes of `level`; its other bytes
    /// are found at the next level, where a bit says that there are more.
    pub open spec fn access_from(self, level: nat, idx: int) -> Option<nat>
        decreases self.bytes.len() - level,
    {
        if level >= self.bytes.len() || idx >= self.bytes[level as int].len() {
            None
        } else {
            let byte = self.bytes[level as int][idx] as nat;
            if level >= self.num_levels {
                Some(byte)
            } else if level >= self.nexts.len() {
                None
            } else {
                match self.nexts[level as int].bit(idx) {
                    None => None,
                    Some(false) => Some(byte),
                    Some(true) => match self.nexts[level as int].rank(idx) {
                        None => None,
                        Some(next) => match self.access_from(level + 1, next as int) {
                            None => None,
                            Some(high) => Some(byte + 0x100 * high),
                        },
                    },
                }
            }
        }
    }

    /// Integer `i`.
    pub open spec fn access(self, i: int) -> Option<u64> {
        match self.access_from(0, i) {
            Some(value) => if i <= u64::MAX {
                Some(value as u64)
            } else {
                None
            },
            None => None,
        }
    }

    /// The base of node `i`.
    pub open spec fn base_of(self, i: u64) -> Option<u64> {
        match self.access(i * 2) {
            Some(value) => Some(value ^ i),
            None => None,
        }
    }

    /// The parent that node `i` names.
    pub open spec fn check_of(self, i: u64) -> Option<u64> {
        match self.access(i * 2 + 1) {
            Some(value) => Some(value ^ i),
            None => None,
        }
    }

    /// Whether node `i` is a leaf.
    pub open spec fn leaf(self, i: u64) -> Option<bool> {
        self.leaves.bit(i as int)
    }

    /// Where the tail of the leaf `i` begins.
    pub open spec fn link_of(self, i: u64) -> Option<u64> {
        if 2 * i >= self.bytes[0].len() {
            None
        } else {
            match self.leaves.rank(i as int) {
                None => None,
                Some(rank) => match self.links.value(rank as int) {
                    None => None,
                    Some(high) => Some(self.bytes[0][2 * i] as u64 | (high << 8)),
                },
            }
        }
    }
}

/// The base and check values of a double array and the links of its leaves.
pub struct BcVector8 {
    num_levels: u32,
    bytes: Vec<Vec<u8>>,
    nexts: Vec<BitVector>,
    links: CompactVector,
    leaves: BitVector,
}

/// An integer of `8 - level` bytes is below `0x100` to that power.
proof fn lemma_access_bound(bc: BcModel, level: nat, idx: int)
    requires
        bc.bytes.len() == BYTE_LEVELS,
        level <= BYTE_LEVELS,
    ensures
        bc.access_from(level, idx) matches Some(value) ==> value < vstd::arithmetic::power::pow(
            0x100,
            (BYTE_LEVELS - level) as nat,
        ),
    decreases BYTE_LEVELS - level,
{
    reveal_with_fuel(vstd::arithmetic::power::pow, 9);
    if level < BYTE_LEVELS {
        if bc.access_from(level, idx) is Some {
            if level < bc.num_levels && level < bc.nexts.len() && bc.nexts[level as int].bit(idx)
                == Some(true) {
                let next = bc.nexts[level as int].rank(idx).unwrap();
                lemma_access_bound(bc, level + 1, next as int);
            }
        }
    }
}

/// The view of byte vectors.
pub open spec fn views(levels: Seq<Vec<u8>>) -> Seq<Seq<u8>> {
    levels.map_values(|level: Vec<u8>| level@)
}

/// What bit vectors hold.
pub open spec fn models(vectors: Seq<BitVector>) -> Seq<BitVectorModel> {
    vectors.map_values(|vector: BitVector| vector.model())
}

impl BcVector8 {
    /// What the vector holds.
    pub closed spec fn model(self) -> BcModel {
        BcModel {
            num_levels: self.num_levels,
            bytes: views(self.bytes@),
            nexts: models(self.nexts@),
            links: self.links.model(),
            leaves: self.leaves.model(),
        }
    }

    /// Integer `i`, if it is stored.
    fn checked_access(&self, i: u64) -> (value: Option<u64>)
        requires
            self.model().bytes.len() == BYTE_LEVELS,
        ensures
            value == self.model().access(i as int),
    {
        let ghost bc = self.model();
        let ghost total = bc.access_from(0, i as int);
        assert(forall|k: int| 0 <= k < bc.bytes.len() ==> #[trigger] bc.bytes[k] == self.bytes@[k]@);
        proof {
            lemma_access_bound(bc, 0, i as int);
            reveal_with_fuel(vstd::arithmetic::power::pow, 9);
            assert(bc.bytes[0] == self.bytes@[0]@);
        }
        if i >= self.bytes[0].len() as u64 {
            return None;
        }
        let mut j: usize = 0;
        let mut idx: u64 = i;
        let mut x: u64 = self.bytes[0][idx as usize] as u64;
        let mut scale: u64 = 1;
        while j < self.num_levels as usize
            invariant
                bc == self.model(),
                bc.bytes.len() == BYTE_LEVELS,
                total == bc.access_from(0, i as int),
                total matches Some(v) ==> v <= u64::MAX,
                forall|k: int|
                    0 <= k < bc.bytes.len() ==> #[trigger] bc.bytes[k] == self.bytes@[k]@,
                j < BYTE_LEVELS,
                scale == vstd::arithmetic::power::pow(0x100, j as nat),
                scale <= 0x100_0000_0000_0000,
                idx < self.bytes@[j as int]@.len(),
                total == (match bc.access_from(j as nat, idx as int) {
                    Some(high) => Some(
                        (x - scale * self.bytes@[j as int]@[idx as int] + scale * high) as nat,
                    ),
                    None => None,
                }),
                scale * self.bytes@[j as int]@[idx as int] <= x < scale * 0x100,
            decreases BYTE_LEVELS - j,
        {
            let ghost byte = self.bytes@[j as int]@[idx as int];
            proof {
                assert(bc.bytes[j as int] == self.bytes@[j as int]@);
                assert(bc.nexts.len() == self.nexts@.len());
                assert(forall|k: int|
                    0 <= k < bc.nexts.len() ==> #[trigger] bc.nexts[k] == self.nexts@[k].model());
            }
            if j >= self.nexts.len() {
                return None;
            }
            match self.nexts[j].checked_get(idx) {
                None => {
                    return None;
                },
                Some(false) => {
                    return Some(x);
                },
                Some(true) => {},
            }
            let next: u64 = match self.nexts[j].checked_rank(idx) {
                Some(next) => next,
                None => {
                    return None;
                },
            };
            if j + 1 >= BYTE_LEVELS {
                return None;
            }
            assert(bc.bytes[j + 1] == self.bytes@[j + 1]@);
            if next >= self.bytes[j + 1].len() as u64 {
                return None;
            }
            let next_byte: u8 = self.bytes[j + 1][next as usize];
            proof {
                if let Some(high2) = bc.access_from((j + 1) as nat, next as int) {
                    assert(scale * (byte + 0x100 * high2) == scale * byte + (scale * 0x100) * high2)
                        by (nonlinear_arith);
                    assert(0 <= scale * 0x100 * high2) by (nonlinear_arith)
                        requires
                            0 <= scale,
                            0 <= high2,
                    ;
                }
                reveal_with_fuel(vstd::arithmetic::power::pow, 9);
            }
            scale = scale * 0x100;
            assert(0 <= scale * next_byte <= scale * 0xff) by (nonlinear_arith)
                requires
                    0 <= next_byte <= 0xff,
                    0 <= scale,
            ;
            assert(next_byte * scale == scale * next_byte) by (nonlinear_arith);
            x = x + next_byte as u64 * scale;
            idx = next;
            j = j + 1;
        }
        assert(bc.bytes[j as int] == self.bytes@[j as int]@);
        Some(x)
    }

    /// The base of node `i`, if it is stored.
    fn checked_base(&self, i: u64) -> (base: Option<u64>)
        requires
            self.model().bytes.len() == BYTE_LEVELS,
        ensures
            base == self.model().base_of(i),
    {
        if i > u64::MAX / 2 {
            return None;
        }
        match self.checked_access(i * 2) {
            Some(value) => Some(value ^ i),
            None => None,
        }
    }

    /// The base of node `i`.
    pub fn base(&self, i: u64) -> (base: u64)
        requires
            self.model().bytes.len() == BYTE_LEVELS,
            self.model().base_of(i) is Some,
        ensures
            self.model().base_of(i) == Some(base),
    {
        match self.checked_base(i) {
            Some(base) => base,
            None => 0,
        }
    }

    /// The parent that node `i` names, if one is stored.
    fn checked_check(&self, i: u64) -> (check: Option<u64>)
        requires
            self.model().bytes.len() == BYTE_LEVELS,
        ensures
            check == self.model().check_of(i),
    {
        if i > u64::MAX / 2 {
            return None;
        }
        match self.checked_access(i * 2 + 1) {
            Some(value) => Some(value ^ i),
            None => None,
        }
    }

    /// The parent that node `i` names.
    pub fn check(&self, i: u64) -> (check: u64)
        requires
            self.model().bytes.len() == BYTE_LEVELS,
            self.model().check_of(i) is Some,
        ensures
            self.model().check_of(i) == Some(check),
    {
        match self.checked_check(i) {
            Some(check) => check,
            None => 0,
        }
    }

    /// Whether node `i` is a leaf.
    pub fn is_leaf(&self, i: u64) -> (leaf: bool)
        requires
            self.model().leaf(i) is Some,
        ensures
            self.model().leaf(i) == Some(leaf),
    {
        self.leaves.get(i)
    }

    /// Where the tail of the leaf `i` begins, if it is stored.
    fn checked_link(&self, i: u64) -> (link: Option<u64>)
        requires
            self.model().bytes.len() == BYTE_LEVELS,
        ensures
            link == self.model().link_of(i),
    {
        assert(self.model().bytes[0] == self.bytes@[0]@);
        assert(self.bytes@[0].len() == self.bytes@[0]@.len());
        if i > u64::MAX / 2 || 2 * i >= self.bytes[0].len() as u64 {
            return None;
        }
        match self.leaves.checked_rank(i) {
            None => None,
            Some(rank) => match self.links.checked_get(rank) {
                None => None,
                Some(high) => Some(self.bytes[0][(i * 2) as usize] as u64 | (high << 8)),
            },
        }
    }

    /// Where the tail of the leaf `i` begins.
    pub fn link(&self, i: u64) -> (link: u64)
        requires
            self.model().bytes.len() == BYTE_LEVELS,
            self.model().link_of(i) is Some,
        ensures
            self.model().link_of(i) == Some(link),
    {
        match self.checked_link(i) {
            Some(link) => link,
            None => 0,
        }
    }
}

/// The bytes of `input` from `pos` on; none where `input` ends before.
pub open spec fn rest_of(input: Seq<u8>, pos: nat) -> Seq<u8> {
    if pos <= input.len() {
        input.skip(pos as int)
    } else {
        Seq::empty()
    }
}

/// A match that is one byte longer.
pub open spec fn one_more(matched: Option<Option<nat>>) -> Option<Option<nat>> {
    match matched {
        Some(Some(n)) => Some(Some(n + 1)),
        Some(None) => Some(None),
        None => None,
    }
}

/// What a [`TailVector`] holds.
pub struct TailModel {
    pub chars: Seq<u8>,
    pub terms: BitVectorModel,
}

impl TailModel {
    /// Whether bits mark the ends of tails; otherwise zero bytes follow them.
    pub open spec fn bin(self) -> bool {
        self.terms.size != 0
    }

    /// The length of the tail at `ti` where it is a prefix of `key`.
    pub open spec fn matched(self, key: Seq<u8>, ti: nat) -> Option<Option<nat>>
        decreases key.len(),
    {
        if self.bin() {
            if key.len() == 0 {
                Some(None)
            } else if ti >= self.chars.len() {
                None
            } else if key[0] != self.chars[ti as int] {
                Some(None)
            } else {
                match self.terms.bit(ti as int) {
                    None => None,
                    Some(true) => Some(Some(1)),
                    Some(false) => one_more(self.matched(key.drop_first(), ti + 1)),
                }
            }
        } else {
            if ti >= self.chars.len() {
                if key.len() == 0 {
                    Some(None)
                } else {
                    None
                }
            } else if self.chars[ti as int] == 0 {
                Some(Some(0))
            } else if key.len() == 0 || key[0] != self.chars[ti as int] {
                Some(None)
            } else {
                one_more(self.matched(key.drop_first(), ti + 1))
            }
        }
    }

    /// The length of the tail at `tpos` where it is a prefix of `key`; the tail at 0 is empty.
    pub open spec fn matched_link(self, key: Seq<u8>, tpos: u64) -> Option<Option<nat>> {
        if tpos == 0 {
            Some(Some(0))
        } else {
            self.matched(key, tpos as nat)
        }
    }

    /// The tail at `ti` is `tail`.
    pub open spec fn is_tail(self, ti: nat, tail: Seq<u8>) -> bool {
        if self.bin() {
            &&& tail.len() > 0
            &&& ti + tail.len() <= self.chars.len()
            &&& self.chars.subrange(ti as int, (ti + tail.len()) as int) == tail
            &&& forall|k: int|
                0 <= k < tail.len() ==> #[trigger] self.terms.bit(ti + k) == Some(
                    k == tail.len() - 1,
                )
        } else {
            &&& ti + tail.len() < self.chars.len()
            &&& self.chars.subrange(ti as int, (ti + tail.len()) as int) == tail
            &&& forall|k: int| 0 <= k < tail.len() ==> #[trigger] tail[k] != 0
            &&& self.chars[(ti + tail.len()) as int] == 0
        }
    }
}

/// A tail matches exactly the keys that begin with it, by its own length.
pub proof fn law_tail_is_prefix(tails: TailModel, key: Seq<u8>, ti: nat, tail: Seq<u8>)
    requires
        tails.is_tail(ti, tail),
    ensures
        tails.matched(key, ti) == Some(
            if tail.is_prefix_of(key) {
                Some(tail.len())
            } else {
                None
            },
        ),
    decreases tail.len(),
{
    let n = tail.len();
    if n > 0 {
        assert(tails.chars.subrange(ti as int, (ti + n) as int)[0] == tails.chars[ti as int]);
    }
    if n == 0 {
    } else if key.len() == 0 {
    } else if key[0] != tail[0] {
        assert(!tail.is_prefix_of(key)) by {
            if tail.is_prefix_of(key) {
                assert(key.subrange(0, n as int)[0] == tail[0]);
            }
        }
    } else if tails.bin() && n == 1 {
        assert(tails.terms.bit(ti as int + 0) == Some(true));
        assert(key.subrange(0, 1) =~= tail);
    } else {
        let rest = tail.drop_first();
        if tails.bin() {
            assert(tails.terms.bit(ti as int + 0) == Some(false));
            assert forall|k: int| 0 <= k < rest.len() implies #[trigger] tails.terms.bit(
                (ti + 1) + k,
            ) == Some(k == rest.len() - 1) by {
                assert(tails.terms.bit(ti + (k + 1)) == Some(k + 1 == n - 1));
            }
        }
        assert(tails.chars.subrange(ti as int + 1, ti as int + 1 + rest.len()) =~= rest) by {
            assert forall|k: int| 0 <= k < rest.len() implies tails.chars[ti + 1 + k]
                == rest[k] by {
                assert(tails.chars.subrange(ti as int, (ti + n) as int)[k + 1] == tail[k + 1]);
            }
        }
        if !tails.bin() {
            assert forall|k: int| 0 <= k < rest.len() implies #[trigger] rest[k] != 0 by {
                assert(tail[k + 1] != 0);
            }
            assert(tail[0] != 0);
        }
        law_tail_is_prefix(tails, key.drop_first(), ti + 1, rest);
        if rest.is_prefix_of(key.drop_first()) {
            assert(tail =~= key.subrange(0, n as int)) by {
                assert forall|k: int| 0 <= k < n implies tail[k] == key[k] by {
                    if k > 0 {
                        assert(rest[k - 1] == key.drop_first().subrange(0, rest.len() as int)[k
                            - 1]);
                    }
                }
            }
        } else if tail.is_prefix_of(key) {
            assert(rest =~= key.drop_first().subrange(0, rest.len() as int)) by {
                assert forall|k: int| 0 <= k < rest.len() implies rest[k] == key.drop_first()[k] by {
                    assert(tail[k + 1] == key.subrange(0, n as int)[k + 1]);
                }
            }
        }
    }
}

/// What is matched of a key is matched of each part of it that is long enough, and of none that
/// is too short.
proof fn lemma_matched_prefix(tails: TailModel, key: Seq<u8>, ti: nat, m: nat)
    requires
        m <= key.len(),
        tails.matched(key, ti) is Some,
    ensures
        match tails.matched(key, ti).unwrap() {
            Some(n) => n <= key.len() && (tails.matched(key.take(m as int), ti) == Some(Some(m))
                <==> m == n),
            None => tails.matched(key.take(m as int), ti) != Some(Some(m)),
        },
    decreases key.len(),
{
    let part = key.take(m as int);
    if key.len() > 0 && ti < tails.chars.len() {
        if m > 0 {
            assert(part[0] == key[0]);
            assert(part.drop_first() =~= key.drop_first().take(m - 1));
        }
        if key[0] == tails.chars[ti as int] {
            let goes_on = if tails.bin() {
                tails.terms.bit(ti as int) == Some(false)
            } else {
                tails.chars[ti as int] != 0
            };
            if goes_on {
                if m > 0 {
                    lemma_matched_prefix(tails, key.drop_first(), ti + 1, (m - 1) as nat);
                } else {
                    lemma_matched_prefix(tails, key.drop_first(), ti + 1, 0);
                }
            }
        }
    }
}

/// The ends of the keys that the double array does not spell out.
pub struct TailVector {
    chars: Vec<u8>,
    terms: BitVector,
}

impl TailVector {
    /// What the vector holds.
    pub closed spec fn model(self) -> TailModel {
        TailModel { chars: self.chars@, terms: self.terms.model() }
    }

    fn bin_mode(&self) -> (bin: bool)
        ensures
            bin == self.model().bin(),
    {
        self.terms.size != 0
    }

    /// The length of the tail at `tpos` where it is a prefix of `key[kpos..]`. Returns nothing
    /// where the tail leads out of what is stored.
    fn checked_prefix_match(&self, key: &[u8], kpos: usize, tpos: u64) -> (matched: Option<
        Option<usize>,
    >)
        ensures
            match self.model().matched_link(rest_of(key@, kpos as nat), tpos) {
                Some(Some(n)) => matched == Some(Some(n as usize)) && (n == 0 || kpos + n
                    <= key.len()),
                Some(None) => matched == Some(None::<usize>),
                None => matched is None,
            },
    {
        if tpos == 0 {
            return Some(Some(0));
        }
        let ghost tails = self.model();
        let ghost total = tails.matched(rest_of(key@, kpos as nat), tpos as nat);
        let bin: bool = self.bin_mode();
        let count: u64 = self.chars.len() as u64;
        let mut ki: usize = kpos;
        let mut ti: u64 = tpos;
        loop
            invariant
                tails == self.model(),
                bin == tails.bin(),
                count == self.chars.len(),
                count == self.chars@.len(),
                kpos <= ki,
                ki <= key.len() || ki == kpos,
                ti <= count || ki == kpos,
                total == (match tails.matched(rest_of(key@, ki as nat), ti as nat) {
                    Some(Some(n)) => Some(Some((n + (ki - kpos)) as nat)),
                    Some(None) => Some(None),
                    None => None,
                }),
                tails.matched_link(rest_of(key@, kpos as nat), tpos) == total,
            decreases key.len() - ki,
        {
            let ghost rest = rest_of(key@, ki as nat);
            if ki >= key.len() {
                if !bin && ti < count && self.chars[ti as usize] == 0 {
                    return Some(Some(ki - kpos));
                }
                return Some(None);
            }
            assert(rest[0] == key@[ki as int]);
            assert(rest.drop_first() =~= key@.skip(ki + 1));
            if ti >= count {
                return None;
            }
            let c: u8 = self.chars[ti as usize];
            if !bin && c == 0 {
                return Some(Some(ki - kpos));
            }
            if key[ki] != c {
                return Some(None);
            }
            ki = ki + 1;
            if bin {
                match self.terms.checked_get(ti) {
                    None => {
                        return None;
                    },
                    Some(true) => {
                        return Some(Some(ki - kpos));
                    },
                    Some(false) => {},
                }
            }
            ti = ti + 1;
        }
    }

    /// The length of the tail at `tpos` where it is a prefix of `key[kpos..]`.
    pub fn prefix_match(&self, key: &[u8], kpos: usize, tpos: u64) -> (matched: Option<usize>)
        requires
            self.model().matched_link(rest_of(key@, kpos as nat), tpos) is Some,
        ensures
            match self.model().matched_link(rest_of(key@, kpos as nat), tpos).unwrap() {
                Some(n) => matched == Some(n as usize) && (n == 0 || kpos + n <= key.len()),
                None => matched is None,
            },
    {
        match self.checked_prefix_match(key, kpos, tpos) {
            Some(matched) => matched,
            None => None,
        }
    }
}

/// The codes that stand for key bytes in the double array.
pub struct CodeTable {
    table: Vec<u8>,
}

impl CodeTable {
    /// The codes, one after another.
    pub closed spec fn codes(self) -> Seq<u8> {
        self.table@
    }

    /// The code of `ch`.
    pub fn get_code(&self, ch: u8) -> (code: u64)
        requires
            self.codes().len() == CODE_TABLE_SIZE,
        ensures
            code == self.codes()[ch as int],
    {
        self.table[ch as usize] as u64
    }
}

/// The base and check values at `p`, and where they end.
pub open spec fn bc_at(d: Seq<u8>, p: int) -> Option<(BcModel, int)> {
    if p + 12 > d.len() {
        None
    } else {
        match byte_vectors_at(d, p + 12, BYTE_LEVELS as nat) {
            None => None,
            Some((levels, p2)) => match bit_vectors_at(d, p2, (BYTE_LEVELS - 1) as nat) {
                None => None,
                Some((nexts, p3)) => match compact_vector_at(d, p3) {
                    None => None,
                    Some((links, p4)) => match bit_vector_at(d, p4) {
                        None => None,
                        Some((leaves, p5)) => Some(
                            (
                                BcModel {
                                    num_levels: bytes::u32_at(d, p),
                                    bytes: levels,
                                    nexts,
                                    links,
                                    leaves,
                                },
                                p5,
                            ),
                        ),
                    },
                },
            },
        }
    }
}

/// The tails at `p`, and where they end.
pub open spec fn tails_at(d: Seq<u8>, p: int) -> Option<(TailModel, int)> {
    match bytes_at(d, p) {
        None => None,
        Some((chars, p2)) => match bit_vector_at(d, p2) {
            None => None,
            Some((terms, p3)) => Some((TailModel { chars, terms }, p3)),
        },
    }
}

/// The code table at `p`, and where it ends.
pub open spec fn code_table_at(d: Seq<u8>, p: int) -> Option<(Seq<u8>, int)> {
    if p + 8 + CODE_TABLE_SIZE > d.len() {
        None
    } else {
        match bytes_at(d, p + 8 + CODE_TABLE_SIZE) {
            None => None,
            Some((_, p2)) => Some((d.subrange(p + 8, p + 8 + CODE_TABLE_SIZE), p2)),
        }
    }
}

/// The trie that `d` begins with: its type, the number of its keys and its parts.
pub open spec fn trie_in(d: Seq<u8>, rank_to_offset: Seq<u32>) -> Option<TrieModel> {
    if d.len() < 12 {
        None
    } else {
        match code_table_at(d, 12) {
            None => None,
            Some((table, p2)) => match bit_vector_at(d, p2) {
                None => None,
                Some((terms, p3)) => match bc_at(d, p3) {
                    None => None,
                    Some((bc, p4)) => match tails_at(d, p4) {
                        None => None,
                        Some((tails, _)) => Some(
                            TrieModel { table, terms, bc, tails, rank_to_offset },
                        ),
                    },
                },
            },
        }
    }
}

/// What a [`XcdatTrie`] holds.
pub struct TrieModel {
    pub table: Seq<u8>,
    pub terms: BitVectorModel,
    pub bc: BcModel,
    pub tails: TailModel,
    /// The value of each key, by the rank of its node among the nodes at which keys end.
    pub rank_to_offset: Seq<u32>,
}

impl TrieModel {
    /// The value of the key that ends at a node.
    pub open spec fn value(self, npos: u64) -> Option<u64> {
        match self.terms.rank(npos as int) {
            Some(rank) => if rank < self.rank_to_offset.len() {
                Some(self.rank_to_offset[rank as int] as u64)
            } else {
                None
            },
            None => None,
        }
    }

    /// The child of an inner node along a key byte, if there is one.
    pub open spec fn child(self, npos: u64, ch: u8) -> Option<Option<u64>> {
        match self.bc.base_of(npos) {
            None => None,
            Some(base) => {
                let cpos = base ^ (self.table[ch as int] as u64);
                match self.bc.check_of(cpos) {
                    None => None,
                    Some(parent) => if parent == npos {
                        Some(Some(cpos))
                    } else {
                        Some(None)
                    },
                }
            },
        }
    }

    /// The key that ends at an inner node, as a value and the place where the key ends.
    pub open spec fn own_hit(self, npos: u64, end: nat) -> Option<Seq<(u64, nat)>> {
        match self.bc.leaf(npos) {
            None => None,
            Some(true) => Some(Seq::empty()),
            Some(false) => match self.terms.bit(npos as int) {
                None => None,
                Some(false) => Some(Seq::empty()),
                Some(true) => match self.value(npos) {
                    None => None,
                    Some(value) => Some(seq![(value, end)]),
                },
            },
        }
    }

    /// The key that ends with the tail of a leaf, as a value and the place where the key ends.
    pub open spec fn leaf_hit(self, input: Seq<u8>, kpos: nat, npos: u64) -> Option<
        Seq<(u64, nat)>,
    > {
        match self.bc.link_of(npos) {
            None => None,
            Some(tpos) => match self.tails.matched_link(rest_of(input, kpos), tpos) {
                None => None,
                Some(None) => Some(Seq::empty()),
                Some(Some(n)) => match self.value(npos) {
                    None => None,
                    Some(value) => Some(seq![(value, kpos + n)]),
                },
            },
        }
    }

    /// The keys that end below a node on the way along `input` from `kpos` on.
    pub open spec fn hits_below(self, input: Seq<u8>, kpos: nat, npos: u64) -> Option<
        Seq<(u64, nat)>,
    >
        decreases input.len() - kpos,
    {
        match self.bc.leaf(npos) {
            None => None,
            Some(true) => self.leaf_hit(input, kpos, npos),
            Some(false) => if kpos >= input.len() {
                Some(Seq::empty())
            } else {
                match self.child(npos, input[kpos as int]) {
                    None => None,
                    Some(None) => Some(Seq::empty()),
                    Some(Some(cpos)) => match self.own_hit(cpos, kpos + 1) {
                        None => None,
                        Some(own) => match self.hits_below(input, kpos + 1, cpos) {
                            None => None,
                            Some(below) => Some(own + below),
                        },
                    },
                }
            },
        }
    }

    /// The keys that end at a node or below it on the way along `input` from `kpos` on.
    pub open spec fn hits_from(self, input: Seq<u8>, kpos: nat, npos: u64) -> Option<
        Seq<(u64, nat)>,
    > {
        match self.own_hit(npos, kpos) {
            None => None,
            Some(own) => match self.hits_below(input, kpos, npos) {
                None => None,
                Some(below) => Some(own + below),
            },
        }
    }

    /// The value of `key` below a node, if the trie holds it there.
    pub open spec fn stored_from(self, npos: u64, key: Seq<u8>) -> Option<u64>
        decreases key.len(),
    {
        match self.bc.leaf(npos) {
            None => None,
            Some(true) => match self.bc.link_of(npos) {
                None => None,
                Some(tpos) => if self.tails.matched_link(key, tpos) == Some(Some(key.len())) {
                    self.value(npos)
                } else {
                    None
                },
            },
            Some(false) => if key.len() == 0 {
                if self.terms.bit(npos as int) == Some(true) {
                    self.value(npos)
                } else {
                    None
                }
            } else {
                match self.child(npos, key[0]) {
                    Some(Some(cpos)) => self.stored_from(cpos, key.drop_first()),
                    _ => None,
                }
            },
        }
    }

    /// The value that the trie holds for `key`, if it holds the key.
    pub open spec fn stored(self, key: Seq<u8>) -> Option<u64> {
        self.stored_from(0, key)
    }

    /// The sizes that every trie has.
    pub open spec fn wf(self) -> bool {
        &&& self.table.len() == CODE_TABLE_SIZE
        &&& self.bc.bytes.len() == BYTE_LEVELS
    }
}

/// Hits are ordered by their ends, and lie between `kpos` and the end of the input.
pub open spec fn ordered_hits(hits: Seq<(u64, nat)>, kpos: nat, len: nat) -> bool {
    &&& forall|i: int| 0 <= i < hits.len() ==> kpos <= (#[trigger] hits[i]).1 <= len
    &&& forall|i: int, j: int|
        0 <= i < j < hits.len() ==> (#[trigger] hits[i]).1 < (#[trigger] hits[j]).1
}

/// The hits from a node on are the prefixes that the trie holds below it.
proof fn lemma_hits_are_stored(t: TrieModel, input: Seq<u8>, kpos: nat, npos: u64)
    requires
        kpos <= input.len(),
        t.hits_from(input, kpos, npos) is Some,
    ensures
        ordered_hits(t.hits_from(input, kpos, npos).unwrap(), kpos, input.len()),
        forall|value: u64, end: nat|
            kpos <= end <= input.len() ==> (#[trigger] t.hits_from(input, kpos, npos).unwrap().contains(
                (value, end),
            ) <==> t.stored_from(npos, input.subrange(kpos as int, end as int)) == Some(
                value,
            )),
    decreases input.len() - kpos,
{
    let own = t.own_hit(npos, kpos).unwrap();
    let below = t.hits_below(input, kpos, npos).unwrap();
    let hits = own + below;
    assert(t.hits_from(input, kpos, npos) == Some(hits));
    if t.bc.leaf(npos) == Some(true) {
        let tpos = t.bc.link_of(npos).unwrap();
        let rest = rest_of(input, kpos);
        let matched = t.tails.matched_link(rest, tpos).unwrap();
        assert(own + below =~= below);
        assert forall|value: u64, end: nat| kpos <= end <= input.len() implies (#[trigger] hits.contains(
            (value, end),
        ) <==> t.stored_from(npos, input.subrange(kpos as int, end as int)) == Some(
            value,
        )) by {
            let m = (end - kpos) as nat;
            let key = input.subrange(kpos as int, end as int);
            assert(key =~= rest.take(m as int));
            if tpos != 0 {
                lemma_matched_prefix(t.tails, rest, tpos as nat, m);
            }
            if matched == Some(m) {
                assert(hits[0] == (t.value(npos).unwrap(), end));
            }
        }
        if tpos != 0 {
            lemma_matched_prefix(t.tails, rest, tpos as nat, 0);
        }
    } else {
        let has_child = kpos < input.len() && t.child(npos, input[kpos as int]) matches Some(
            Some(c),
        );
        if has_child {
            let cpos = t.child(npos, input[kpos as int]).unwrap().unwrap();
            assert(t.hits_from(input, kpos + 1, cpos) == Some(below));
            lemma_hits_are_stored(t, input, kpos + 1, cpos);
        }
        assert forall|value: u64, end: nat| kpos <= end <= input.len() implies (#[trigger] hits.contains(
            (value, end),
        ) <==> t.stored_from(npos, input.subrange(kpos as int, end as int)) == Some(
            value,
        )) by {
            let key = input.subrange(kpos as int, end as int);
            if end == kpos {
                assert(key.len() == 0);
                if t.terms.bit(npos as int) == Some(true) {
                    assert(hits[0] == (t.value(npos).unwrap(), end));
                }
                if hits.contains((value, end)) {
                    let i = choose|i: int| 0 <= i < hits.len() && hits[i] == (value, end);
                    if i >= own.len() {
                        assert(hits[i] == below[i - own.len()]);
                    } else {
                        assert(hits[i] == own[i]);
                    }
                }
            } else {
                assert(key[0] == input[kpos as int]);
                assert(key.drop_first() =~= input.subrange((kpos + 1) as int, end as int));
                if hits.contains((value, end)) {
                    let i = choose|i: int| 0 <= i < hits.len() && hits[i] == (value, end);
                    if i < own.len() {
                        assert(own[i].1 == kpos);
                    }
                    assert(hits[i] == below[i - own.len()]);
                    assert(below.contains((value, end)));
                }
                if has_child {
                    let cpos = t.child(npos, input[kpos as int]).unwrap().unwrap();
                    if t.stored_from(npos, key) == Some(value) {
                        assert(t.stored_from(cpos, input.subrange((kpos + 1) as int, end as int))
                            == Some(value));
                        assert(below.contains((value, end)));
                        let i = choose|i: int| 0 <= i < below.len() && below[i] == (value, end);
                        assert(hits[i + own.len()] == (value, end));
                    }
                }
            }
        }
    }
}

/// The prefix search finds every prefix of `input[offset..]` that the trie holds, each once and
/// in the order of their ends, and nothing else.
pub proof fn law_search_finds_stored_prefixes(t: TrieModel, input: Seq<u8>, offset: nat)
    requires
        offset <= input.len(),
        t.hits_from(input, offset, 0) is Some,
    ensures
        ordered_hits(t.hits_from(input, offset, 0).unwrap(), offset, input.len()),
        forall|value: u64, end: nat|
            offset <= end <= input.len() ==> (#[trigger] t.hits_from(input, offset, 0).unwrap().contains(
                (value, end),
            ) <==> t.stored(input.subrange(offset as int, end as int)) == Some(value)),
{
    lemma_hits_are_stored(t, input, offset, 0);
    assert forall|value: u64, end: nat| offset <= end <= input.len() implies (#[trigger] t.hits_from(
        input,
        offset,
        0,
    ).unwrap().contains((value, end)) <==> t.stored(
        input.subrange(offset as int, end as int),
    ) == Some(value)) by {
        assert(t.stored(input.subrange(offset as int, end as int)) == t.stored_from(
            0,
            input.subrange(offset as int, end as int),
        ));
    }
}

/// `idxs` are the places of the bytes of integer `i`, level by level: the next byte is found where
/// a bit says that there is one, at as many places behind the first as bits before say so.
pub open spec fn are_places(bc: BcModel, i: int, idxs: Seq<int>) -> bool {
    &&& 0 < idxs.len() <= bc.bytes.len()
    &&& idxs[0] == i
    &&& forall|l: int|
        0 <= l < idxs.len() ==> 0 <= #[trigger] idxs[l] < bc.bytes[l].len()
    &&& idxs.len() - 1 <= bc.num_levels
    &&& forall|l: int|
        0 <= l < idxs.len() - 1 ==> #[trigger] has_more(bc, l, idxs[l]) && idxs[l + 1]
            == bit_vector::ones_below(bc.nexts[l].words, idxs[l] as nat)
    &&& idxs.len() - 1 < bc.num_levels ==> ends_at(bc, idxs.len() - 1, idxs.last())
}

/// A bit says that the integer with a byte at a place goes on at the next level.
pub open spec fn has_more(bc: BcModel, level: int, idx: int) -> bool {
    &&& level < bc.nexts.len()
    &&& bc.nexts[level].counts_ones()
    &&& idx <= bc.nexts[level].size
    &&& idx / 64 < bc.nexts[level].words.len()
    &&& bit_vector::word_bit(bc.nexts[level].words, idx)
}

/// A bit says that the integer with a byte at a place ends there.
pub open spec fn ends_at(bc: BcModel, level: int, idx: int) -> bool {
    &&& level < bc.nexts.len()
    &&& idx / 64 < bc.nexts[level].words.len()
    &&& !bit_vector::word_bit(bc.nexts[level].words, idx)
}

/// The number with the bytes at the places from `level` on, the lowest byte first.
pub open spec fn number_at(bc: BcModel, idxs: Seq<int>, level: int) -> nat
    decreases idxs.len() - level,
{
    if level >= idxs.len() {
        0
    } else {
        bc.bytes[level][idxs[level]] as nat + 0x100 * number_at(bc, idxs, level + 1)
    }
}

/// The bytes from a level on make up the number there.
proof fn lemma_number_at(bc: BcModel, i: int, idxs: Seq<int>, level: nat)
    requires
        are_places(bc, i, idxs),
        level < idxs.len(),
    ensures
        bc.access_from(level, idxs[level as int]) == Some(number_at(bc, idxs, level as int)),
    decreases idxs.len() - level,
{
    let idx = idxs[level as int];
    if level + 1 < idxs.len() {
        assert(has_more(bc, level as int, idx));
        bit_vector::law_rank_counts_ones(bc.nexts[level as int], idx as nat);
        lemma_number_at(bc, i, idxs, level + 1);
    } else {
        assert(number_at(bc, idxs, level as int + 1) == 0);
        assert(idx == idxs.last());
    }
}

/// An integer is made up of the bytes at its places, the lowest byte first, on however many
/// levels these are.
pub proof fn law_integer_is_made_up_of_its_bytes(bc: BcModel, i: u64, idxs: Seq<int>)
    requires
        are_places(bc, i as int, idxs),
    ensures
        bc.access(i as int) == Some(number_at(bc, idxs, 0) as u64),
{
    lemma_number_at(bc, i as int, idxs, 0);
}

/// The tail of a leaf begins at the number whose lowest byte is that of the leaf, and whose other
/// bits are the link of the leaf: the one with the number of leaves before.
pub proof fn law_tail_of_a_leaf(bc: BcModel, i: u64, link: u64)
    requires
        2 * i < bc.bytes[0].len(),
        bc.leaves.counts_ones(),
        i <= bc.leaves.size,
        bc.links.value(bit_vector::ones_below(bc.leaves.words, i as nat) as int) == Some(link),
        link < 0x100_0000_0000_0000,
    ensures
        bc.link_of(i) == Some((bc.bytes[0][2 * i] + 0x100 * link) as u64),
{
    bit_vector::law_rank_counts_ones(bc.leaves, i as nat);
    let low = bc.bytes[0][2 * i];
    assert((low as u64 | (link << 8)) == (low + 0x100 * link) as u64) by (bit_vector)
        requires
            link < 0x100_0000_0000_0000u64,
    ;
}

/// `nodes` are the inner nodes and the last node that a key leads along from the root. A byte
/// leads from a node to the one that its base and the code of the byte give, which names the node
/// as its parent; bases and parents are stored combined with the numbers of their nodes.
pub open spec fn leads_along(t: TrieModel, nodes: Seq<u64>, key: Seq<u8>) -> bool {
    &&& nodes.len() == key.len() + 1
    &&& nodes[0] == 0
    &&& forall|i: int| 0 <= i < key.len() ==> #[trigger] leads_on(t, nodes[i], key[i], nodes[i + 1])
}

/// A byte leads from an inner node to another node.
pub open spec fn leads_on(t: TrieModel, node: u64, ch: u8, next: u64) -> bool {
    &&& t.bc.leaves.bit(node as int) == Some(false)
    &&& t.bc.access(node * 2) matches Some(base) && next == (base ^ node) ^ (
    t.table[ch as int] as u64)
    &&& t.bc.access(next * 2 + 1) matches Some(parent) && parent ^ next == node
}

/// What is stored along the rest of a path is what is stored below its last node.
proof fn lemma_path_below(t: TrieModel, nodes: Seq<u64>, key: Seq<u8>, rest: Seq<u8>, k: int)
    requires
        leads_along(t, nodes, key),
        0 <= k <= key.len(),
    ensures
        t.stored_from(nodes[k], key.skip(k) + rest) == t.stored_from(nodes.last(), rest),
    decreases key.len() - k,
{
    if k < key.len() {
        let whole = key.skip(k) + rest;
        assert(leads_on(t, nodes[k], key[k], nodes[k + 1]));
        assert(whole[0] == key[k]);
        assert(whole.drop_first() =~= key.skip(k + 1) + rest);
        lemma_path_below(t, nodes, key, rest, k + 1);
    } else {
        assert(key.skip(k) + rest =~= rest);
    }
}

/// The trie holds a key that leads along its nodes to an inner node at which a key ends, with the
/// value whose place is the number of such nodes before; and not where no key ends there.
pub proof fn law_key_along_the_nodes_is_held(t: TrieModel, nodes: Seq<u64>, key: Seq<u8>)
    requires
        leads_along(t, nodes, key),
        t.bc.leaves.bit(nodes.last() as int) == Some(false),
        t.terms.counts_ones(),
        nodes.last() < t.terms.size,
        bit_vector::ones_below(t.terms.words, nodes.last() as nat) < t.rank_to_offset.len(),
    ensures
        t.terms.bit(nodes.last() as int) == Some(true) ==> t.stored(key) == Some(
            t.rank_to_offset[bit_vector::ones_below(
                t.terms.words,
                nodes.last() as nat,
            ) as int] as u64,
        ),
        t.terms.bit(nodes.last() as int) == Some(false) ==> t.stored(key) is None,
{
    lemma_path_below(t, nodes, key, Seq::empty(), 0);
    assert(key.skip(0) + Seq::<u8>::empty() =~= key);
    bit_vector::law_rank_counts_ones(t.terms, nodes.last() as nat);
}

/// The trie holds exactly one key below a leaf: the way to the leaf with the tail of the leaf
/// behind it, or without one where the leaf has none. Its value is that at the number of nodes at
/// which keys end before the leaf.
pub proof fn law_tail_behind_a_leaf_is_held(
    t: TrieModel,
    nodes: Seq<u64>,
    key: Seq<u8>,
    link: u64,
    tail: Seq<u8>,
    rest: Seq<u8>,
)
    requires
        leads_along(t, nodes, key),
        t.bc.leaves.bit(nodes.last() as int) == Some(true),
        t.bc.link_of(nodes.last()) == Some(link),
        if link == 0 {
            tail.len() == 0
        } else {
            t.tails.is_tail(link as nat, tail)
        },
        t.terms.counts_ones(),
        nodes.last() < t.terms.size,
        bit_vector::ones_below(t.terms.words, nodes.last() as nat) < t.rank_to_offset.len(),
    ensures
        t.stored(key + tail) == Some(
            t.rank_to_offset[bit_vector::ones_below(
                t.terms.words,
                nodes.last() as nat,
            ) as int] as u64,
        ),
        rest != tail ==> t.stored(key + rest) is None,
{
    lemma_path_below(t, nodes, key, tail, 0);
    lemma_path_below(t, nodes, key, rest, 0);
    assert(key.skip(0) =~= key);
    bit_vector::law_rank_counts_ones(t.terms, nodes.last() as nat);
    if link != 0 {
        law_tail_is_prefix(t.tails, tail, link as nat, tail);
        law_tail_is_prefix(t.tails, rest, link as nat, tail);
        assert(tail.subrange(0, tail.len() as int) =~= tail);
        assert(tail.is_prefix_of(tail));
        if tail.is_prefix_of(rest) && rest.len() == tail.len() {
            assert(rest.subrange(0, tail.len() as int) =~= rest);
        }
    } else {
        assert(tail.len() == 0);
        if rest.len() == 0 {
            assert(rest =~= tail);
        }
    }
}

/// A vector is read out of its bytes: the number of its elements in eight bytes, and the elements,
/// of one byte or of eight with the lowest byte first; it ends behind the last one.
pub proof fn law_vectors_are_read_out_of_their_bytes(d: Seq<u8>, p: int, n: u64, k: int)
    requires
        0 <= p,
        p + 8 <= d.len(),
        n == bytes::u64_at(d, p),
        0 <= k < n,
    ensures
        p + 8 + n <= d.len() ==> ({
            &&& bytes_at(d, p) matches Some((s, end))
            &&& s.len() == n
            &&& s[k] == d[p + 8 + k]
            &&& end == p + 8 + n
        }),
        p + 8 + n > d.len() ==> bytes_at(d, p) is None,
        p + 8 + 8 * n <= d.len() ==> ({
            &&& words_at(d, p) matches Some((s, end))
            &&& s.len() == n
            &&& s[k] == bytes::u64_at(d, p + 8 + 8 * k)
            &&& end == p + 8 + 8 * n
        }),
        p + 8 + 8 * n > d.len() ==> words_at(d, p) is None,
{
}

/// The parts of bit vectors and of vectors of integers stand one behind the other: for bits the
/// number of bits, the number of ones, the words, the counts, and further places that are passed
/// over; for integers their number, the number of bits of each, the mask, and the words.
pub proof fn law_parts_of_vectors(
    d: Seq<u8>,
    p: int,
    words: Seq<u64>,
    p2: int,
    counts: Seq<u64>,
    p3: int,
    places: Seq<u64>,
    p4: int,
    chunks: Seq<u64>,
    p5: int,
)
    requires
        words_at(d, p + 16) == Some((words, p2)),
        words_at(d, p2) == Some((counts, p3)),
        words_at(d, p3) == Some((places, p4)),
        words_at(d, p + 24) == Some((chunks, p5)),
        p + 24 <= d.len(),
    ensures
        bit_vector_at(d, p) == Some(
            (
                BitVectorModel {
                    size: bytes::u64_at(d, p),
                    num_ones: bytes::u64_at(d, p + 8),
                    words,
                    rank_hints: counts,
                },
                p4,
            ),
        ),
        compact_vector_at(d, p) == Some(
            (
                CompactVectorModel {
                    size: bytes::u64_at(d, p),
                    bits: bytes::u64_at(d, p + 8),
                    mask: bytes::u64_at(d, p + 16),
                    chunks,
                },
                p5,
            ),
        ),
{
}

/// A trie is read out of its bytes part by part: twelve bytes for its kind and the number of its
/// keys; the codes of the bytes behind eight bytes, and the alphabet, which is passed over; the
/// bits of the nodes at which keys end; the number of levels and of free places, eight levels of
/// bytes, seven vectors of bits, the links, and the bits of the leaves; and the tails with the
/// bits of their ends.
pub proof fn law_parts_of_a_trie(
    d: Seq<u8>,
    ranks: Seq<u32>,
    alphabet: Seq<u8>,
    p2: int,
    terms: BitVectorModel,
    p3: int,
    levels: Seq<Seq<u8>>,
    p4: int,
    nexts: Seq<BitVectorModel>,
    p5: int,
    links: CompactVectorModel,
    p6: int,
    leaves: BitVectorModel,
    p7: int,
    tails: Seq<u8>,
    p8: int,
    ends: BitVectorModel,
    p9: int,
)
    requires
        d.len() >= 532,
        bytes_at(d, 532) == Some((alphabet, p2)),
        bit_vector_at(d, p2) == Some((terms, p3)),
        p3 + 12 <= d.len(),
        byte_vectors_at(d, p3 + 12, 8) == Some((levels, p4)),
        bit_vectors_at(d, p4, 7) == Some((nexts, p5)),
        compact_vector_at(d, p5) == Some((links, p6)),
        bit_vector_at(d, p6) == Some((leaves, p7)),
        bytes_at(d, p7) == Some((tails, p8)),
        bit_vector_at(d, p8) == Some((ends, p9)),
    ensures
        trie_in(d, ranks) matches Some(t) && {
            &&& t.table == d.subrange(20, 532)
            &&& t.terms == terms
            &&& t.bc.num_levels == bytes::u32_at(d, p3)
            &&& t.bc.bytes == levels
            &&& t.bc.nexts == nexts
            &&& t.bc.links == links
            &&& t.bc.leaves == leaves
            &&& t.tails.chars == tails
            &&& t.tails.terms == ends
            &&& t.rank_to_offset == ranks
        },
{
}

/// Vectors that follow each other are read one after another.
pub proof fn law_vectors_follow_each_other(d: Seq<u8>, p: int, n: nat)
    ensures
        byte_vectors_at(d, p, 0) matches Some((levels, end)) && levels.len() == 0 && end == p,
        bit_vectors_at(d, p, 0) matches Some((vectors, end)) && vectors.len() == 0 && end == p,
        byte_vectors_at(d, p, n) matches Some((levels, q)) ==> match bytes_at(d, q) {
            Some((level, end)) => byte_vectors_at(d, p, n + 1) == Some((levels.push(level), end)),
            None => byte_vectors_at(d, p, n + 1) is None,
        },
        bit_vectors_at(d, p, n) matches Some((vectors, q)) ==> match bit_vector_at(d, q) {
            Some((vector, end)) => bit_vectors_at(d, p, n + 1) == Some(
                (vectors.push(vector), end),
            ),
            None => bit_vectors_at(d, p, n + 1) is None,
        },
{
}

/// Reads the parts of a trie one after another. Each reading returns nothing where the data end
/// before the part does.
struct Reader<'a> {
    data: &'a [u8],
    pos: usize,
}

impl<'a> Reader<'a> {
    fn new(data: &'a [u8]) -> (r: Reader<'a>)
        ensures
            r.data@ == data@,
            r.pos == 0,
    {
        Reader { data, pos: 0 }
    }

    /// Whether `n` more bytes are there.
    fn has(&self, n: usize) -> (has: bool)
        ensures
            has == (self.pos + n <= self.data.len()),
    {
        self.pos <= self.data.len() && n <= self.data.len() - self.pos
    }

    fn read_u32(&mut self) -> (v: Option<u32>)
        ensures
            final(self).data == old(self).data,
            if old(self).pos + 4 <= old(self).data@.len() {
                &&& v == Some(bytes::u32_at(old(self).data@, old(self).pos as int))
                &&& final(self).pos == old(self).pos + 4
            } else {
                v is None
            },
    {
        if !self.has(4) {
            return None;
        }
        let v: u32 = bytes::read_u32(self.data, self.pos);
        self.pos = self.pos + 4;
        Some(v)
    }

    fn read_u64(&mut self) -> (v: Option<u64>)
        ensures
            final(self).data == old(self).data,
            if old(self).pos + 8 <= old(self).data@.len() {
                &&& v == Some(bytes::u64_at(old(self).data@, old(self).pos as int))
                &&& final(self).pos == old(self).pos + 8
            } else {
                v is None
            },
    {
        if !self.has(8) {
            return None;
        }
        let v: u64 = bytes::read_u64(self.data, self.pos);
        self.pos = self.pos + 8;
        Some(v)
    }

    fn read_vec_u8(&mut self) -> (v: Option<Vec<u8>>)
        ensures
            final(self).data == old(self).data,
            match bytes_at(old(self).data@, old(self).pos as int) {
                Some((bytes, end)) => v matches Some(got) && got@ == bytes && final(self).pos
                    == end,
                None => v is None,
            },
    {
        let n: u64 = self.read_u64()?;
        if n > (self.data.len() - self.pos) as u64 {
            return None;
        }
        let end: usize = self.pos + n as usize;
        let v: Vec<u8> = slice_to_vec(slice_subrange(self.data, self.pos, end));
        self.pos = end;
        Some(v)
    }

    fn read_vec_u64(&mut self) -> (v: Option<Vec<u64>>)
        ensures
            final(self).data == old(self).data,
            match words_at(old(self).data@, old(self).pos as int) {
                Some((words, end)) => v matches Some(got) && got@ == words && final(self).pos
                    == end,
                None => v is None,
            },
    {
        let n: u64 = self.read_u64()?;
        if n > ((self.data.len() - self.pos) / 8) as u64 {
            return None;
        }
        let v: Vec<u64> = bytes::read_u64s(self.data, self.pos, n as usize);
        self.pos = self.pos + 8 * n as usize;
        Some(v)
    }

    fn read_bit_vector(&mut self) -> (v: Option<BitVector>)
        ensures
            final(self).data == old(self).data,
            match bit_vector_at(old(self).data@, old(self).pos as int) {
                Some((model, end)) => v matches Some(got) && got.model() == model
                    && final(self).pos == end,
                None => v is None,
            },
    {
        let size: u64 = self.read_u64()?;
        let num_ones: u64 = self.read_u64()?;
        let words: Vec<u64> = self.read_vec_u64()?;
        let rank_hints: Vec<u64> = self.read_vec_u64()?;
        let _select_hints: Vec<u64> = self.read_vec_u64()?;
        Some(BitVector { size, num_ones, words, rank_hints })
    }

    fn read_compact_vector(&mut self) -> (v: Option<CompactVector>)
        ensures
            final(self).data == old(self).data,
            match compact_vector_at(old(self).data@, old(self).pos as int) {
                Some((model, end)) => v matches Some(got) && got.model() == model
                    && final(self).pos == end,
                None => v is None,
            },
    {
        let size: u64 = self.read_u64()?;
        let bits: u64 = self.read_u64()?;
        let mask: u64 = self.read_u64()?;
        let chunks: Vec<u64> = self.read_vec_u64()?;
        Some(CompactVector { size, bits, mask, chunks })
    }

    fn read_byte_levels(&mut self) -> (levels: Option<Vec<Vec<u8>>>)
        ensures
            final(self).data == old(self).data,
            match byte_vectors_at(old(self).data@, old(self).pos as int, BYTE_LEVELS as nat) {
                Some((vectors, end)) => levels matches Some(got) && views(got@) == vectors
                    && got@.len() == BYTE_LEVELS && final(self).pos == end,
                None => levels is None,
            },
    {
        let mut levels: Vec<Vec<u8>> = Vec::new();
        assert(views(levels@) =~= Seq::empty());
        let mut j: usize = 0;
        while j < BYTE_LEVELS
            invariant
                j <= BYTE_LEVELS,
                levels@.len() == j,
                self.data == old(self).data,
                byte_vectors_at(old(self).data@, old(self).pos as int, j as nat) == Some(
                    (views(levels@), self.pos as int),
                ),
            decreases BYTE_LEVELS - j,
        {
            proof {
                if byte_vectors_at(old(self).data@, old(self).pos as int, BYTE_LEVELS as nat)
                    is Some {
                    lemma_byte_vectors_prefix(
                        old(self).data@,
                        old(self).pos as int,
                        (j + 1) as nat,
                        BYTE_LEVELS as nat,
                    );
                }
            }
            let ghost before = views(levels@);
            let level: Vec<u8> = self.read_vec_u8()?;
            levels.push(level);
            assert(views(levels@) =~= before.push(level@));
            j = j + 1;
        }
        Some(levels)
    }

    fn read_next_levels(&mut self) -> (nexts: Option<Vec<BitVector>>)
        ensures
            final(self).data == old(self).data,
            match bit_vectors_at(
                old(self).data@,
                old(self).pos as int,
                (BYTE_LEVELS - 1) as nat,
            ) {
                Some((vectors, end)) => nexts matches Some(got) && models(got@) == vectors
                    && final(self).pos == end,
                None => nexts is None,
            },
    {
        let mut nexts: Vec<BitVector> = Vec::new();
        assert(models(nexts@) =~= Seq::empty());
        let mut j: usize = 0;
        while j < BYTE_LEVELS - 1
            invariant
                j <= BYTE_LEVELS - 1,
                self.data == old(self).data,
                bit_vectors_at(old(self).data@, old(self).pos as int, j as nat) == Some(
                    (models(nexts@), self.pos as int),
                ),
            decreases BYTE_LEVELS - j,
        {
            proof {
                if bit_vectors_at(
                    old(self).data@,
                    old(self).pos as int,
                    (BYTE_LEVELS - 1) as nat,
                ) is Some {
                    lemma_bit_vectors_prefix(
                        old(self).data@,
                        old(self).pos as int,
                        (j + 1) as nat,
                        (BYTE_LEVELS - 1) as nat,
                    );
                }
            }
            let ghost before = models(nexts@);
            let next: BitVector = self.read_bit_vector()?;
            nexts.push(next);
            assert(models(nexts@) =~= before.push(next.model()));
            j = j + 1;
        }
        Some(nexts)
    }

    #[verifier::rlimit(30)]
    fn read_bc_vector(&mut self) -> (bc: Option<BcVector8>)
        ensures
            final(self).data == old(self).data,
            match bc_at(old(self).data@, old(self).pos as int) {
                Some((model, end)) => bc matches Some(got) && got.model() == model
                    && got.model().bytes.len() == BYTE_LEVELS && final(self).pos == end,
                None => bc is None,
            },
    {
        let num_levels: u32 = self.read_u32()?;
        let _num_frees: u64 = self.read_u64()?;
        let bytes: Vec<Vec<u8>> = self.read_byte_levels()?;
        let nexts: Vec<BitVector> = self.read_next_levels()?;
        let links: CompactVector = self.read_compact_vector()?;
        let leaves: BitVector = self.read_bit_vector()?;
        Some(BcVector8 { num_levels, bytes, nexts, links, leaves })
    }

    fn read_tail_vector(&mut self) -> (tails: Option<TailVector>)
        ensures
            final(self).data == old(self).data,
            match tails_at(old(self).data@, old(self).pos as int) {
                Some((model, end)) => tails matches Some(got) && got.model() == model
                    && final(self).pos == end,
                None => tails is None,
            },
    {
        let chars: Vec<u8> = self.read_vec_u8()?;
        let terms: BitVector = self.read_bit_vector()?;
        Some(TailVector { chars, terms })
    }

    fn read_code_table(&mut self) -> (table: Option<CodeTable>)
        ensures
            final(self).data == old(self).data,
            match code_table_at(old(self).data@, old(self).pos as int) {
                Some((codes, end)) => table matches Some(got) && got.codes() == codes
                    && got.codes().len() == CODE_TABLE_SIZE && final(self).pos == end,
                None => table is None,
            },
    {
        let _max_length: u64 = self.read_u64()?;
        if !self.has(CODE_TABLE_SIZE) {
            return None;
        }
        let end: usize = self.pos + CODE_TABLE_SIZE;
        let table: Vec<u8> = slice_to_vec(slice_subrange(self.data, self.pos, end));
        self.pos = end;
        let _alphabet: Vec<u8> = self.read_vec_u8()?;
        Some(CodeTable { table })
    }
}

/// A compressed double-array trie.
pub struct XcdatTrie {
    table: CodeTable,
    terms: BitVector,
    bcvec: BcVector8,
    tvec: TailVector,
    rank_to_offset: Vec<u32>,
}

impl XcdatTrie {
    /// What the trie holds.
    pub closed spec fn model(self) -> TrieModel {
        TrieModel {
            table: self.table.codes(),
            terms: self.terms.model(),
            bc: self.bcvec.model(),
            tails: self.tvec.model(),
            rank_to_offset: self.rank_to_offset@,
        }
    }

    /// The trie that `data` begins with, with the given values for its keys. Returns nothing
    /// where the data end before the trie does.
    pub fn checked_parse(data: &[u8], rank_to_offset: Vec<u32>) -> (trie: Option<XcdatTrie>)
        ensures
            match trie_in(data@, rank_to_offset@) {
                Some(model) => trie matches Some(got) && got.model() == model && got.model().wf(),
                None => trie is None,
            },
    {
        let mut r: Reader = Reader::new(data);
        let _type_id: u32 = r.read_u32()?;
        let _num_keys: u64 = r.read_u64()?;
        let table: CodeTable = r.read_code_table()?;
        let terms: BitVector = r.read_bit_vector()?;
        let bcvec: BcVector8 = r.read_bc_vector()?;
        let tvec: TailVector = r.read_tail_vector()?;
        Some(XcdatTrie { table, terms, bcvec, tvec, rank_to_offset })
    }

    /// The trie that `data` begins with, with the given values for its keys.
    pub fn parse(data: &[u8], rank_to_offset: Vec<u32>) -> (res: SudachiResult<XcdatTrie>)
        requires
            trie_in(data@, rank_to_offset@) is Some,
        ensures
            res matches Ok(trie) && Some(trie.model()) == trie_in(data@, rank_to_offset@)
                && trie.model().wf(),
    {
        match XcdatTrie::checked_parse(data, rank_to_offset) {
            Some(trie) => Ok(trie),
            None => Err(SudachiError::ParseError(ReadError::Eof)),
        }
    }

    /// The value of the key with the given rank.
    pub fn rank_to_offset(&self, rank: u64) -> (offset: u32)
        requires
            rank < self.model().rank_to_offset.len(),
        ensures
            offset == self.model().rank_to_offset[rank as int],
    {
        assert(self.rank_to_offset.len() == self.rank_to_offset@.len());
        self.rank_to_offset[rank as usize]
    }

    /// The value of the key that ends at a node, if it is stored.
    fn checked_value(&self, npos: u64) -> (value: Option<u64>)
        ensures
            value == self.model().value(npos),
    {
        match self.terms.checked_rank(npos) {
            None => None,
            Some(rank) => if rank < self.rank_to_offset.len() as u64 {
                Some(self.rank_to_offset(rank) as u64)
            } else {
                None
            },
        }
    }

    /// The value of the key that ends at a node.
    fn npos_to_offset(&self, npos: u64) -> (offset: u64)
        requires
            self.model().value(npos) is Some,
        ensures
            self.model().value(npos) == Some(offset),
    {
        match self.checked_value(npos) {
            Some(value) => value,
            None => 0,
        }
    }

    /// The key that ends at an inner node, if one does.
    fn checked_own_hit(&self, npos: u64, end: usize) -> (hit: Option<Option<XcdatEntry>>)
        ensures
            match self.model().own_hit(npos, end as nat) {
                Some(own) => hit matches Some(entry) && own == optional_hit(entry),
                None => hit is None,
            },
    {
        match self.bcvec.leaves.checked_get(npos) {
            None => None,
            Some(true) => Some(None),
            Some(false) => match self.terms.checked_get(npos) {
                None => None,
                Some(false) => Some(None),
                Some(true) => match self.checked_value(npos) {
                    None => None,
                    Some(value) => Some(Some(XcdatEntry { value, end })),
                },
            },
        }
    }

    /// The prefixes of `input[offset..]` that the trie holds. Returns nothing where the search
    /// leads out of what is stored.
    pub fn checked_search(&self, input: &[u8], offset: usize) -> (found: Option<Vec<XcdatEntry>>)
        requires
            self.model().wf(),
        ensures
            match self.model().hits_from(input@, offset as nat, 0) {
                Some(hits) => found matches Some(entries) && entry_hits(entries@) == hits,
                None => found is None,
            },
    {
        let ghost t = self.model();
        let ghost total = t.hits_from(input@, offset as nat, 0);
        let mut entries: Vec<XcdatEntry> = Vec::new();
        match self.checked_own_hit(0, offset) {
            None => {
                return None;
            },
            Some(Some(entry)) => {
                entries.push(entry);
            },
            Some(None) => {},
        }
        assert(entry_hits(entries@) =~= t.own_hit(0, offset as nat).unwrap());
        let mut kpos: usize = offset;
        let mut npos: u64 = 0;
        loop
            invariant
                t == self.model(),
                t.wf(),
                total == t.hits_from(input@, offset as nat, 0),
                total == (match t.hits_below(input@, kpos as nat, npos) {
                    Some(below) => Some(entry_hits(entries@) + below),
                    None => None,
                }),
            decreases input.len() - kpos,
        {
            let ghost before = entry_hits(entries@);
            match self.bcvec.leaves.checked_get(npos) {
                None => {
                    return None;
                },
                Some(true) => {
                    let tpos: u64 = match self.bcvec.checked_link(npos) {
                        Some(tpos) => tpos,
                        None => {
                            return None;
                        },
                    };
                    match self.tvec.checked_prefix_match(input, kpos, tpos) {
                        None => {
                            return None;
                        },
                        Some(None) => {
                            assert(before + Seq::<(u64, nat)>::empty() =~= before);
                            return Some(entries);
                        },
                        Some(Some(matched)) => match self.checked_value(npos) {
                            None => {
                                return None;
                            },
                            Some(value) => {
                                let ghost hit = (value, (kpos + matched) as nat);
                                entries.push(XcdatEntry { value, end: kpos + matched });
                                assert(entry_hits(entries@) =~= before + seq![hit]);
                                return Some(entries);
                            },
                        },
                    }
                },
                Some(false) => {},
            }
            if kpos >= input.len() {
                assert(before + Seq::<(u64, nat)>::empty() =~= before);
                return Some(entries);
            }
            let base: u64 = match self.bcvec.checked_base(npos) {
                Some(base) => base,
                None => {
                    return None;
                },
            };
            let cpos: u64 = base ^ self.table.get_code(input[kpos]);
            match self.bcvec.checked_check(cpos) {
                None => {
                    return None;
                },
                Some(parent) => {
                    if parent != npos {
                        assert(before + Seq::<(u64, nat)>::empty() =~= before);
                        return Some(entries);
                    }
                },
            }
            kpos = kpos + 1;
            match self.checked_own_hit(cpos, kpos) {
                None => {
                    return None;
                },
                Some(Some(entry)) => {
                    entries.push(entry);
                },
                Some(None) => {},
            }
            proof {
                let own = t.own_hit(cpos, kpos as nat).unwrap();
                assert(entry_hits(entries@) =~= before + own);
                if let Some(below) = t.hits_below(input@, kpos as nat, cpos) {
                    assert(before + (own + below) =~= entry_hits(entries@) + below);
                }
            }
            npos = cpos;
        }
    }

    /// Searches for the prefixes of `input[offset..]` that the trie holds.
    pub fn common_prefix_search<'a>(&'a self, input: &'a [u8], offset: usize) -> (iter:
        XcdatPrefixIter<'a>)
        requires
            self.model().wf(),
        ensures
            iter.wf(),
            iter.remaining() == self.model().hits_from(input@, offset as nat, 0),
    {
        XcdatPrefixIter { trie: self, input, kpos: offset, npos: 0, is_beg: true, is_end: false }
    }
}

/// The prefixes that a search has still to find.
pub struct XcdatPrefixIter<'a> {
    trie: &'a XcdatTrie,
    input: &'a [u8],
    kpos: usize,
    npos: u64,
    is_beg: bool,
    is_end: bool,
}

/// A prefix that a search found.
#[derive(Debug, Clone, Copy, PartialEq, Eq, Structural)]
pub struct XcdatEntry {
    /// Value of the prefix
    pub value: u64,
    /// Byte position in the input at which the prefix ends
    pub end: usize,
}

/// Entries as values and ends.
pub open spec fn entry_hits(entries: Seq<XcdatEntry>) -> Seq<(u64, nat)> {
    entries.map_values(|e: XcdatEntry| (e.value, e.end as nat))
}

/// An entry as a value and an end, if there is one.
pub open spec fn optional_hit(entry: Option<XcdatEntry>) -> Seq<(u64, nat)> {
    match entry {
        Some(e) => seq![(e.value, e.end as nat)],
        None => Seq::empty(),
    }
}

impl<'a> XcdatPrefixIter<'a> {
    /// The trie has the sizes that every trie has.
    pub closed spec fn wf(self) -> bool {
        self.trie.model().wf()
    }

    /// The values and ends that are still to come, if the trie is sound on the way to them.
    pub closed spec fn remaining(self) -> Option<Seq<(u64, nat)>> {
        if self.is_end {
            Some(Seq::empty())
        } else if self.is_beg {
            self.trie.model().hits_from(self.input@, self.kpos as nat, self.npos)
        } else {
            self.trie.model().hits_below(self.input@, self.kpos as nat, self.npos)
        }
    }

    /// The next prefix, if there is one.
    pub fn next(&mut self) -> (entry: Option<XcdatEntry>)
        requires
            old(self).wf(),
            old(self).remaining() is Some,
        ensures
            final(self).wf(),
            match entry {
                Some(e) => {
                    let before = old(self).remaining().unwrap();
                    &&& before.len() > 0
                    &&& (e.value, e.end as nat) == before[0]
                    &&& final(self).remaining() == Some(before.drop_first())
                },
                None => {
                    &&& old(self).remaining() == Some(Seq::<(u64, nat)>::empty())
                    &&& final(self).remaining() == Some(Seq::<(u64, nat)>::empty())
                },
            },
    {
        if self.is_end {
            return None;
        }
        let t = self.trie;
        let ghost total = self.remaining().unwrap();
        if self.is_beg {
            self.is_beg = false;
            if !t.bcvec.is_leaf(self.npos) && t.terms.get(self.npos) {
                assert(total.drop_first() =~= self.remaining().unwrap());
                return Some(
                    XcdatEntry { value: t.npos_to_offset(self.npos), end: self.kpos },
                );
            }
            assert(total =~= self.remaining().unwrap());
        }
        loop
            invariant
                self.wf(),
                !self.is_beg,
                !self.is_end,
                t == self.trie,
                self.remaining() == Some(total),
                old(self).remaining() == Some(total),
            decreases self.input.len() - self.kpos,
        {
            if t.bcvec.is_leaf(self.npos) {
                self.is_end = true;
                let tpos: u64 = t.bcvec.link(self.npos);
                match t.tvec.prefix_match(self.input, self.kpos, tpos) {
                    None => {
                        return None;
                    },
                    Some(matched) => {
                        self.kpos = self.kpos + matched;
                        assert(total.drop_first() =~= Seq::empty());
                        return Some(
                            XcdatEntry { value: t.npos_to_offset(self.npos), end: self.kpos },
                        );
                    },
                }
            }
            if self.kpos >= self.input.len() {
                self.is_end = true;
                return None;
            }
            let cpos: u64 = t.bcvec.base(self.npos) ^ t.table.get_code(self.input[self.kpos]);
            if t.bcvec.check(cpos) != self.npos {
                self.is_end = true;
                return None;
            }
            self.kpos = self.kpos + 1;
            self.npos = cpos;
            if !t.bcvec.is_leaf(self.npos) && t.terms.get(self.npos) {
                assert(total.drop_first() =~= self.remaining().unwrap());
                return Some(
                    XcdatEntry { value: t.npos_to_offset(self.npos), end: self.kpos },
                );
            }
            assert(total =~= self.remaining().unwrap());
        }
    }
}

} // verus!
