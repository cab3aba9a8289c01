//! Double-array tries.

use vstd::prelude::*;

use crate::bytes;

verus! {

/// The place that the children of a unit are counted from.
pub open spec fn unit_offset(unit: u32) -> u32 {
    if unit / 0x200 % 2 == 1 {
        (unit / 0x400 * 0x100) as u32
    } else {
        unit / 0x400
    }
}

/// Whether a key ends at a unit.
pub open spec fn unit_has_leaf(unit: u32) -> bool {
    unit / 0x100 % 2 == 1
}

/// Whether a unit is the child along a key byte.
pub open spec fn unit_is_child(unit: u32, ch: u8) -> bool {
    unit < 0x8000_0000 && unit % 0x100 == ch
}

/// The value that a leaf unit holds.
pub open spec fn unit_value(unit: u32) -> u32 {
    unit % 0x8000_0000
}

/// The units of a double array.
pub struct TrieModel {
    pub units: Seq<u32>,
}

impl TrieModel {
    /// The step from a node along a key byte: the next node, and the value of the key that ends
    /// there, if one does. There is no step where the trie has no such key.
    pub open spec fn step(self, node: u32, ch: u8) -> Option<Option<(u32, Option<u32>)>> {
        let at = node ^ (ch as u32);
        if at >= self.units.len() {
            None
        } else {
            let unit = self.units[at as int];
            let next = at ^ unit_offset(unit);
            if !unit_is_child(unit, ch) {
                Some(None)
            } else if !unit_has_leaf(unit) {
                Some(Some((next, None)))
            } else if next >= self.units.len() {
                None
            } else {
                Some(Some((next, Some(unit_value(self.units[next as int])))))
            }
        }
    }

    /// The keys that end below a node on the way along `input` from `kpos` on, as values and
    /// the places where the keys end.
    pub open spec fn hits_below(self, input: Seq<u8>, kpos: nat, node: u32) -> Option<
        Seq<(u32, nat)>,
    >
        decreases input.len() - kpos,
    {
        if kpos >= input.len() {
            Some(Seq::empty())
        } else {
            match self.step(node, input[kpos as int]) {
                None => None,
                Some(None) => Some(Seq::empty()),
                Some(Some((next, value))) => match self.hits_below(input, kpos + 1, next) {
                    None => None,
                    Some(below) => Some(own_hit(value, kpos + 1) + below),
                },
            }
        }
    }

    /// The keys that the trie holds among the prefixes of `input` from `offset` on.
    pub open spec fn hits(self, input: Seq<u8>, offset: nat) -> Option<Seq<(u32, nat)>> {
        if self.units.len() == 0 {
            None
        } else {
            self.hits_below(input, offset, unit_offset(self.units[0]))
        }
    }

    /// The value of `key` below a node, if the trie holds it there.
    pub open spec fn stored_from(self, node: u32, key: Seq<u8>) -> Option<u32>
        decreases key.len(),
    {
        if key.len() == 0 {
            None
        } else {
            match self.step(node, key[0]) {
                Some(Some((next, value))) => if key.len() == 1 {
                    value
                } else {
                    self.stored_from(next, key.drop_first())
                },
                _ => None,
            }
        }
    }

    /// The value that the trie holds for `key`, if it holds the key.
    pub open spec fn stored(self, key: Seq<u8>) -> Option<u32> {
        self.stored_from(unit_offset(self.units[0]), key)
    }
}

/// The key that ends at a node, if one does.
pub open spec fn own_hit(value: Option<u32>, end: nat) -> Seq<(u32, nat)> {
    match value {
        Some(v) => seq![(v, end)],
        None => Seq::empty(),
    }
}

/// Hits are ordered by their ends, and lie behind `kpos` and within the input.
pub open spec fn ordered_hits(hits: Seq<(u32, nat)>, kpos: nat, len: nat) -> bool {
    &&& forall|i: int| 0 <= i < hits.len() ==> kpos < (#[trigger] hits[i]).1 <= len
    &&& forall|i: int, j: int|
        0 <= i < j < hits.len() ==> (#[trigger] hits[i]).1 < (#[trigger] hits[j]).1
}

/// The hits below a node are the prefixes that the trie holds there.
proof fn lemma_hits_are_stored(t: TrieModel, input: Seq<u8>, kpos: nat, node: u32)
    requires
        kpos <= input.len(),
        t.hits_below(input, kpos, node) is Some,
    ensures
        ordered_hits(t.hits_below(input, kpos, node).unwrap(), kpos, input.len()),
        forall|value: u32, end: nat|
            kpos <= end <= input.len() ==> (#[trigger] t.hits_below(
                input,
                kpos,
                node,
            ).unwrap().contains((value, end)) <==> t.stored_from(
                node,
                input.subrange(kpos as int, end as int),
            ) == Some(value)),
    decreases input.len() - kpos,
{
    let hits = t.hits_below(input, kpos, node).unwrap();
    if kpos < input.len() {
        if let Some(Some((next, own))) = t.step(node, input[kpos as int]) {
            let below = t.hits_below(input, kpos + 1, next).unwrap();
            let first = own_hit(own, kpos + 1);
            assert(hits == first + below);
            lemma_hits_are_stored(t, input, kpos + 1, next);
            assert forall|value: u32, end: nat| kpos <= end <= input.len() implies (
            #[trigger] hits.contains((value, end)) <==> t.stored_from(
                node,
                input.subrange(kpos as int, end as int),
            ) == Some(value)) by {
                let key = input.subrange(kpos as int, end as int);
                if hits.contains((value, end)) {
                    let i = choose|i: int| 0 <= i < hits.len() && hits[i] == (value, end);
                    if i < first.len() {
                        assert(hits[i] == first[i]);
                    } else {
                        assert(hits[i] == below[i - first.len()]);
                        assert(below.contains((value, end)));
                    }
                }
                if end > kpos {
                    assert(key[0] == input[kpos as int]);
                    assert(key.drop_first() =~= input.subrange((kpos + 1) as int, end as int));
                    if t.stored_from(node, key) == Some(value) {
                        if end == kpos + 1 {
                            assert(hits[0] == (value, end));
                        } else {
                            assert(below.contains((value, end)));
                            let i = choose|i: int|
                                0 <= i < below.len() && below[i] == (value, end);
                            assert(hits[i + first.len()] == (value, end));
                        }
                    }
                    if end == kpos + 1 && below.contains((value, end)) {
                        assert(t.stored_from(
                            next,
                            input.subrange((kpos + 1) as int, end as int),
                        ) == None::<u32>);
                    }
                }
            }
        } else {
            assert forall|value: u32, end: nat| kpos <= end <= input.len() implies (
            #[trigger] hits.contains((value, end)) <==> t.stored_from(
                node,
                input.subrange(kpos as int, end as int),
            ) == Some(value)) by {
                if end > kpos {
                    assert(input.subrange(kpos as int, end as int)[0] == input[kpos as int]);
                }
            }
        }
    }
}

/// The prefix search finds every non-empty prefix of `input[offset..]` that the trie holds, each
/// once and in the order of their ends, and nothing else.
pub proof fn law_search_finds_stored_prefixes(t: TrieModel, input: Seq<u8>, offset: nat)
    requires
        offset <= input.len(),
        t.hits(input, offset) is Some,
    ensures
        ordered_hits(t.hits(input, offset).unwrap(), offset, input.len()),
        forall|value: u32, end: nat|
            offset <= end <= input.len() ==> (#[trigger] t.hits(input, offset).unwrap().contains(
                (value, end),
            ) <==> t.stored(input.subrange(offset as int, end as int)) == Some(value)),
{
    lemma_hits_are_stored(t, input, offset, unit_offset(t.units[0]));
}

/// The parts of a unit are found again. A unit holds the byte that leads to it in its lowest bits,
/// above that whether a key ends at it, and its offset: as it is, or in steps of 256 behind a set
/// bit. A leaf holds its value below a set bit, and no byte leads to it.
pub proof fn law_unit_holds_its_parts(label: u8, leaf: bool, offset: u32, value: u32, ch: u8)
    requires
        offset < 0x20_0000,
        value < 0x8000_0000,
    ensures
        ({
            let flag: int = if leaf { 0x100 } else { 0 };
            let near = (label + flag + 0x400 * offset) as u32;
            let far = (label + flag + 0x200 + 0x400 * offset) as u32;
            let value_unit = (value + 0x8000_0000) as u32;
            &&& unit_offset(near) == offset
            &&& unit_offset(far) == 0x100 * offset
            &&& unit_has_leaf(near) == leaf
            &&& unit_has_leaf(far) == leaf
            &&& unit_is_child(near, ch) <==> ch == label
            &&& unit_is_child(far, ch) <==> ch == label
            &&& unit_value(value_unit) == value
            &&& !unit_is_child(value_unit, ch)
        }),
{
}

/// `places` are the units that a key leads along from the root: each byte leads from a unit to
/// the one at the place of the unit, its offset and the byte combined, which bears the byte.
pub open spec fn leads_along(t: TrieModel, places: Seq<u32>, key: Seq<u8>) -> bool {
    &&& places.len() == key.len() + 1
    &&& places[0] == 0
    &&& forall|i: int| 0 <= i < places.len() ==> #[trigger] places[i] < t.units.len()
    &&& forall|i: int|
        0 <= i < key.len() ==> places[i + 1] == (places[i] ^ unit_offset(t.units[places[i] as int]))
            ^ (#[trigger] key[i] as u32)
    &&& forall|i: int|
        0 < i < places.len() ==> t.units[#[trigger] places[i] as int] < 0x8000_0000
            && t.units[places[i] as int] % 0x100 == key[i - 1]
}

/// Where a key ends at a unit, the leaf of the unit is there.
pub open spec fn has_leaves(t: TrieModel) -> bool {
    forall|i: u32|
        i < t.units.len() && #[trigger] unit_has_leaf(t.units[i as int]) ==> (i ^ unit_offset(
            t.units[i as int],
        )) < t.units.len()
}

/// Along the rest of a path the trie holds what the leaf of the last unit says.
proof fn lemma_path_below(t: TrieModel, places: Seq<u32>, key: Seq<u8>, k: int)
    requires
        leads_along(t, places, key),
        has_leaves(t),
        0 <= k < key.len(),
    ensures
        t.stored_from(
            places[k] ^ unit_offset(t.units[places[k] as int]),
            key.skip(k),
        ) == if unit_has_leaf(t.units[places.last() as int]) {
            Some(
                t.units[(places.last() ^ unit_offset(t.units[places.last() as int])) as int]
                    % 0x8000_0000,
            )
        } else {
            None
        },
    decreases key.len() - k,
{
    let rest = key.skip(k);
    let node = places[k] ^ unit_offset(t.units[places[k] as int]);
    let at = places[k + 1];
    let unit = t.units[at as int];
    assert(rest[0] == key[k]);
    assert(at == node ^ (key[k] as u32));
    assert(unit_is_child(unit, key[k]));
    assert(unit_has_leaf(unit) ==> (at ^ unit_offset(unit)) < t.units.len());
    assert(t.step(node, key[k]) is Some && t.step(node, key[k]).unwrap() is Some);
    if k + 1 < key.len() {
        assert(rest.drop_first() =~= key.skip(k + 1));
        lemma_path_below(t, places, key, k + 1);
    } else {
        assert(places.last() == at);
    }
}

/// The trie holds a key where the key leads along its units to one at which a key ends, with the
/// value of the leaf there, and does not hold it where no key ends there.
pub proof fn law_key_along_the_units_is_held(t: TrieModel, places: Seq<u32>, key: Seq<u8>)
    requires
        key.len() > 0,
        leads_along(t, places, key),
        has_leaves(t),
    ensures
        unit_has_leaf(t.units[places.last() as int]) ==> t.stored(key) == Some(
            t.units[(places.last() ^ unit_offset(t.units[places.last() as int])) as int]
                % 0x8000_0000,
        ),
        !unit_has_leaf(t.units[places.last() as int]) ==> t.stored(key) is None,
{
    let offset = unit_offset(t.units[0]);
    assert(0u32 ^ offset == offset) by (bit_vector);
    lemma_path_below(t, places, key, 0);
    assert(key.skip(0) =~= key);
}

/// A key that a search found.
#[derive(Debug, Clone, Copy, PartialEq, Eq, Structural)]
pub struct TrieEntry {
    /// Value of the key
    pub value: u32,
    /// Byte position in the input at which the key ends
    pub end: usize,
}

/// A double-array trie in the bytes of a dictionary.
pub struct Trie<'a> {
    array: &'a [u8],
}

impl<'a> Trie<'a> {
    /// The units of the trie.
    pub closed spec fn model(self) -> TrieModel {
        TrieModel {
            units: bytes::u32s_at(self.array@, 0, (self.array@.len() / 4) as nat),
        }
    }

    /// The trie whose units are stored in `data`.
    pub fn new(data: &'a [u8], _size: usize) -> (trie: Trie<'a>)
        ensures
            trie.model().units == bytes::u32s_at(data@, 0, (data@.len() / 4) as nat),
    {
        Trie { array: data }
    }

    /// Number of bytes of the units.
    pub fn total_size(&self) -> (size: usize)
        ensures
            size == 4 * self.model().units.len(),
    {
        self.array.len() / 4 * 4
    }

    /// The unit at a place, if there is one.
    fn get(&self, index: u32) -> (unit: Option<u32>)
        ensures
            index < self.model().units.len() ==> unit == Some(self.model().units[index as int]),
            index >= self.model().units.len() ==> unit is None,
    {
        let at: usize = index as usize;
        if at < self.array.len() / 4 {
            Some(bytes::read_u32(self.array, 4 * at))
        } else {
            None
        }
    }

    /// The step from a node along a key byte.
    fn step(&self, node: u32, ch: u8) -> (step: Option<Option<(u32, Option<u32>)>>)
        ensures
            step == self.model().step(node, ch),
    {
        let at: u32 = node ^ (ch as u32);
        match self.get(at) {
            None => None,
            Some(unit) => {
                if unit >= 0x8000_0000 || unit % 0x100 != ch as u32 {
                    return Some(None);
                }
                let next: u32 = at ^ Trie::offset(unit);
                if unit / 0x100 % 2 == 0 {
                    return Some(Some((next, None)));
                }
                match self.get(next) {
                    None => None,
                    Some(leaf) => Some(Some((next, Some(leaf % 0x8000_0000)))),
                }
            },
        }
    }

    /// The place that the children of a unit are counted from.
    fn offset(unit: u32) -> (offset: u32)
        ensures
            offset == unit_offset(unit),
    {
        if unit / 0x200 % 2 == 1 {
            unit / 0x400 * 0x100
        } else {
            unit / 0x400
        }
    }

    /// Searches for the keys of the trie among the prefixes of `input[offset..]`.
    pub fn common_prefix_iterator<'b>(&'b self, input: &'b [u8], offset: usize) -> (iter:
        TrieEntryIter<'b>)
        requires
            self.model().units.len() > 0,
        ensures
            iter.remaining() == self.model().hits(input@, offset as nat),
    {
        let root: u32 = match self.get(0) {
            Some(unit) => Trie::offset(unit),
            None => 0,
        };
        TrieEntryIter { trie: self, node: root, input, offset }
    }

    /// The keys of the trie among the prefixes of `input[offset..]`. Returns nothing where the
    /// units lead out of the array.
    pub fn checked_search(&self, input: &[u8], offset: usize) -> (found: Option<Vec<TrieEntry>>)
        ensures
            match self.model().hits(input@, offset as nat) {
                Some(hits) => found matches Some(entries) && entry_hits(entries@) == hits,
                None => found is None,
            },
    {
        let root: u32 = match self.get(0) {
            Some(unit) => Trie::offset(unit),
            None => {
                return None;
            },
        };
        let ghost total = self.model().hits(input@, offset as nat);
        let mut entries: Vec<TrieEntry> = Vec::new();
        let mut node: u32 = root;
        let mut pos: usize = offset;
        assert(entry_hits(entries@) =~= Seq::empty());
        assert(total is Some ==> Seq::<(u32, nat)>::empty() + total.unwrap() =~= total.unwrap());
        while pos < input.len()
            invariant
                total == self.model().hits(input@, offset as nat),
                total == (match self.model().hits_below(input@, pos as nat, node) {
                    Some(below) => Some(entry_hits(entries@) + below),
                    None => None,
                }),
            decreases input.len() - pos,
        {
            let ghost before = entry_hits(entries@);
            match self.step(node, input[pos]) {
                None => {
                    return None;
                },
                Some(None) => {
                    assert(before + Seq::<(u32, nat)>::empty() =~= before);
                    return Some(entries);
                },
                Some(Some((next, value))) => {
                    pos = pos + 1;
                    if let Some(v) = value {
                        entries.push(TrieEntry { value: v, end: pos });
                    }
                    proof {
                        assert(entry_hits(entries@) =~= before + own_hit(value, pos as nat));
                        if let Some(below) = self.model().hits_below(input@, pos as nat, next) {
                            assert(before + (own_hit(value, pos as nat) + below) =~= entry_hits(
                                entries@,
                            ) + below);
                        }
                    }
                    node = next;
                },
            }
        }
        assert(entry_hits(entries@) + Seq::<(u32, nat)>::empty() =~= entry_hits(entries@));
        Some(entries)
    }
}

/// Entries as values and ends.
pub open spec fn entry_hits(entries: Seq<TrieEntry>) -> Seq<(u32, nat)> {
    entries.map_values(|e: TrieEntry| (e.value, e.end as nat))
}

/// The keys that a search has still to find.
pub struct TrieEntryIter<'a> {
    trie: &'a Trie<'a>,
    node: u32,
    input: &'a [u8],
    offset: usize,
}

impl<'a> TrieEntryIter<'a> {
    /// The values and ends that are still to come, if the units stay within the array on the
    /// way to them.
    pub closed spec fn remaining(self) -> Option<Seq<(u32, nat)>> {
        self.trie.model().hits_below(self.input@, self.offset as nat, self.node)
    }

    /// The next key, if there is one.
    pub fn next(&mut self) -> (entry: Option<TrieEntry>)
        requires
            old(self).remaining() is Some,
        ensures
            match entry {
                Some(e) => {
                    let before = old(self).remaining().unwrap();
                    &&& before.len() > 0
                    &&& (e.value, e.end as nat) == before[0]
                    &&& final(self).remaining() == Some(before.drop_first())
                },
                None => {
                    &&& old(self).remaining() == Some(Seq::<(u32, nat)>::empty())
                    &&& final(self).remaining() == Some(Seq::<(u32, nat)>::empty())
                },
            },
    {
        let ghost total = self.remaining().unwrap();
        let mut node: u32 = self.node;
        let mut pos: usize = self.offset;
        while pos < self.input.len()
            invariant
                *self == *old(self),
                self.remaining() == Some(total),
                self.trie.model().hits_below(self.input@, pos as nat, node) == Some(total),
            decreases self.input.len() - pos,
        {
            match self.trie.step(node, self.input[pos]) {
                Some(Some((next, value))) => {
                    pos = pos + 1;
                    node = next;
                    let ghost below = self.trie.model().hits_below(
                        self.input@,
                        pos as nat,
                        next,
                    ).unwrap();
                    if let Some(v) = value {
                        self.offset = pos;
                        self.node = node;
                        assert(total.drop_first() =~= below);
                        return Some(TrieEntry { value: v, end: pos });
                    }
                    assert(total =~= below);
                },
                _ => {
                    return None;
                },
            }
        }
        None
    }
}

} // verus!
