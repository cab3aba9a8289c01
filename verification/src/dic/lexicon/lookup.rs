//! What lookups in a lexicon find.

use vstd::prelude::*;

use super::trie;
use super::word_id_table;
use super::xcdat_trie;
use super::{LexiconEntry, LexiconModel, TrieVariantModel};
use crate::dic::word_id::WordId;

verus! {

impl TrieVariantModel {
    /// The place in the table of word lists that the trie holds for a key, if it holds the key.
    pub open spec fn stored(self, key: Seq<u8>) -> Option<nat> {
        match self {
            TrieVariantModel::Yada(t) => match t.stored(key) {
                Some(place) => Some(place as nat),
                None => None,
            },
            TrieVariantModel::Xcdat(t) => match t.stored(key) {
                Some(place) => Some(place as nat),
                None => None,
            },
        }
    }
}

/// Hits are ordered by their ends, and end within the input.
pub open spec fn ordered(hits: Seq<(nat, nat)>, offset: nat, len: nat) -> bool {
    &&& forall|i: int| 0 <= i < hits.len() ==> offset <= (#[trigger] hits[i]).1 <= len
    &&& forall|i: int, j: int|
        0 <= i < j < hits.len() ==> (#[trigger] hits[i]).1 < (#[trigger] hits[j]).1
}

/// Both kinds of tries find every prefix of `input[offset..]` that they hold, each once and in the
/// order of their ends, and nothing else.
pub proof fn law_hits_are_stored(t: TrieVariantModel, input: Seq<u8>, offset: nat)
    requires
        offset <= input.len(),
        t.hits(input, offset) is Some,
    ensures
        ordered(t.hits(input, offset).unwrap(), offset, input.len()),
        forall|place: nat, end: nat|
            offset <= end <= input.len() ==> (#[trigger] t.hits(input, offset).unwrap().contains(
                (place, end),
            ) <==> t.stored(input.subrange(offset as int, end as int)) == Some(place)),
{
    let hits = t.hits(input, offset).unwrap();
    match t {
        TrieVariantModel::Yada(y) => {
            trie::law_search_finds_stored_prefixes(y, input, offset);
            let own = y.hits(input, offset).unwrap();
            assert forall|place: nat, end: nat| offset <= end <= input.len() implies (
            #[trigger] hits.contains((place, end)) <==> t.stored(
                input.subrange(offset as int, end as int),
            ) == Some(place)) by {
                if hits.contains((place, end)) {
                    let i = choose|i: int| 0 <= i < hits.len() && hits[i] == (place, end);
                    assert(own[i] == (place as u32, end));
                    assert(own.contains((place as u32, end)));
                }
                if let Some(value) = y.stored(input.subrange(offset as int, end as int)) {
                    assert(own.contains((value, end)));
                    let i = choose|i: int| 0 <= i < own.len() && own[i] == (value, end);
                    assert(hits[i] == (value as nat, end));
                }
            }
        },
        TrieVariantModel::Xcdat(x) => {
            xcdat_trie::law_search_finds_stored_prefixes(x, input, offset);
            let own = x.hits_from(input, offset, 0).unwrap();
            assert forall|place: nat, end: nat| offset <= end <= input.len() implies (
            #[trigger] hits.contains((place, end)) <==> t.stored(
                input.subrange(offset as int, end as int),
            ) == Some(place)) by {
                if hits.contains((place, end)) {
                    let i = choose|i: int| 0 <= i < hits.len() && hits[i] == (place, end);
                    assert(own[i] == (place as u64, end));
                    assert(own.contains((place as u64, end)));
                }
                if let Some(value) = x.stored(input.subrange(offset as int, end as int)) {
                    assert(own.contains((value, end)));
                    let i = choose|i: int| 0 <= i < own.len() && own[i] == (value, end);
                    assert(hits[i] == (value as nat, end));
                }
            }
        },
    }
}

/// A word of the lexicon whose surface is `key`: the trie leads from the key to a list that holds
/// the word.
pub open spec fn is_listed(m: LexiconModel, key: Seq<u8>, raw: u32) -> bool {
    &&& m.trie.stored(key) matches Some(place)
    &&& word_id_table::word_list(m.table, (m.table_start + place) as int) matches Some(list)
    &&& list.contains(raw)
}

/// The entries for the first hits come from the lists of these hits.
proof fn lemma_entries_listed(m: LexiconModel, hits: Seq<(nat, nat)>, n: nat, e: LexiconEntry)
    requires
        n <= hits.len(),
        m.entries(hits, n) is Some,
    ensures
        m.entries(hits, n).unwrap().contains(e) <==> exists|i: int, raw: u32|
            0 <= i < n && #[trigger] in_hit(m, hits[i], raw, e),
    decreases n,
{
    let all = m.entries(hits, n).unwrap();
    if n > 0 {
        let before = m.entries(hits, (n - 1) as nat).unwrap();
        lemma_entries_listed(m, hits, (n - 1) as nat, e);
        let hit = hits[n - 1];
        let own = m.hit_entries(hit).unwrap();
        let list = word_id_table::word_list(m.table, (m.table_start + hit.0) as int).unwrap();
        assert(all == before + own);
        if all.contains(e) {
            let k = choose|k: int| 0 <= k < all.len() && all[k] == e;
            if k < before.len() {
                assert(before[k] == e);
                assert(before.contains(e));
                let (i, raw) = choose|i: int, raw: u32|
                    0 <= i < n - 1 && #[trigger] in_hit(m, hits[i], raw, e);
                assert(in_hit(m, hits[i], raw, e));
            } else {
                assert(own[k - before.len()] == e);
                let raw = list[k - before.len()];
                assert(list.contains(raw));
                assert(in_hit(m, hits[n - 1], raw, e));
            }
        }
        if exists|i: int, raw: u32| 0 <= i < n && #[trigger] in_hit(m, hits[i], raw, e) {
            let (i, raw) = choose|i: int, raw: u32|
                0 <= i < n && #[trigger] in_hit(m, hits[i], raw, e);
            if i < n - 1 {
                assert(before.contains(e));
                let k = choose|k: int| 0 <= k < before.len() && before[k] == e;
                assert(all[k] == e);
            } else {
                let k = choose|k: int| 0 <= k < list.len() && list[k] == raw;
                assert(own[k] == e);
                assert(all[before.len() + k] == e);
            }
        }
    }
}

/// The entry is that of a word that is listed for a hit.
pub open spec fn in_hit(m: LexiconModel, hit: (nat, nat), raw: u32, e: LexiconEntry) -> bool {
    &&& word_id_table::word_list(m.table, (m.table_start + hit.0) as int) matches Some(list)
    &&& list.contains(raw)
    &&& e == (LexiconEntry { word_id: WordId::of(m.id, raw), end: hit.1 as usize })
}

/// The entry is that of a word whose surface is `input[offset..end]`.
pub open spec fn is_word_at(
    m: LexiconModel,
    input: Seq<u8>,
    offset: nat,
    end: nat,
    raw: u32,
    e: LexiconEntry,
) -> bool {
    &&& offset <= end <= input.len()
    &&& is_listed(m, input.subrange(offset as int, end as int), raw)
    &&& e == (LexiconEntry { word_id: WordId::of(m.id, raw), end: end as usize })
}

/// A lookup finds exactly the words whose surfaces are prefixes of `input[offset..]`, with the
/// ends of the prefixes.
pub proof fn law_lookup_finds_words(
    m: LexiconModel,
    input: Seq<u8>,
    offset: nat,
    e: LexiconEntry,
)
    requires
        offset <= input.len(),
        m.lookup(input, offset) is Some,
    ensures
        m.lookup(input, offset).unwrap().contains(e) <==> exists|end: nat, raw: u32| #[trigger]
            is_word_at(m, input, offset, end, raw, e),
{
    let hits = m.trie.hits(input, offset).unwrap();
    law_hits_are_stored(m.trie, input, offset);
    lemma_entries_listed(m, hits, hits.len(), e);
    if m.lookup(input, offset).unwrap().contains(e) {
        let (i, raw) = choose|i: int, raw: u32|
            0 <= i < hits.len() && #[trigger] in_hit(m, hits[i], raw, e);
        assert(hits.contains((hits[i].0, hits[i].1)));
        assert(is_word_at(m, input, offset, hits[i].1, raw, e));
    }
    if exists|end: nat, raw: u32| #[trigger] is_word_at(m, input, offset, end, raw, e) {
        let (end, raw) = choose|end: nat, raw: u32| #[trigger]
            is_word_at(m, input, offset, end, raw, e);
        let place = m.trie.stored(input.subrange(offset as int, end as int)).unwrap();
        assert(hits.contains((place, end)));
        let i = choose|i: int| 0 <= i < hits.len() && hits[i] == (place, end);
        assert(in_hit(m, hits[i], raw, e));
    }
}

/// Ordered hits with the same members are the same.
proof fn lemma_same_members(a: Seq<(nat, nat)>, b: Seq<(nat, nat)>, offset: nat, len: nat)
    requires
        ordered(a, offset, len),
        ordered(b, offset, len),
        forall|hit: (nat, nat)| #[trigger] a.contains(hit) <==> b.contains(hit),
    ensures
        a == b,
    decreases a.len(),
{
    if a.len() == 0 {
        if b.len() > 0 {
            assert(b.contains(b[0]));
            assert(a.contains(b[0]));
        }
        assert(a =~= b);
    } else {
        assert(a.contains(a.last()));
        assert(b.contains(a.last()));
        assert(b.contains(b.last()));
        assert(a.contains(b.last()));
        let i = choose|i: int| 0 <= i < b.len() && b[i] == a.last();
        let j = choose|j: int| 0 <= j < a.len() && a[j] == b.last();
        assert(a.last() == b.last());
        let x = a.drop_last();
        let y = b.drop_last();
        assert forall|hit: (nat, nat)| #[trigger] x.contains(hit) <==> y.contains(hit) by {
            if x.contains(hit) {
                let k = choose|k: int| 0 <= k < x.len() && x[k] == hit;
                assert(a[k] == hit);
                assert(a.contains(hit));
                let l = choose|l: int| 0 <= l < b.len() && b[l] == hit;
                assert(hit.1 < a.last().1);
                assert(y[l] == hit);
            }
            if y.contains(hit) {
                let k = choose|k: int| 0 <= k < y.len() && y[k] == hit;
                assert(b[k] == hit);
                assert(b.contains(hit));
                assert(a.contains(hit));
                let l = choose|l: int| 0 <= l < a.len() && a[l] == hit;
                assert(hit.1 < b.last().1);
                assert(x[l] == hit);
            }
        }
        lemma_same_members(x, y, offset, len);
        assert(a =~= x.push(a.last()));
        assert(b =~= y.push(b.last()));
    }
}

/// Two tries that hold the same for every prefix of `input[offset..]` find the same.
pub proof fn law_same_keys_same_hits(
    a: TrieVariantModel,
    b: TrieVariantModel,
    input: Seq<u8>,
    offset: nat,
)
    requires
        offset <= input.len(),
        a.hits(input, offset) is Some,
        b.hits(input, offset) is Some,
        forall|end: nat|
            offset <= end <= input.len() ==> a.stored(
                #[trigger] input.subrange(offset as int, end as int),
            ) == b.stored(input.subrange(offset as int, end as int)),
    ensures
        a.hits(input, offset) == b.hits(input, offset),
{
    law_hits_are_stored(a, input, offset);
    law_hits_are_stored(b, input, offset);
    let x = a.hits(input, offset).unwrap();
    let y = b.hits(input, offset).unwrap();
    assert forall|hit: (nat, nat)| #[trigger] x.contains(hit) <==> y.contains(hit) by {
        let (place, end) = hit;
        if x.contains(hit) {
            assert(x.contains((place, end)));
            assert(a.stored(input.subrange(offset as int, end as int)) == Some(place));
            assert(y.contains((place, end)));
        }
        if y.contains(hit) {
            assert(y.contains((place, end)));
            assert(b.stored(input.subrange(offset as int, end as int)) == Some(place));
            assert(x.contains((place, end)));
        }
    }
    lemma_same_members(x, y, offset, input.len());
}

/// The entries for the words of a list: the words of the lexicon with the numbers of the list, all
/// with the same end.
pub open spec fn entries_for(id: u8, list: Seq<u32>, end: nat) -> Seq<LexiconEntry> {
    list.map_values(
        |raw: u32|
            LexiconEntry {
                word_id: WordId { raw: (id * 0x1000_0000 + raw) as u32 },
                end: end as usize,
            },
    )
}

/// `part` holds the entries for the words of the list that a hit leads to.
pub open spec fn is_part(m: LexiconModel, hit: (nat, nat), part: Seq<LexiconEntry>) -> bool {
    &&& word_id_table::word_list(m.table, (m.table_start + hit.0) as int) matches Some(list)
    &&& part == entries_for(m.id, list, hit.1)
}

/// The entries for the first hits are those of their lists.
proof fn lemma_entries_in_order(
    m: LexiconModel,
    hits: Seq<(nat, nat)>,
    parts: Seq<Seq<LexiconEntry>>,
    n: nat,
)
    requires
        n <= hits.len() == parts.len(),
        m.entries(hits, n) is Some,
        forall|i: int|
            0 <= i < hits.len() ==> is_part(m, #[trigger] hits[i], parts[i]),
    ensures
        m.entries(hits, n) == Some(parts.take(n as int).flatten()),
    decreases n,
{
    let first = parts.take(n as int);
    first.lemma_flatten_and_flatten_alt_are_equivalent();
    if n > 0 {
        lemma_entries_in_order(m, hits, parts, (n - 1) as nat);
        first.drop_last().lemma_flatten_and_flatten_alt_are_equivalent();
        assert(first.drop_last() =~= parts.take(n - 1));
        let hit = hits[n - 1];
        let own = m.hit_entries(hit).unwrap();
        assert(own =~= parts[n - 1]);
        assert(first.last() == parts[n - 1]);
    } else {
        assert(first =~= Seq::<Seq<LexiconEntry>>::empty());
        assert(first.flatten_alt() =~= Seq::<LexiconEntry>::empty());
    }
}

/// A lookup gives the words of the lists that the stored prefixes lead to, the shortest prefix
/// first, and the words of a list in the order of the list.
pub proof fn law_entries_follow_prefixes_and_lists(
    m: LexiconModel,
    input: Seq<u8>,
    offset: nat,
    hits: Seq<(nat, nat)>,
    parts: Seq<Seq<LexiconEntry>>,
)
    requires
        offset <= input.len(),
        m.lookup(input, offset) is Some,
        m.trie.hits(input, offset) == Some(hits),
        hits.len() == parts.len(),
        forall|i: int|
            0 <= i < hits.len() ==> is_part(m, #[trigger] hits[i], parts[i]),
    ensures
        m.lookup(input, offset) == Some(parts.flatten()),
        forall|i: int, j: int|
            0 <= i < j < hits.len() ==> (#[trigger] hits[i]).1 < (#[trigger] hits[j]).1,
{
    law_hits_are_stored(m.trie, input, offset);
    lemma_entries_in_order(m, hits, parts, hits.len());
    assert(parts.take(hits.len() as int) =~= parts);
}

} // verus!
