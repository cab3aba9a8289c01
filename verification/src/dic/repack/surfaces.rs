//! The surfaces of a lexicon, with the places of their words in the table of word lists.

use vstd::prelude::*;
use vstd::utf8;

use crate::analysis::morpheme;
use crate::dic::lexicon::cost;
use crate::dic::lexicon::word_infos::WordInfo;
use crate::dic::lexicon::{Lexicon, LexiconModel, TrieVariantModel};
use crate::dic::subset::InfoSubset;
use crate::error::{SudachiError, SudachiResult};

verus! {

/// `a` and `b` have the same first `i` bytes, and differ behind them so that `a` comes first.
pub open spec fn differs_at(a: Seq<u8>, b: Seq<u8>, i: int) -> bool {
    &&& 0 <= i <= a.len()
    &&& i < b.len()
    &&& forall|k: int| 0 <= k < i ==> a[k] == b[k]
    &&& i == a.len() || a[i] < b[i]
}

/// `a` comes before `b` in the order of byte strings.
pub open spec fn precedes(a: Seq<u8>, b: Seq<u8>) -> bool {
    exists|i: int| #[trigger] differs_at(a, b, i)
}

/// The order of byte strings is transitive.
pub proof fn lemma_precedes_transitive(a: Seq<u8>, b: Seq<u8>, c: Seq<u8>)
    requires
        precedes(a, b),
        precedes(b, c),
    ensures
        precedes(a, c),
{
    let i = choose|i: int| #[trigger] differs_at(a, b, i);
    let j = choose|j: int| #[trigger] differs_at(b, c, j);
    if i <= j {
        assert(differs_at(a, c, i));
    } else {
        assert(differs_at(a, c, j));
    }
}

/// No byte string comes before itself.
pub proof fn lemma_precedes_irreflexive(a: Seq<u8>)
    ensures
        !precedes(a, a),
{
}

/// How two byte strings compare.
#[derive(Debug, Clone, Copy, PartialEq, Eq, Structural)]
enum Order {
    Before,
    Same,
    Behind,
}

/// Compares two byte strings.
fn order_of(a: &[u8], b: &[u8]) -> (order: Order)
    ensures
        match order {
            Order::Before => precedes(a@, b@),
            Order::Same => a@ == b@,
            Order::Behind => precedes(b@, a@),
        },
{
    let mut i: usize = 0;
    while i < a.len() && i < b.len()
        invariant
            i <= a@.len(),
            i <= b@.len(),
            forall|k: int| 0 <= k < i ==> a@[k] == b@[k],
        decreases a@.len() - i,
    {
        if a[i] < b[i] {
            assert(differs_at(a@, b@, i as int));
            return Order::Before;
        }
        if b[i] < a[i] {
            assert(differs_at(b@, a@, i as int));
            return Order::Behind;
        }
        i = i + 1;
    }
    if i < b.len() {
        assert(differs_at(a@, b@, i as int));
        Order::Before
    } else if i < a.len() {
        assert(differs_at(b@, a@, i as int));
        Order::Behind
    } else {
        assert(a@ =~= b@);
        Order::Same
    }
}

/// The bytes of texts determine the texts.
proof fn lemma_bytes_determine_text(a: Seq<char>, b: Seq<char>)
    requires
        utf8::encode_utf8(a) == utf8::encode_utf8(b),
    ensures
        a == b,
{
    utf8::encode_utf8_decode_utf8(a);
    utf8::encode_utf8_decode_utf8(b);
}

/// Surfaces in the order of their bytes, each once, with a number for each.
pub struct SurfaceTable {
    entries: Vec<(String, u32)>,
}

/// The surfaces of entries.
spec fn keys_of(entries: Seq<(String, u32)>) -> Seq<Seq<char>> {
    entries.map_values(|entry: (String, u32)| entry.0@)
}

/// The texts are in the order of their bytes, and none occurs twice.
pub open spec fn ascending(keys: Seq<Seq<char>>) -> bool {
    forall|i: int, j: int|
        0 <= i < j < keys.len() ==> precedes(
            utf8::encode_utf8(#[trigger] keys[i]),
            utf8::encode_utf8(#[trigger] keys[j]),
        )
}

/// The texts one behind the other, a line break between them.
pub open spec fn lines_of(keys: Seq<Seq<char>>, n: nat) -> Seq<char>
    decreases n,
{
    if n == 0 {
        Seq::empty()
    } else if n == 1 {
        keys[0]
    } else {
        lines_of(keys, (n - 1) as nat).push('\n') + keys[n - 1]
    }
}

impl SurfaceTable {
    /// The surfaces in their order.
    pub closed spec fn keys(self) -> Seq<Seq<char>> {
        keys_of(self.entries@)
    }

    /// The number of each surface.
    pub closed spec fn view(self) -> Map<Seq<char>, u32> {
        Map::new(
            |key: Seq<char>| self.keys().contains(key),
            |key: Seq<char>| self.entries@[self.keys().index_of(key)].1,
        )
    }

    /// The surfaces are in order.
    pub open spec fn wf(self) -> bool {
        ascending(self.keys())
    }

    /// The surfaces of the table are those that have a number.
    pub proof fn law_keys_have_numbers(self)
        ensures
            forall|key: Seq<char>| #[trigger]
                self@.dom().contains(key) <==> self.keys().contains(key),
    {
    }

    /// The number at a place is that of the surface there.
    proof fn lemma_entry(self, i: int)
        requires
            self.wf(),
            0 <= i < self.entries@.len(),
        ensures
            self.keys()[i] == self.entries@[i].0@,
            self@.dom().contains(self.keys()[i]),
            self@[self.keys()[i]] == self.entries@[i].1,
    {
        let keys = self.keys();
        let j = keys.index_of(keys[i]);
        assert(keys.contains(keys[i]));
        assert(keys[j] == keys[i]);
        lemma_precedes_irreflexive(utf8::encode_utf8(keys[i]));
        if i < j {
            assert(precedes(utf8::encode_utf8(keys[i]), utf8::encode_utf8(keys[j])));
        } else if j < i {
            assert(precedes(utf8::encode_utf8(keys[j]), utf8::encode_utf8(keys[i])));
        }
    }

    /// A table without surfaces.
    pub fn new() -> (table: SurfaceTable)
        ensures
            table.wf(),
            table@ == Map::<Seq<char>, u32>::empty(),
    {
        let table = SurfaceTable { entries: Vec::new() };
        assert(table@ =~= Map::<Seq<char>, u32>::empty());
        table
    }

    /// Number of surfaces.
    pub fn len(&self) -> (n: usize)
        ensures
            n == self.keys().len(),
    {
        self.entries.len()
    }

    /// The place of a surface or, where the table lacks it, the place where it belongs, and
    /// whether the table has it.
    fn place(&self, surface: &str) -> (res: (usize, bool))
        requires
            self.wf(),
        ensures
            res.0 <= self.keys().len(),
            res.1 ==> res.0 < self.keys().len() && self.keys()[res.0 as int] == surface@,
            !res.1 ==> {
                &&& forall|k: int|
                    0 <= k < res.0 ==> precedes(
                        utf8::encode_utf8(#[trigger] self.keys()[k]),
                        utf8::encode_utf8(surface@),
                    )
                &&& forall|k: int|
                    res.0 <= k < self.keys().len() ==> precedes(
                        utf8::encode_utf8(surface@),
                        utf8::encode_utf8(#[trigger] self.keys()[k]),
                    )
            },
    {
        let ghost keys = self.keys();
        let ghost own = utf8::encode_utf8(surface@);
        let mut low: usize = 0;
        let mut high: usize = self.entries.len();
        while low < high
            invariant
                low <= high <= keys.len(),
                keys == self.keys(),
                self.wf(),
                own == utf8::encode_utf8(surface@),
                forall|k: int|
                    0 <= k < low ==> precedes(utf8::encode_utf8(#[trigger] keys[k]), own),
                forall|k: int|
                    high <= k < keys.len() ==> precedes(own, utf8::encode_utf8(#[trigger] keys[k])),
            decreases high - low,
        {
            let middle: usize = low + (high - low) / 2;
            let ghost there = utf8::encode_utf8(keys[middle as int]);
            assert(keys[middle as int] == self.entries@[middle as int].0@);
            match order_of(self.entries[middle].0.as_str().as_bytes(), surface.as_bytes()) {
                Order::Same => {
                    proof {
                        lemma_bytes_determine_text(keys[middle as int], surface@);
                    }
                    return (middle, true);
                },
                Order::Before => {
                    proof {
                        assert forall|k: int| 0 <= k < middle + 1 implies precedes(
                            utf8::encode_utf8(#[trigger] keys[k]),
                            own,
                        ) by {
                            if k < middle {
                                lemma_precedes_transitive(
                                    utf8::encode_utf8(keys[k]),
                                    there,
                                    own,
                                );
                            }
                        }
                    }
                    low = middle + 1;
                },
                Order::Behind => {
                    proof {
                        assert forall|k: int| middle <= k < keys.len() implies precedes(
                            own,
                            utf8::encode_utf8(#[trigger] keys[k]),
                        ) by {
                            if k > middle {
                                lemma_precedes_transitive(
                                    own,
                                    there,
                                    utf8::encode_utf8(keys[k]),
                                );
                            }
                        }
                    }
                    high = middle;
                },
            }
        }
        (low, false)
    }

    /// The number of a surface, if the table has it.
    pub fn get(&self, surface: &str) -> (number: Option<u32>)
        requires
            self.wf(),
        ensures
            number == if self@.dom().contains(surface@) {
                Some(self@[surface@])
            } else {
                None
            },
    {
        let (place, found) = self.place(surface);
        if found {
            proof {
                self.lemma_entry(place as int);
            }
            Some(self.entries[place].1)
        } else {
            proof {
                if self.keys().contains(surface@) {
                    let k = self.keys().index_of(surface@);
                    assert(self.keys()[k] == surface@);
                    lemma_precedes_irreflexive(utf8::encode_utf8(surface@));
                }
            }
            None
        }
    }

    /// Gives a number to a surface that the table lacks.
    pub fn insert(&mut self, surface: String, number: u32)
        requires
            old(self).wf(),
            !old(self)@.dom().contains(surface@),
        ensures
            final(self).wf(),
            final(self)@ == old(self)@.insert(surface@, number),
    {
        let ghost before = *self;
        let ghost key = surface@;
        let (place, found) = self.place(surface.as_str());
        proof {
            if found {
                self.lemma_entry(place as int);
            }
        }
        self.entries.insert(place, (surface, number));
        proof {
            let was = before.keys();
            let keys = self.keys();
            assert(keys =~= was.insert(place as int, key));
            assert(ascending(keys)) by {
                assert forall|i: int, j: int| 0 <= i < j < keys.len() implies precedes(
                    utf8::encode_utf8(#[trigger] keys[i]),
                    utf8::encode_utf8(#[trigger] keys[j]),
                ) by {
                    let old_i = if i < place { i } else { i - 1 };
                    let old_j = if j < place { j } else { j - 1 };
                    if i == place {
                        assert(keys[j] == was[old_j]);
                    } else if j == place {
                        assert(keys[i] == was[old_i]);
                    } else {
                        assert(keys[i] == was[old_i] && keys[j] == was[old_j]);
                    }
                }
            }
            let now = self@;
            let expected = before@.insert(key, number);
            assert forall|k: Seq<char>| #[trigger]
                now.dom().contains(k) == expected.dom().contains(k) by {
                if was.contains(k) {
                    let i = was.index_of(k);
                    assert(was[i] == k);
                    assert(keys[if i < place { i } else { i + 1 }] == k);
                }
                assert(keys[place as int] == key);
                if keys.contains(k) && k != key {
                    let i = keys.index_of(k);
                    assert(keys[i] == k);
                    assert(was[if i < place { i } else { i - 1 }] == k);
                }
            }
            assert forall|k: Seq<char>| now.dom().contains(k) implies #[trigger] now[k]
                == expected[k] by {
                let i = keys.index_of(k);
                assert(keys[i] == k);
                self.lemma_entry(i);
                if i != place {
                    let j = if i < place { i } else { i - 1 };
                    before.lemma_entry(j);
                    assert(self.entries@[i] == before.entries@[j]);
                    if k == key {
                        lemma_precedes_irreflexive(utf8::encode_utf8(k));
                    }
                }
            }
            assert(now =~= expected);
        }
    }

    /// The surfaces in their order, a line break between them.
    pub fn lines(&self) -> (text: String)
        ensures
            text@ == lines_of(self.keys(), self.keys().len()),
    {
        let ghost keys = self.keys();
        let mut text: String = String::new();
        let mut i: usize = 0;
        while i < self.entries.len()
            invariant
                i <= keys.len() == self.entries@.len(),
                keys == self.keys(),
                text@ == lines_of(keys, i as nat),
            decreases keys.len() - i,
        {
            assert(keys[i as int] == self.entries@[i as int].0@);
            if i > 0 {
                text.push('\n');
            }
            text.append(self.entries[i].0.as_str());
            i = i + 1;
            assert(text@ =~= lines_of(keys, i as nat));
        }
        text
    }
}

/// The place of the words of a surface in the table of word lists, if the trie holds the surface.
pub open spec fn place_of(m: LexiconModel, surface: Seq<char>) -> Option<u32> {
    match m.trie {
        TrieVariantModel::Yada(t) => t.stored(utf8::encode_utf8(surface)),
        TrieVariantModel::Xcdat(_) => None,
    }
}

/// One of the first `n` words has the surface.
pub open spec fn is_surface(m: LexiconModel, n: u32, surface: Seq<char>) -> bool {
    exists|word_id: u32| word_id < n && #[trigger] cost::has_surface(m, word_id, surface)
}

/// The table holds the surfaces of the first `n` words that the trie holds, with the places of
/// their words.
pub open spec fn are_collected(m: LexiconModel, n: u32, table: Map<Seq<char>, u32>) -> bool {
    forall|surface: Seq<char>|
        {
            &&& (#[trigger] table.dom().contains(surface)) <==> is_surface(m, n, surface)
                && place_of(m, surface) is Some
            &&& table.dom().contains(surface) ==> place_of(m, surface) == Some(table[surface])
        }
}

/// Collecting the surface of a word fails with `e`: its record cannot be read, or the trie leads
/// out of its units.
pub open spec fn collecting_fails(m: LexiconModel, word_id: u32, e: SudachiError) -> bool {
    let subset = InfoSubset::just_surface();
    ||| !m.infos.answers(word_id, subset) && e.model() == morpheme::broken()
    ||| m.infos.may_fail_with(word_id, subset, e)
    ||| e.model() == morpheme::broken() && exists|surface: Seq<char>| #[trigger]
        cost::has_surface(m, word_id, surface) && !searchable(m, surface)
}

/// The trie can be searched for a surface.
pub open spec fn searchable(m: LexiconModel, surface: Seq<char>) -> bool {
    m.trie matches TrieVariantModel::Yada(t) && t.hits(utf8::encode_utf8(surface), 0) is Some
}

/// Collects the surfaces of a lexicon, each once, with the places of their words in the table of
/// word lists. Surfaces that the trie does not hold are left out.
pub fn collect_surfaces(lexicon: &Lexicon) -> (res: SudachiResult<SurfaceTable>)
    ensures
        match res {
            Ok(table) => table.wf() && are_collected(
                lexicon.model(),
                lexicon.model().words,
                table@,
            ),
            Err(e) => exists|word_id: u32|
                word_id < lexicon.model().words && #[trigger] collecting_fails(
                    lexicon.model(),
                    word_id,
                    e,
                ),
        },
{
    let ghost m = lexicon.model();
    let words: u32 = lexicon.size();
    let mut table: SurfaceTable = SurfaceTable::new();
    let mut word_id: u32 = 0;
    while word_id < words
        invariant
            word_id <= words == m.words,
            m == lexicon.model(),
            table.wf(),
            are_collected(m, word_id, table@),
        decreases words - word_id,
    {
        let info: WordInfo = match lexicon.checked_word_info(word_id, InfoSubset::surface()) {
            Some(Ok(info)) => info,
            Some(Err(e)) => {
                assert(collecting_fails(m, word_id, e));
                return Err(e);
            },
            None => {
                let e: SudachiError = SudachiError::InvalidDictionaryGrammar;
                assert(collecting_fails(m, word_id, e));
                return Err(e);
            },
        };
        let ghost surface = info.model().surface;
        let ghost before = table@;
        assert(cost::has_surface(m, word_id, surface));
        if table.get(info.surface()).is_none() {
            match lexicon.checked_lookup_raw(info.surface().as_bytes(), 0) {
                None => {
                    let e: SudachiError = SudachiError::InvalidDictionaryGrammar;
                    assert(collecting_fails(m, word_id, e));
                    return Err(e);
                },
                Some(found) => {
                    assert(found == place_of(m, surface)) by {
                        let key = utf8::encode_utf8(surface);
                        assert(key.subrange(0, key.len() as int) =~= key);
                    }
                    if let Some(place) = found {
                        table.insert(info.surface().to_owned(), place);
                    }
                },
            }
        }
        proof {
            lemma_one_more(m, word_id, surface);
            assert forall|other: Seq<char>| {
                &&& (#[trigger] table@.dom().contains(other)) <==> is_surface(
                    m,
                    (word_id + 1) as u32,
                    other,
                ) && place_of(m, other) is Some
                &&& table@.dom().contains(other) ==> place_of(m, other) == Some(table@[other])
            } by {
                assert(before.dom().contains(other) <==> is_surface(m, word_id, other) && place_of(
                    m,
                    other,
                ) is Some);
                assert(is_surface(m, (word_id + 1) as u32, other) <==> is_surface(
                    m,
                    word_id,
                    other,
                ) || other == surface);
            }
        }
        word_id = word_id + 1;
    }
    Ok(table)
}

/// The surfaces of one more word.
proof fn lemma_one_more(m: LexiconModel, n: u32, surface: Seq<char>)
    requires
        n < u32::MAX,
        cost::has_surface(m, n, surface),
    ensures
        forall|other: Seq<char>| #[trigger]
            is_surface(m, (n + 1) as u32, other) <==> is_surface(m, n, other) || other == surface,
{
    assert forall|other: Seq<char>| #[trigger]
        is_surface(m, (n + 1) as u32, other) <==> is_surface(m, n, other) || other == surface by {
        if is_surface(m, (n + 1) as u32, other) {
            let word_id = choose|word_id: u32|
                word_id < n + 1 && #[trigger] cost::has_surface(m, word_id, other);
            if word_id == n {
                assert(other == surface);
            }
        }
        if is_surface(m, n, other) {
            let word_id = choose|word_id: u32|
                word_id < n && #[trigger] cost::has_surface(m, word_id, other);
            assert(word_id < n + 1);
        }
        assert(cost::has_surface(m, n, surface));
    }
}

/// The lines of surfaces are each surface with a line break behind it, without the last break.
pub proof fn law_each_surface_has_its_line(keys: Seq<Seq<char>>, n: nat)
    requires
        0 < n <= keys.len(),
    ensures
        lines_of(keys, n).push('\n') == keys.take(n as int).map_values(
            |key: Seq<char>| key.push('\n'),
        ).flatten(),
    decreases n,
{
    let lines = keys.take(n as int).map_values(|key: Seq<char>| key.push('\n'));
    lines.lemma_flatten_and_flatten_alt_are_equivalent();
    lines.drop_last().lemma_flatten_and_flatten_alt_are_equivalent();
    assert(lines.last() == keys[n - 1].push('\n'));
    if n == 1 {
        assert(lines.drop_last() =~= Seq::<Seq<char>>::empty());
        assert(lines.drop_last().flatten_alt() =~= Seq::<char>::empty());
        assert(lines.flatten_alt() =~= keys[0].push('\n'));
    } else {
        law_each_surface_has_its_line(keys, (n - 1) as nat);
        let before = keys.take(n - 1).map_values(|key: Seq<char>| key.push('\n'));
        assert(lines.drop_last() =~= before);
        assert(lines_of(keys, n).push('\n') =~= lines_of(keys, (n - 1) as nat).push('\n')
            + keys[n - 1].push('\n'));
    }
}

} // verus!
