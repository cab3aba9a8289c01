//! The analysis of texts.

use vstd::prelude::*;
use vstd::utf8;

use crate::analysis::candidates;
use crate::analysis::candidates::Node;
use crate::analysis::input;
use crate::analysis::input::{InputText, TextModel, MAX_LENGTH};
use crate::analysis::lattice;
use crate::analysis::lattice::Lattice;
use crate::analysis::mode::Mode;
use crate::analysis::morpheme;
use crate::analysis::morpheme::{Morpheme, MorphemeModel};
use crate::dic::grammar::GrammarModel;
use crate::dic::lexicon::word_infos::WordInfo;
use crate::dic::subset::InfoSubset;
use crate::dic::{LoadedDictionary, LoadedModel};
use crate::error;
use crate::error::{SudachiError, SudachiResult};

verus! {

/// What finding the cheapest way through a text comes to: there is an error where a word ends
/// and none begins, and another one where the dictionary is broken. Of several cheapest ways the
/// one that the lattice keeps is taken.
pub open spec fn way_outcome(
    m: LoadedModel,
    t: TextModel,
    res: Result<Seq<Node>, error::ErrorModel>,
) -> bool {
    if t.chars.len() == 0 {
        res == Ok::<Seq<Node>, error::ErrorModel>(Seq::empty())
    } else {
        match lattice::lattice_of(m, t) {
            None => res == Err::<Seq<Node>, error::ErrorModel>(
                error::ErrorModel::InvalidDictionaryGrammar,
            ),
            Some(Err(_)) => res == Err::<Seq<Node>, error::ErrorModel>(
                error::ErrorModel::EosBosDisconnect,
            ),
            Some(Ok(nodes)) => {
                &&& res matches Ok(way)
                &&& lattice::is_best_way(m.grammar, nodes, way, t.chars.len())
                &&& way == lattice::kept_way(m.grammar, nodes, t.chars.len())
            },
        }
    }
}

/// What finding the cheapest way gave.
pub open spec fn found_way(res: SudachiResult<Vec<Node>>) -> Result<
    Seq<Node>,
    error::ErrorModel,
> {
    match res {
        Ok(way) => Ok(way@),
        Err(e) => Err(e.model()),
    }
}

/// Where the lattice of more characters can be had, that of fewer can.
proof fn lemma_lattice_prefix(m: LoadedModel, t: TextModel, p: nat, more: nat)
    requires
        p <= more,
    ensures
        lattice::lattice_up_to(m, t, more) is Some ==> lattice::lattice_up_to(m, t, p) is Some,
        lattice::lattice_up_to(m, t, p) matches Some(Err(_)) ==> lattice::lattice_up_to(
            m,
            t,
            more,
        ) matches Some(Err(_)),
    decreases more,
{
    if p < more {
        lemma_lattice_prefix(m, t, p, (more - 1) as nat);
    }
}

/// Finds the cheapest way through a text.
pub fn find_way(dict: &LoadedDictionary, text: &InputText) -> (res: SudachiResult<Vec<Node>>)
    requires
        dict.wf(),
        text.wf(),
    ensures
        way_outcome(dict.model(), text.model(), found_way(res)),
{
    let ghost m = dict.model();
    let ghost g = m.grammar;
    let ghost t = text.model();
    let n: usize = text.len();
    if n == 0 {
        return Ok(Vec::new());
    }
    if dict.grammar.connect.num_left() == 0 || dict.grammar.connect.num_right() == 0 {
        return Err(SudachiError::InvalidDictionaryGrammar);
    }
    proof {
        text.lemma_length();
    }
    let mut lattice: Lattice = Lattice::new(n, Ghost(g));
    let ghost mut ahead: nat = 0;
    let mut p: usize = 0;
    while p < n
        invariant
            p <= n == t.chars.len(),
            dict.wf(),
            text.wf(),
            m == dict.model(),
            g == m.grammar,
            g.columns > 0,
            g.rows > 0,
            t == text.model(),
            lattice.wf(g, p as nat),
            lattice.text_len() == n,
            lattice::lattice_up_to(m, t, p as nat) == Some(
                Ok::<Seq<Node>, ()>(lattice.nodes()),
            ),
            p <= ahead <= n,
            lattice::reachable(lattice.nodes(), ahead),
        decreases n - p,
    {
        proof {
            lemma_lattice_prefix(m, t, (p + 1) as nat, n as nat);
        }
        if lattice.has_previous_node(p, Ghost(g)) {
            let found: Vec<Node> = match candidates::find_candidates(dict, text, p) {
                Some(found) => found,
                None => {
                    return Err(SudachiError::InvalidDictionaryGrammar);
                },
            };
            if found.len() == 0 {
                return Err(SudachiError::EosBosDisconnect);
            }
            let ghost before = lattice.nodes();
            proof {
                lattice.lemma_wf_grows(g, p as nat);
                assert(before + found@.take(0) =~= before);
            }
            let mut i: usize = 0;
            while i < found.len()
                invariant
                    i <= found@.len(),
                    dict.wf(),
                    m == dict.model(),
                    g == m.grammar,
                    p < n,
                    lattice.wf(g, (p + 1) as nat),
                    lattice.text_len() == n,
                    lattice.nodes() == before + found@.take(i as int),
                    lattice::reachable(before, p as nat),
                    candidates::proper_nodes(g, p as nat, n as nat, found@),
                decreases found@.len() - i,
            {
                let node: Node = found[i];
                proof {
                    assert(lattice.nodes().take(before.len() as int) =~= before);
                    lemma_reachable_grows(before, lattice.nodes(), p as nat);
                }
                lattice.insert(dict, node);
                i = i + 1;
                assert(found@.take(i as int) =~= found@.take(i - 1).push(node));
                assert(lattice.nodes() =~= before + found@.take(i as int));
            }
            proof {
                assert(found@.take(i as int) =~= found@);
                if ahead == p {
                    ahead = found@[0].end as nat;
                    assert(lattice.nodes()[before.len() as int] == found@[0]);
                } else {
                    assert(lattice.nodes().take(before.len() as int) =~= before);
                    lemma_reachable_grows(before, lattice.nodes(), ahead);
                }
            }
        } else {
            proof {
                lattice.lemma_wf_grows(g, p as nat);
            }
        }
        p = p + 1;
    }
    Ok(lattice.best_way(dict))
}

/// What can be reached by some words can be reached by more.
proof fn lemma_reachable_grows(nodes: Seq<Node>, more: Seq<Node>, p: nat)
    requires
        lattice::reachable(nodes, p),
        nodes.len() <= more.len(),
        more.take(nodes.len() as int) == nodes,
    ensures
        lattice::reachable(more, p),
{
    if p != 0 {
        let k = choose|k: int| 0 <= k < nodes.len() && (#[trigger] nodes[k]).end == p;
        assert(more.take(nodes.len() as int)[k] == more[k]);
    }
}

/// The groups of words that the first `n` words of a way are split into, one behind the other.
pub open spec fn joined(groups: Seq<Seq<MorphemeModel>>, n: nat) -> Seq<MorphemeModel>
    decreases n,
{
    if n == 0 {
        Seq::empty()
    } else {
        joined(groups, (n - 1) as nat) + groups[n - 1]
    }
}

/// `units` are what a word of a way is split into.
pub open spec fn node_splits(
    m: LoadedModel,
    t: TextModel,
    node: Node,
    mode: Mode,
    units: Seq<MorphemeModel>,
) -> bool {
    exists|split: bool| #[trigger]
        morpheme::word_splits(
            m,
            t,
            node.begin as nat,
            node.end as nat,
            node.word_id,
            mode,
            units,
            split,
        )
}

/// Splitting a word of a way fails with `e`.
pub open spec fn node_fails(
    m: LoadedModel,
    t: TextModel,
    node: Node,
    mode: Mode,
    e: SudachiError,
) -> bool {
    morpheme::word_fails(m, t, node.begin as nat, node.end as nat, node.word_id, mode, e)
}

/// `groups` are what the first words of a way are split into.
pub open spec fn are_first_groups(
    m: LoadedModel,
    t: TextModel,
    way: Seq<Node>,
    mode: Mode,
    groups: Seq<Seq<MorphemeModel>>,
) -> bool {
    &&& groups.len() <= way.len()
    &&& forall|k: int|
        0 <= k < groups.len() ==> node_splits(m, t, #[trigger] way[k], mode, groups[k])
}

/// `groups` are what the words of a way are split into.
pub open spec fn are_groups(
    m: LoadedModel,
    t: TextModel,
    way: Seq<Node>,
    mode: Mode,
    groups: Seq<Seq<MorphemeModel>>,
) -> bool {
    groups.len() == way.len() && are_first_groups(m, t, way, mode, groups)
}

/// The first words of a way are split into `groups`, and splitting the next one fails with `e`.
pub open spec fn way_fails(
    m: LoadedModel,
    t: TextModel,
    way: Seq<Node>,
    mode: Mode,
    groups: Seq<Seq<MorphemeModel>>,
    e: SudachiError,
) -> bool {
    &&& groups.len() < way.len()
    &&& are_first_groups(m, t, way, mode, groups)
    &&& node_fails(m, t, way[groups.len() as int], mode, e)
}

/// The cost of the words of a way behind the first one, and of the connections between them.
pub open spec fn inner_cost(g: GrammarModel, way: Seq<Node>) -> int {
    if way.len() == 0 {
        0
    } else {
        lattice::way_cost(g, way) - lattice::way_cost(g, way.take(1))
    }
}

/// The words lie within the text.
pub open spec fn lie_within(t: TextModel, words: Seq<MorphemeModel>) -> bool {
    forall|k: int|
        0 <= k < words.len() ==> (#[trigger] words[k]).begin <= words[k].end <= t.chars.len()
}

/// The words of an analysed text.
pub struct MorphemeList {
    input: InputText,
    words: Vec<Morpheme>,
    internal_cost: i64,
    way: Ghost<Seq<Node>>,
    groups: Ghost<Seq<Seq<MorphemeModel>>>,
}

impl MorphemeList {
    /// The text.
    pub closed spec fn text(self) -> TextModel {
        self.input.model()
    }

    /// The cheapest way through the text.
    pub closed spec fn way(self) -> Seq<Node> {
        self.way@
    }

    /// What the words of the way are split into.
    pub closed spec fn groups(self) -> Seq<Seq<MorphemeModel>> {
        self.groups@
    }

    /// The words of the list.
    pub closed spec fn words(self) -> Seq<MorphemeModel> {
        morpheme::models(self.words@)
    }

    /// The cost within the way.
    pub closed spec fn cost(self) -> int {
        self.internal_cost as int
    }

    /// The words lie within the text.
    pub closed spec fn wf(self) -> bool {
        self.input.wf() && lie_within(self.text(), self.words())
    }

    /// The list is an analysis of its text with a dictionary, in the units of a mode.
    pub open spec fn is_analysis(self, m: LoadedModel, mode: Mode) -> bool {
        &&& self.wf()
        &&& way_outcome(m, self.text(), Ok(self.way()))
        &&& are_groups(m, self.text(), self.way(), mode, self.groups())
        &&& self.words() == joined(self.groups(), self.groups().len())
        &&& self.cost() == inner_cost(m.grammar, self.way())
    }

    /// A list has no more words in its way than its text has characters, and costs of that order.
    pub proof fn lemma_bounds(self, m: LoadedModel, mode: Mode)
        requires
            self.is_analysis(m, mode),
        ensures
            self.way().len() <= self.text().chars.len() <= MAX_LENGTH,
            -0x1_0000 * MAX_LENGTH <= self.cost() <= 0x1_0000 * MAX_LENGTH,
    {
        let t = self.text();
        self.input.lemma_length();
        lemma_proper(m, t, t.chars.len());
        if t.chars.len() > 0 {
            let nodes = lattice::lattice_of(m, t).unwrap().unwrap();
            let n = self.way().len();
            lemma_way_len(m.grammar, nodes, self.way(), n - 1, t.chars.len());
            lemma_inner_cost_bound(m.grammar, self.way(), n);
        }
    }

    /// Number of words.
    pub fn len(&self) -> (n: usize)
        ensures
            n == self.words().len(),
    {
        self.words.len()
    }

    /// Word `i`.
    pub fn get(&self, i: usize) -> (word: &Morpheme)
        requires
            i < self.words().len(),
        ensures
            word.model() == self.words()[i as int],
    {
        &self.words[i]
    }

    /// The cost of the words behind the first one, and of the connections between the words.
    pub fn get_internal_cost(&self) -> (cost: i64)
        ensures
            cost == self.cost(),
    {
        self.internal_cost
    }

    /// Splits word `i` into the units of a mode. Returns the units, and whether they are others
    /// than the word itself.
    pub fn split(&self, dict: &LoadedDictionary, i: usize, mode: Mode) -> (res: SudachiResult<
        (Vec<Morpheme>, bool),
    >)
        requires
            dict.wf(),
            self.wf(),
            i < self.words().len(),
        ensures
            ({
                let word = self.words()[i as int];
                match res {
                    Ok((units, split)) => morpheme::word_splits(
                        dict.model(),
                        self.text(),
                        word.begin,
                        word.end,
                        word.word_id,
                        mode,
                        morpheme::models(units@),
                        split,
                    ),
                    Err(e) => morpheme::word_fails(
                        dict.model(),
                        self.text(),
                        word.begin,
                        word.end,
                        word.word_id,
                        mode,
                        e,
                    ),
                }
            }),
    {
        let word: &Morpheme = &self.words[i];
        assert(word.model() == self.words()[i as int]);
        morpheme::split_word(dict, &self.input, word.begin_c(), word.end_c(), word.word_id(), mode)
    }
}

/// The cost of the words of a way behind the first one, and of the connections between them.
fn internal_cost(dict: &LoadedDictionary, way: &Vec<Node>) -> (cost: i64)
    requires
        dict.wf(),
        way@.len() <= MAX_LENGTH,
        forall|k: int|
            0 <= k < way@.len() ==> {
                &&& (#[trigger] way@[k]).left_id < dict.model().grammar.rows
                &&& way@[k].right_id < dict.model().grammar.columns
            },
    ensures
        cost == inner_cost(dict.model().grammar, way@),
{
    let ghost g = dict.model().grammar;
    if way.len() == 0 {
        return 0;
    }
    let mut cost: i64 = 0;
    let mut i: usize = 1;
    while i < way.len()
        invariant
            1 <= i <= way@.len() <= MAX_LENGTH,
            dict.wf(),
            g == dict.model().grammar,
            forall|k: int|
                0 <= k < way@.len() ==> {
                    &&& (#[trigger] way@[k]).left_id < g.rows
                    &&& way@[k].right_id < g.columns
                },
            -0x1_0000 * i <= cost <= 0x1_0000 * i,
            cost == lattice::way_cost(g, way@.take(i as int)) - lattice::way_cost(
                g,
                way@.take(1),
            ),
        decreases way@.len() - i,
    {
        let left: Node = way[i - 1];
        let node: Node = way[i];
        proof {
            let part = way@.take(i + 1);
            assert(part.drop_last() =~= way@.take(i as int));
            assert(part.last() == node);
            assert(way@.take(i as int).last() == left);
        }
        let step: i64 = dict.grammar.connect.cost(left.right_id, node.left_id) as i64
            + node.cost as i64;
        cost = cost + step;
        i = i + 1;
    }
    assert(way@.take(i as int) =~= way@);
    cost
}

/// The cost of the first words of a way behind the first one is not too far from zero.
proof fn lemma_inner_cost_bound(g: GrammarModel, way: Seq<Node>, n: nat)
    requires
        1 <= n <= way.len(),
    ensures
        -0x1_0000 * n <= lattice::way_cost(g, way.take(n as int)) - lattice::way_cost(
            g,
            way.take(1),
        ) <= 0x1_0000 * n,
        way.take(way.len() as int) == way,
    decreases n,
{
    assert(way.take(way.len() as int) =~= way);
    if n > 1 {
        lemma_inner_cost_bound(g, way, (n - 1) as nat);
        assert(way.take(n as int).drop_last() =~= way.take(n - 1));
    }
}

/// A way has no more words than the text has characters, and their identifiers are in the
/// matrix.
proof fn lemma_way_len(g: GrammarModel, nodes: Seq<Node>, way: Seq<Node>, k: int, len: nat)
    requires
        lattice::is_way(nodes, way),
        lattice::proper_lattice(g, nodes, len, len),
        0 <= k < way.len(),
    ensures
        k < way[k].end,
        way[k].begin < way[k].end <= len,
        way[k].left_id < g.rows,
        way[k].right_id < g.columns,
    decreases k,
{
    assert(nodes.contains(way[k]));
    let j = choose|j: int| 0 <= j < nodes.len() && nodes[j] == way[k];
    assert(nodes[j] == way[k]);
    if k > 0 {
        lemma_way_len(g, nodes, way, k - 1, len);
    }
}

/// The words of a lattice lie within the text, are sorted and have their identifiers in the
/// matrix.
proof fn lemma_proper(m: LoadedModel, t: TextModel, p: nat)
    requires
        p <= t.chars.len() <= usize::MAX,
    ensures
        lattice::lattice_up_to(m, t, p) matches Some(Ok(nodes)) ==> lattice::proper_lattice(
            m.grammar,
            nodes,
            p,
            t.chars.len(),
        ),
    decreases p,
{
    if p > 0 {
        lemma_proper(m, t, (p - 1) as nat);
        if let Some(Ok(before)) = lattice::lattice_up_to(m, t, (p - 1) as nat) {
            if let Some(own) = candidates::candidates(m, t, (p - 1) as nat) {
                candidates::lemma_candidates_proper(m, t, (p - 1) as nat);
            }
        }
    }
}

/// What analysing a text with a dictionary may come to.
pub open spec fn tokenize_outcome(
    m: LoadedModel,
    t: TextModel,
    mode: Mode,
    res: SudachiResult<MorphemeList>,
) -> bool {
    let length = utf8::encode_utf8(t.chars).len();
    match res {
        Ok(list) => {
            &&& length <= MAX_LENGTH
            &&& list.text() == t
            &&& list.is_analysis(m, mode)
        },
        Err(e) => {
            ||| length > MAX_LENGTH && e.model() == error::ErrorModel::InputTooLong(
                length as usize,
                MAX_LENGTH,
            )
            ||| length <= MAX_LENGTH && way_outcome(m, t, Err(e.model()))
            ||| length <= MAX_LENGTH && exists|way: Seq<Node>, groups: Seq<Seq<MorphemeModel>>|
                way_outcome(m, t, Ok(way)) && #[trigger] way_fails(m, t, way, mode, groups, e)
        },
    }
}

/// Analyses a text with a dictionary, in the units of a mode.
pub fn tokenize(dict: &LoadedDictionary, text: &str, mode: Mode) -> (res: SudachiResult<
    MorphemeList,
>)
    requires
        dict.wf(),
    ensures
        tokenize_outcome(
            dict.model(),
            (TextModel { chars: text@, ranges: dict.model().grammar.ranges }),
            mode,
            res,
        ),
{
    let ghost m = dict.model();
    let input: InputText = match InputText::new(text, &dict.grammar.character_category) {
        Ok(input) => input,
        Err(e) => {
            return Err(e);
        },
    };
    let ghost t = input.model();
    proof {
        input.lemma_length();
        lemma_proper(m, t, t.chars.len());
    }
    let way: Vec<Node> = match find_way(dict, &input) {
        Ok(way) => way,
        Err(e) => {
            return Err(e);
        },
    };
    let ghost nodes = if t.chars.len() == 0 {
        Seq::empty()
    } else {
        lattice::lattice_of(m, t).unwrap().unwrap()
    };
    proof {
        assert forall|k: int| 0 <= k < way@.len() implies {
            &&& (#[trigger] way@[k]).left_id < m.grammar.rows
            &&& way@[k].right_id < m.grammar.columns
            &&& way@[k].begin <= way@[k].end <= t.chars.len()
            &&& k < t.chars.len()
        } by {
            lemma_way_len(m.grammar, nodes, way@, k, t.chars.len());
        }
        if way@.len() > 0 {
            assert(way@[way@.len() - 1].left_id < m.grammar.rows);
        }
    }
    let mut words: Vec<Morpheme> = Vec::new();
    let ghost mut groups: Seq<Seq<MorphemeModel>> = Seq::empty();
    assert(morpheme::models(words@) =~= joined(groups, 0));
    let mut i: usize = 0;
    while i < way.len()
        invariant
            i <= way@.len(),
            dict.wf(),
            input.wf(),
            m == dict.model(),
            t == input.model(),
            utf8::encode_utf8(t.chars).len() <= MAX_LENGTH,
            way_outcome(m, t, Ok(way@)),
            t == (TextModel { chars: text@, ranges: m.grammar.ranges }),
            forall|k: int|
                0 <= k < way@.len() ==> (#[trigger] way@[k]).begin <= way@[k].end <= t.chars.len(),
            groups.len() == i,
            are_first_groups(m, t, way@, mode, groups),
            morpheme::models(words@) == joined(groups, i as nat),
            lie_within(t, morpheme::models(words@)),
        decreases way@.len() - i,
    {
        let node: Node = way[i];
        match morpheme::split_word(dict, &input, node.begin, node.end, node.word_id, mode) {
            Ok((units, _split)) => {
                let mut units: Vec<Morpheme> = units;
                let ghost own = morpheme::models(units@);
                let ghost before = words@;
                words.append(&mut units);
                proof {
                    let old_groups = groups;
                    groups = groups.push(own);
                    lemma_joined_local(old_groups, groups, i as nat);
                    assert(morpheme::models(words@) =~= morpheme::models(before) + own);
                    assert(node_splits(m, t, way@[i as int], mode, own));
                    lemma_node_covers(m, t, way@[i as int], mode, own);
                }
            },
            Err(e) => {
                assert(way_fails(m, t, way@, mode, groups, e));
                return Err(e);
            },
        }
        i = i + 1;
    }
    let cost: i64 = internal_cost(dict, &way);
    Ok(
        MorphemeList {
            input,
            words,
            internal_cost: cost,
            way: Ghost(way@),
            groups: Ghost(groups),
        },
    )
}

/// Joining the first groups depends on these alone.
proof fn lemma_joined_local(a: Seq<Seq<MorphemeModel>>, b: Seq<Seq<MorphemeModel>>, n: nat)
    requires
        n <= a.len(),
        n <= b.len(),
        forall|k: int| 0 <= k < n ==> a[k] == b[k],
    ensures
        joined(a, n) == joined(b, n),
    decreases n,
{
    if n > 0 {
        lemma_joined_local(a, b, (n - 1) as nat);
    }
}

/// `words` follow each other from character `begin` up to character `end` of a text, and each has
/// its part of the text as its surface.
pub open spec fn covers(t: TextModel, words: Seq<MorphemeModel>, begin: nat, end: nat) -> bool {
    &&& words.len() > 0
    &&& words[0].begin == begin
    &&& words.last().end == end
    &&& forall|k: int| 0 < k < words.len() ==> (#[trigger] words[k]).begin == words[k - 1].end
    &&& forall|k: int|
        0 <= k < words.len() ==> {
            &&& (#[trigger] words[k]).begin <= words[k].end <= t.chars.len()
            &&& words[k].surface == t.chars.subrange(words[k].begin as int, words[k].end as int)
        }
}

/// The bytes of each word are those of its characters.
pub open spec fn have_their_bytes(t: TextModel, words: Seq<MorphemeModel>) -> bool {
    forall|k: int|
        0 <= k < words.len() ==> {
            &&& (#[trigger] words[k]).begin_b == input::byte_offset(t.chars, words[k].begin)
            &&& words[k].end_b == input::byte_offset(t.chars, words[k].end)
        }
}

/// The surfaces of the first `n` words, one behind the other.
pub open spec fn surfaces(words: Seq<MorphemeModel>, n: nat) -> Seq<char>
    decreases n,
{
    if n == 0 {
        Seq::empty()
    } else {
        surfaces(words, (n - 1) as nat) + words[n - 1].surface
    }
}

/// What a word is split into covers the word.
proof fn lemma_node_covers(
    m: LoadedModel,
    t: TextModel,
    node: Node,
    mode: Mode,
    units: Seq<MorphemeModel>,
)
    requires
        node_splits(m, t, node, mode, units),
    ensures
        covers(t, units, node.begin as nat, node.end as nat),
        have_their_bytes(t, units),
        lie_within(t, units),
{
    let split = choose|split: bool| #[trigger]
        morpheme::word_splits(
            m,
            t,
            node.begin as nat,
            node.end as nat,
            node.word_id,
            mode,
            units,
            split,
        );
    let whole = choose|whole: MorphemeModel| #[trigger]
        morpheme::splits_into(
            m,
            t,
            node.begin as nat,
            node.end as nat,
            node.word_id,
            mode,
            whole,
            units,
        ) && split == (morpheme::split_of(whole.info, mode).len() > 1);
    assert(morpheme::is_morpheme(
        m,
        t,
        node.begin as nat,
        node.end as nat,
        node.word_id,
        whole,
    ));
}

/// What the first words of a way are split into covers these words.
proof fn lemma_joined_covers(
    m: LoadedModel,
    t: TextModel,
    way: Seq<Node>,
    mode: Mode,
    groups: Seq<Seq<MorphemeModel>>,
    n: nat,
)
    requires
        0 < n <= way.len(),
        are_groups(m, t, way, mode, groups),
        forall|k: int| 0 < k < way.len() ==> way[k - 1].end == (#[trigger] way[k]).begin,
    ensures
        covers(t, joined(groups, n), way[0].begin as nat, way[n - 1].end as nat),
    decreases n,
{
    let own = groups[n - 1];
    let all = joined(groups, n);
    assert(node_splits(m, t, way[n - 1], mode, own));
    lemma_node_covers(m, t, way[n - 1], mode, own);
    if n == 1 {
        assert(joined(groups, 0) =~= Seq::<MorphemeModel>::empty());
        assert(all =~= own);
    } else {
        lemma_joined_covers(m, t, way, mode, groups, (n - 1) as nat);
        let before = joined(groups, (n - 1) as nat);
        assert(all == before + own);
        assert(way[n - 2].end == way[n - 1].begin);
        assert(all.last() == own.last());
        assert forall|k: int| 0 < k < all.len() implies (#[trigger] all[k]).begin == all[k
            - 1].end by {
            if k < before.len() {
                assert(all[k] == before[k] && all[k - 1] == before[k - 1]);
            } else if k == before.len() {
                assert(all[k] == own[0] && all[k - 1] == before.last());
            } else {
                let j = k - before.len();
                assert(all[k] == own[j] && all[k - 1] == own[j - 1]);
            }
        }
        assert forall|k: int| 0 <= k < all.len() implies {
            &&& (#[trigger] all[k]).begin <= all[k].end <= t.chars.len()
            &&& all[k].surface == t.chars.subrange(all[k].begin as int, all[k].end as int)
        } by {
            if k < before.len() {
                assert(all[k] == before[k]);
            } else {
                assert(all[k] == own[k - before.len()]);
            }
        }
    }
}

/// What the first words of a way are split into has its bytes.
proof fn lemma_joined_bytes(
    m: LoadedModel,
    t: TextModel,
    way: Seq<Node>,
    mode: Mode,
    groups: Seq<Seq<MorphemeModel>>,
    n: nat,
)
    requires
        n <= way.len(),
        are_groups(m, t, way, mode, groups),
    ensures
        have_their_bytes(t, joined(groups, n)),
    decreases n,
{
    if n > 0 {
        let before = joined(groups, (n - 1) as nat);
        let own = groups[n - 1];
        assert(node_splits(m, t, way[n - 1], mode, own));
        lemma_node_covers(m, t, way[n - 1], mode, own);
        lemma_joined_bytes(m, t, way, mode, groups, (n - 1) as nat);
        let all = joined(groups, n);
        assert forall|k: int| 0 <= k < all.len() implies {
            &&& (#[trigger] all[k]).begin_b == input::byte_offset(t.chars, all[k].begin)
            &&& all[k].end_b == input::byte_offset(t.chars, all[k].end)
        } by {
            if k < before.len() {
                assert(all[k] == before[k]);
            } else {
                assert(all[k] == own[k - before.len()]);
            }
        }
    }
}

/// The surfaces of words that cover a part of a text make up that part.
proof fn lemma_surfaces(t: TextModel, words: Seq<MorphemeModel>, begin: nat, end: nat, n: nat)
    requires
        covers(t, words, begin, end),
        0 < n <= words.len(),
    ensures
        begin <= words[n - 1].end <= t.chars.len(),
        surfaces(words, n) == t.chars.subrange(begin as int, words[n - 1].end as int),
    decreases n,
{
    let word = words[n - 1];
    assert(word.surface == t.chars.subrange(word.begin as int, word.end as int));
    if n == 1 {
        assert(surfaces(words, 0) =~= Seq::<char>::empty());
        assert(surfaces(words, n) =~= word.surface);
    } else {
        lemma_surfaces(t, words, begin, end, (n - 1) as nat);
        assert(word.begin == words[n - 2].end);
        assert(surfaces(words, n) =~= t.chars.subrange(begin as int, word.end as int));
    }
}

/// The words of an analysis follow each other from the beginning of the text up to its end, and
/// their surfaces make up the text, whatever the mode. So do their bytes: the first word begins
/// at the first byte, and the last one ends behind the last byte.
pub proof fn law_words_make_up_text(list: MorphemeList, m: LoadedModel, mode: Mode)
    requires
        list.is_analysis(m, mode),
    ensures
        surfaces(list.words(), list.words().len()) == list.text().chars,
        list.text().chars.len() > 0 ==> covers(
            list.text(),
            list.words(),
            0,
            list.text().chars.len(),
        ),
        have_their_bytes(list.text(), list.words()),
        list.text().chars.len() > 0 ==> {
            &&& list.words()[0].begin_b == 0
            &&& list.words().last().end_b == utf8::encode_utf8(list.text().chars).len()
            &&& forall|k: int|
                0 < k < list.words().len() ==> (#[trigger] list.words()[k]).begin_b
                    == list.words()[k - 1].end_b
        },
        list.text().chars.len() == 0 ==> list.words().len() == 0,
{
    let t = list.text();
    let way = list.way();
    let groups = list.groups();
    lemma_joined_bytes(m, t, way, mode, groups, groups.len());
    if t.chars.len() == 0 {
        assert(joined(groups, 0) =~= Seq::<MorphemeModel>::empty());
        assert(surfaces(list.words(), 0) =~= t.chars);
    } else {
        lemma_joined_covers(m, t, way, mode, groups, way.len());
        input::lemma_byte_offset_is_length(t.chars);
        assert(list.words()[0].begin_b == input::byte_offset(t.chars, 0));
        lemma_surfaces(t, list.words(), 0, t.chars.len(), list.words().len());
        assert(t.chars.subrange(0, t.chars.len() as int) =~= t.chars);
    }
}

/// The first words of a way, unsplit.
proof fn lemma_whole_words(
    m: LoadedModel,
    t: TextModel,
    way: Seq<Node>,
    groups: Seq<Seq<MorphemeModel>>,
    n: nat,
)
    requires
        n <= way.len(),
        are_groups(m, t, way, Mode::C, groups),
    ensures
        joined(groups, n).len() == n,
        forall|k: int|
            0 <= k < n ==> morpheme::is_morpheme(
                m,
                t,
                way[k].begin as nat,
                way[k].end as nat,
                way[k].word_id,
                #[trigger] joined(groups, n)[k],
            ),
    decreases n,
{
    if n > 0 {
        lemma_whole_words(m, t, way, groups, (n - 1) as nat);
        let node = way[n - 1];
        let own = groups[n - 1];
        let before = joined(groups, (n - 1) as nat);
        let all = joined(groups, n);
        assert(node_splits(m, t, node, Mode::C, own));
        assert(all == before + own);
        assert forall|k: int| 0 <= k < n implies morpheme::is_morpheme(
            m,
            t,
            way[k].begin as nat,
            way[k].end as nat,
            way[k].word_id,
            #[trigger] all[k],
        ) by {
            if k < n - 1 {
                assert(all[k] == before[k]);
            } else {
                assert(all[k] == own[0]);
            }
        }
    }
}

/// In the longest units the words of an analysis are those of the cheapest way, each with the
/// record that the dictionary has for it.
pub proof fn law_longest_units_are_the_way(list: MorphemeList, m: LoadedModel)
    requires
        list.is_analysis(m, Mode::C),
    ensures
        list.words().len() == list.way().len(),
        forall|k: int|
            0 <= k < list.words().len() ==> morpheme::is_morpheme(
                m,
                list.text(),
                list.way()[k].begin as nat,
                list.way()[k].end as nat,
                list.way()[k].word_id,
                #[trigger] list.words()[k],
            ),
{
    lemma_whole_words(m, list.text(), list.way(), list.groups(), list.way().len());
}

/// The groups of words one behind the other are the words of all groups in order.
proof fn lemma_joined_is_flat(groups: Seq<Seq<MorphemeModel>>, n: nat)
    requires
        n <= groups.len(),
    ensures
        joined(groups, n) == groups.take(n as int).flatten(),
    decreases n,
{
    let first = groups.take(n as int);
    first.lemma_flatten_and_flatten_alt_are_equivalent();
    if n > 0 {
        lemma_joined_is_flat(groups, (n - 1) as nat);
        assert(first.drop_last() =~= groups.take(n - 1));
        first.drop_last().lemma_flatten_and_flatten_alt_are_equivalent();
        assert(first.last() == groups[n - 1]);
    }
}

/// The words of an analysis are those of the cheapest way, each one replaced by the words that
/// its record names as the units of the mode: the middle units for [`Mode::B`], the short ones
/// for [`Mode::A`], where the record names two at least. Words whose records name fewer stay, and
/// so do all words in the longest units and words that are in no dictionary.
pub proof fn law_units_are_those_of_the_records(
    list: MorphemeList,
    m: LoadedModel,
    mode: Mode,
    k: int,
    read: WordInfo,
)
    requires
        list.is_analysis(m, mode),
        0 <= k < list.way().len(),
        list.way()[k].word_id.raw < 0xf000_0000 ==> m.lexicon_set.outcome(
            list.way()[k].word_id,
            InfoSubset::uniform(true),
            Some(Ok(read)),
        ),
    ensures
        list.groups().len() == list.way().len(),
        list.words() == list.groups().flatten(),
        ({
            let node = list.way()[k];
            let stored = node.word_id.raw < 0xf000_0000;
            let ids = if stored && mode == Mode::B && read.model().b_unit_split.len() >= 2 {
                read.model().b_unit_split
            } else if stored && mode == Mode::A && read.model().a_unit_split.len() >= 2 {
                read.model().a_unit_split
            } else {
                seq![node.word_id]
            };
            morpheme::are_the_words(list.groups()[k], ids, node.begin as nat, node.end as nat)
        }),
{
    let t = list.text();
    let node = list.way()[k];
    let units = list.groups()[k];
    lemma_joined_is_flat(list.groups(), list.groups().len());
    assert(list.groups().take(list.groups().len() as int) =~= list.groups());
    assert(node_splits(m, t, node, mode, units));
    let split = choose|split: bool| #[trigger]
        morpheme::word_splits(
            m,
            t,
            node.begin as nat,
            node.end as nat,
            node.word_id,
            mode,
            units,
            split,
        );
    if node.word_id.raw < 0xf000_0000 {
        morpheme::law_split_follows_the_record(
            m,
            t,
            node.begin as nat,
            node.end as nat,
            node.word_id,
            mode,
            units,
            split,
            read,
        );
    } else {
        morpheme::law_words_in_no_dictionary_stay_whole(
            m,
            t,
            node.begin as nat,
            node.end as nat,
            node.word_id,
            mode,
            units,
            split,
        );
    }
}

/// The cost within a way is the sum of the costs of its words and of the cells of the connection
/// matrix that it uses, without the first word and the cells at both edges of the text.
pub proof fn law_inner_cost_is_a_sum(g: GrammarModel, way: Seq<Node>)
    requires
        way.len() > 0,
    ensures
        ({
            let cells = lattice::in_cells(g.costs, lattice::cells_of(g, way));
            inner_cost(g, way) == lattice::total(lattice::own_costs(way)) + lattice::total(cells)
                - way[0].cost - cells[0] - cells.last()
        }),
{
    let cells = lattice::in_cells(g.costs, lattice::cells_of(g, way));
    lattice::law_cost_is_a_sum(g, way);
    assert(lattice::way_cost(g, way.take(1)) == way[0].cost + cells[0]) by {
        let first = way.take(1);
        assert(first.drop_last() =~= Seq::<Node>::empty());
        assert(lattice::way_cost(g, first.drop_last()) == 0);
        assert(first.last() == way[0]);
    }
    assert(cells.last() == lattice::connection(g, way.last().right_id, lattice::EDGE_ID)) by {
        assert(0 * g.columns == 0) by (nonlinear_arith);
    }
}

/// The way of an analysis goes from the beginning to the end of the text over words of the
/// lattice, each beginning where the one before ends, and no other such way has a smaller sum of
/// the costs of its words and of the cells of the connection matrix that it uses. The cost of the
/// list is that sum without the first word, the cell before it and the cell behind the last word.
pub proof fn law_analysis_has_the_smallest_sum(
    list: MorphemeList,
    m: LoadedModel,
    mode: Mode,
    nodes: Seq<Node>,
    other: Seq<Node>,
)
    requires
        list.is_analysis(m, mode),
        list.text().chars.len() > 0,
        lattice::lattice_of(m, list.text()) == Some(Ok::<Seq<Node>, ()>(nodes)),
        other.len() > 0,
        other[0].begin == 0,
        other.last().end == list.text().chars.len(),
        forall|k: int| 0 <= k < other.len() ==> nodes.contains(#[trigger] other[k]),
        forall|k: int| 0 < k < other.len() ==> other[k - 1].end == (#[trigger] other[k]).begin,
    ensures
        ({
            let way = list.way();
            let g = m.grammar;
            let cells = lattice::in_cells(g.costs, lattice::cells_of(g, way));
            let others = lattice::in_cells(g.costs, lattice::cells_of(g, other));
            &&& way.len() > 0
            &&& way[0].begin == 0
            &&& way.last().end == list.text().chars.len()
            &&& forall|k: int| 0 <= k < way.len() ==> nodes.contains(#[trigger] way[k])
            &&& forall|k: int| 0 < k < way.len() ==> way[k - 1].end == (#[trigger] way[k]).begin
            &&& lattice::total(lattice::own_costs(way)) + lattice::total(cells) <= lattice::total(
                lattice::own_costs(other),
            ) + lattice::total(others)
            &&& list.cost() == lattice::total(lattice::own_costs(way)) + lattice::total(cells)
                - way[0].cost - cells[0] - cells.last()
        }),
{
    let g = m.grammar;
    let way = list.way();
    lattice::law_best_way_has_the_smallest_sum(g, nodes, way, other, list.text().chars.len());
    law_inner_cost_is_a_sum(g, way);
}

/// Texts of more than 49149 bytes are refused with their length and the limit, and no others are
/// for that reason; a text that is analysed is the one that was given, and one without characters
/// is analysed into no words, whatever the dictionary.
pub proof fn law_texts_that_are_too_long(
    m: LoadedModel,
    t: TextModel,
    mode: Mode,
    res: SudachiResult<MorphemeList>,
)
    requires
        tokenize_outcome(m, t, mode, res),
    ensures
        ({
            let length = utf8::encode_utf8(t.chars).len();
            &&& length > 49149 ==> (res matches Err(e) && e.model()
                == error::ErrorModel::InputTooLong(length as usize, 49149))
            &&& res matches Ok(list) ==> list.text() == t && length <= 49149
            &&& t.chars.len() == 0 ==> (res matches Ok(list) && list.words().len() == 0)
        }),
{
    if t.chars.len() == 0 {
        input::lemma_byte_offset_is_length(t.chars);
        assert(input::byte_offset(t.chars, 0) == 0);
        if let Ok(list) = res {
            law_words_make_up_text(list, m, mode);
        }
    }
}

} // verus!
