//! Costs of words that come without one.

use vstd::prelude::*;
use vstd::utf8;

use super::{Lexicon, LexiconModel};
use crate::analysis::candidates::Node;
use crate::analysis::certainty;
use crate::analysis::input::{TextModel, MAX_LENGTH};
use crate::analysis::lattice;
use crate::analysis::mode::Mode;
use crate::analysis::morpheme;
use crate::analysis::morpheme::MorphemeModel;
use crate::analysis::tokenizer;
use crate::analysis::tokenizer::MorphemeList;
use crate::dic::lexicon::word_infos::WordInfo;
use crate::dic::subset::InfoSubset;
use crate::dic::{LoadedDictionary, LoadedModel};
use crate::error::{SudachiError, SudachiResult};

verus! {

/// What a word of a user dictionary costs less for each word that its surface is made up of.
pub const USER_DICT_COST_PER_MORPH: i64 = -20;

/// The nearest value that a cost can have.
pub open spec fn clamped(cost: int) -> int {
    if cost > i16::MAX {
        i16::MAX as int
    } else if cost < i16::MIN {
        i16::MIN as int
    } else {
        cost
    }
}

/// The text of a surface.
pub open spec fn surface_text(m: LoadedModel, surface: Seq<char>) -> TextModel {
    TextModel { chars: surface, ranges: m.grammar.ranges }
}

/// `cost` is what a word is estimated to cost by the cheapest way through its surface `way`, the
/// words of which are `groups`.
pub open spec fn is_estimate_by(
    m: LoadedModel,
    surface: Seq<char>,
    way: Seq<Node>,
    groups: Seq<Seq<MorphemeModel>>,
    cost: i16,
) -> bool {
    &&& tokenizer::way_outcome(m, surface_text(m, surface), Ok(way))
    &&& tokenizer::are_groups(m, surface_text(m, surface), way, Mode::C, groups)
    &&& cost == clamped(
        tokenizer::inner_cost(m.grammar, way) + USER_DICT_COST_PER_MORPH * way.len(),
    )
}

/// `cost` is what a word with the given surface is estimated to cost.
pub open spec fn is_estimate(m: LoadedModel, surface: Seq<char>, cost: i16) -> bool {
    &&& utf8::encode_utf8(surface).len() <= MAX_LENGTH
    &&& exists|way: Seq<Node>, groups: Seq<Seq<MorphemeModel>>| #[trigger]
        is_estimate_by(m, surface, way, groups, cost)
}

/// The surface of a word.
pub open spec fn has_surface(lexicon: LexiconModel, word_id: u32, surface: Seq<char>) -> bool {
    lexicon.infos.info(word_id, InfoSubset::just_surface()) matches Some(Ok(info)) && info.surface
        == surface
}

/// `cost` is what a word of a lexicon is estimated to cost.
pub open spec fn is_word_estimate(
    m: LoadedModel,
    lexicon: LexiconModel,
    word_id: u32,
    cost: i16,
) -> bool {
    exists|surface: Seq<char>| #[trigger]
        has_surface(lexicon, word_id, surface) && is_estimate(m, surface, cost)
}

/// Whether a word has yet to be given a cost.
pub open spec fn lacks_cost(lexicon: LexiconModel, word_id: u32) -> bool {
    lexicon.word_param(word_id as int).2 == i16::MIN
}

/// The parameters of a word after costs were estimated for the words before word `n`.
pub open spec fn word_is_estimated(
    m: LoadedModel,
    before: LexiconModel,
    after: LexiconModel,
    word_id: u32,
    n: u32,
) -> bool {
    let was = before.word_param(word_id as int);
    let is = after.word_param(word_id as int);
    &&& is.0 == was.0
    &&& is.1 == was.1
    &&& if word_id < n && lacks_cost(before, word_id) {
        is_word_estimate(m, before, word_id, is.2)
    } else {
        is.2 == was.2
    }
}

/// `after` is `before` with costs estimated for the words before word `n` that lacked one, and
/// nothing else changed.
pub open spec fn are_estimated(
    m: LoadedModel,
    before: LexiconModel,
    after: LexiconModel,
    n: u32,
) -> bool {
    &&& after == (LexiconModel { params: after.params, ..before })
    &&& after.wf()
    &&& forall|word_id: u32|
        word_id < before.words ==> #[trigger] word_is_estimated(m, before, after, word_id, n)
}

/// Estimating the cost of a word fails with `e`: its record cannot be read, or its surface cannot
/// be analysed.
pub open spec fn estimate_fails(
    m: LoadedModel,
    lexicon: LexiconModel,
    word_id: u32,
    e: SudachiError,
) -> bool {
    let subset = InfoSubset::just_surface();
    ||| !lexicon.infos.answers(word_id, subset) && e.model() == morpheme::broken()
    ||| lexicon.infos.may_fail_with(word_id, subset, e)
    ||| exists|surface: Seq<char>| #[trigger]
        has_surface(lexicon, word_id, surface) && tokenizer::tokenize_outcome(
            m,
            surface_text(m, surface),
            Mode::C,
            Err(e),
        )
}

/// Estimating costs stops at word `word_id`, with `e`.
pub open spec fn stops_at(
    m: LoadedModel,
    before: LexiconModel,
    after: LexiconModel,
    word_id: u32,
    e: SudachiError,
) -> bool {
    &&& word_id < before.words
    &&& lacks_cost(before, word_id)
    &&& are_estimated(m, before, after, word_id)
    &&& estimate_fails(m, before, word_id, e)
}

/// What giving costs to the words of a lexicon comes to.
pub open spec fn update_outcome(
    m: LoadedModel,
    before: LexiconModel,
    after: LexiconModel,
    res: SudachiResult<()>,
) -> bool {
    match res {
        Ok(()) => are_estimated(m, before, after, before.words),
        Err(e) => exists|word_id: u32| #[trigger] stops_at(m, before, after, word_id, e),
    }
}

/// A surface is estimated to cost one thing only.
proof fn lemma_one_estimate(m: LoadedModel, surface: Seq<char>, a: i16, b: i16)
    requires
        is_estimate(m, surface, a),
        is_estimate(m, surface, b),
    ensures
        a == b,
{
}

/// Where a word has an estimate, estimating its cost does not fail.
proof fn lemma_estimate_excludes_failure(
    m: LoadedModel,
    lexicon: LexiconModel,
    word_id: u32,
    cost: i16,
    e: SudachiError,
)
    requires
        certainty::is_certain(m),
        certainty::records_are_certain(lexicon.infos),
        is_word_estimate(m, lexicon, word_id, cost),
    ensures
        !estimate_fails(m, lexicon, word_id, e),
{
    let surface = choose|surface: Seq<char>| #[trigger]
        has_surface(lexicon, word_id, surface) && is_estimate(m, surface, cost);
    certainty::lemma_record_is_read(lexicon.infos, word_id, InfoSubset::just_surface(), e);
    let (way, groups) = choose|way: Seq<Node>, groups: Seq<Seq<MorphemeModel>>| #[trigger]
        is_estimate_by(m, surface, way, groups, cost);
    certainty::lemma_analysis_excludes_failure(
        m,
        surface_text(m, surface),
        Mode::C,
        way,
        groups,
        e,
    );
}

/// Giving costs a second time, with the same dictionary, succeeds and changes nothing.
pub proof fn law_second_update_changes_nothing(
    m: LoadedModel,
    before: LexiconModel,
    after: LexiconModel,
    again: LexiconModel,
    res: SudachiResult<()>,
)
    requires
        certainty::is_certain(m),
        certainty::records_are_certain(before.infos),
        update_outcome(m, before, after, Ok(())),
        update_outcome(m, after, again, res),
    ensures
        res is Ok,
        forall|word_id: u32|
            word_id < after.words ==> #[trigger] again.word_param(word_id as int)
                == after.word_param(word_id as int),
{
    if let Err(e) = res {
        let word_id = choose|word_id: u32| #[trigger] stops_at(m, after, again, word_id, e);
        assert(word_is_estimated(m, before, after, word_id, before.words));
        let cost = after.word_param(word_id as int).2;
        assert(is_word_estimate(m, before, word_id, cost));
        let surface = choose|surface: Seq<char>| #[trigger]
            has_surface(before, word_id, surface) && is_estimate(m, surface, cost);
        assert(has_surface(after, word_id, surface));
        lemma_estimate_excludes_failure(m, after, word_id, cost, e);
    } else {
        assert forall|word_id: u32|
            word_id < after.words implies #[trigger] again.word_param(word_id as int)
            == after.word_param(word_id as int) by {
            assert(word_is_estimated(m, before, after, word_id, before.words));
            assert(word_is_estimated(m, after, again, word_id, after.words));
            if lacks_cost(after, word_id) {
                let (a, b) = (
                    after.word_param(word_id as int).2,
                    again.word_param(word_id as int).2,
                );
                let surface = choose|surface: Seq<char>| #[trigger]
                    has_surface(before, word_id, surface) && is_estimate(m, surface, a);
                let other = choose|surface: Seq<char>| #[trigger]
                    has_surface(after, word_id, surface) && is_estimate(m, surface, b);
                assert(has_surface(after, word_id, surface));
                lemma_one_estimate(m, surface, a, b);
            }
        }
    }
}

/// A word is estimated to cost the sum of the costs of the words of the cheapest way through its
/// surface and of the cells of the connection matrix between them, without the first word, and
/// twenty less for each word of the way, held within what 16 bits can hold.
pub proof fn law_estimate_is_the_sum_within_the_surface(
    m: LoadedModel,
    surface: Seq<char>,
    way: Seq<Node>,
    groups: Seq<Seq<MorphemeModel>>,
    cost: i16,
)
    requires
        is_estimate_by(m, surface, way, groups, cost),
        surface.len() > 0,
    ensures
        ({
            let cells = lattice::in_cells(m.grammar.costs, lattice::cells_of(m.grammar, way));
            let sum = lattice::total(lattice::own_costs(way)) + lattice::total(cells) - way[0].cost
                - cells[0] - cells.last() - 20 * way.len();
            &&& way.len() > 0
            &&& -0x8000 <= sum <= 0x7fff ==> cost == sum
            &&& sum < -0x8000 ==> cost == -0x8000
            &&& sum > 0x7fff ==> cost == 0x7fff
        }),
{
    tokenizer::law_inner_cost_is_a_sum(m.grammar, way);
}

/// Giving costs leaves every parameter as it is but the costs of the words that had the lowest
/// possible one, the third parameter of each word; these get what they are estimated to cost.
pub proof fn law_only_missing_costs_change(
    m: LoadedModel,
    before: LexiconModel,
    after: LexiconModel,
    word_id: u32,
)
    requires
        before.wf(),
        update_outcome(m, before, after, Ok(())),
        word_id < before.words,
    ensures
        ({
            let k = 3 * word_id as int;
            &&& after.params.len() == before.params.len()
            &&& after.words == before.words
            &&& after.trie == before.trie
            &&& after.table == before.table
            &&& after.table_start == before.table_start
            &&& after.infos == before.infos
            &&& after.id == before.id
            &&& after.params[k] == before.params[k]
            &&& after.params[k + 1] == before.params[k + 1]
            &&& before.params[k + 2] != -0x8000 ==> after.params[k + 2] == before.params[k + 2]
            &&& before.params[k + 2] == -0x8000 ==> is_word_estimate(
                m,
                before,
                word_id,
                after.params[k + 2],
            )
        }),
{
    assert(word_is_estimated(m, before, after, word_id, before.words));
}

/// What a word is estimated to cost by the analysis of its surface in the longest units.
fn estimate(dict: &LoadedDictionary, surface: &str) -> (res: SudachiResult<i16>)
    requires
        dict.wf(),
    ensures
        match res {
            Ok(cost) => is_estimate(dict.model(), surface@, cost),
            Err(e) => tokenizer::tokenize_outcome(
                dict.model(),
                surface_text(dict.model(), surface@),
                Mode::C,
                Err(e),
            ),
        },
{
    let ms: MorphemeList = match tokenizer::tokenize(dict, surface, Mode::C) {
        Ok(ms) => ms,
        Err(e) => {
            return Err(e);
        },
    };
    proof {
        tokenizer::law_longest_units_are_the_way(ms, dict.model());
        ms.lemma_bounds(dict.model(), Mode::C);
    }
    let internal_cost: i64 = ms.get_internal_cost();
    let mut cost: i64 = internal_cost + USER_DICT_COST_PER_MORPH * ms.len() as i64;
    if cost > i16::MAX as i64 {
        cost = i16::MAX as i64;
    }
    if cost < i16::MIN as i64 {
        cost = i16::MIN as i64;
    }
    assert(is_estimate_by(dict.model(), surface@, ms.way(), ms.groups(), cost as i16));
    Ok(cost as i16)
}

impl<'a> Lexicon<'a> {
    /// Gives a cost to each word that lacks one: what its surface costs when it is analysed with
    /// a dictionary, but for its edges, and a little less. Stops at the first word for which that
    /// fails.
    pub fn update_cost(&mut self, dict: &LoadedDictionary) -> (res: SudachiResult<()>)
        requires
            old(self).model().wf(),
            dict.wf(),
        ensures
            update_outcome(dict.model(), old(self).model(), final(self).model(), res),
    {
        let ghost m = dict.model();
        let ghost before = self.model();
        let words: u32 = self.word_params.size();
        let mut word_id: u32 = 0;
        assert(are_estimated(m, before, self.model(), 0)) by {
            assert forall|other: u32| other < before.words implies #[trigger] word_is_estimated(
                m,
                before,
                before,
                other,
                0,
            ) by {}
        }
        while word_id < words
            invariant
                word_id <= words == before.words,
                dict.wf(),
                before.wf(),
                m == dict.model(),
                before == old(self).model(),
                are_estimated(m, before, self.model(), word_id),
            decreases words - word_id,
        {
            let ghost so_far = self.model();
            assert(word_is_estimated(m, before, so_far, word_id, word_id));
            if self.word_params.get_cost(word_id) == i16::MIN {
                let info: WordInfo = match self.checked_word_info(word_id, InfoSubset::surface()) {
                    Some(Ok(info)) => info,
                    Some(Err(e)) => {
                        assert(stops_at(m, before, self.model(), word_id, e));
                        return Err(e);
                    },
                    None => {
                        let e: SudachiError = SudachiError::InvalidDictionaryGrammar;
                        assert(stops_at(m, before, self.model(), word_id, e));
                        return Err(e);
                    },
                };
                assert(has_surface(before, word_id, info.model().surface));
                let cost: i16 = match estimate(dict, info.surface()) {
                    Ok(cost) => cost,
                    Err(e) => {
                        assert(stops_at(m, before, self.model(), word_id, e));
                        return Err(e);
                    },
                };
                self.word_params.set_cost(word_id, cost);
                assert(is_word_estimate(m, before, word_id, cost));
            }
            proof {
                let now = self.model();
                assert forall|other: u32| other < before.words implies #[trigger] word_is_estimated(
                    m,
                    before,
                    now,
                    other,
                    (word_id + 1) as u32,
                ) by {
                    assert(word_is_estimated(m, before, so_far, other, word_id));
                }
            }
            word_id = word_id + 1;
        }
        Ok(())
    }
}

} // verus!
