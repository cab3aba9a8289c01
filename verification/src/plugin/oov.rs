//! Out-of-vocabulary words by the categories of characters.

use vstd::prelude::*;

use crate::dic::category_type::CategoryType;
use crate::dic::grammar;
use crate::dic::grammar::Grammar;
use crate::error::{SudachiError, SudachiResult};

verus! {

/// How words are made of the characters of a category.
#[derive(Debug, Clone, Copy, PartialEq, Eq, Structural)]
pub struct CategoryInfo {
    pub category: CategoryType,
    /// Whether words are made although the dictionary has some
    pub is_invoke: bool,
    /// Whether a word is made of all characters of the category that follow each other
    pub is_group: bool,
    /// Number of characters up to which words are made of the first characters
    pub length: u32,
}

/// A kind of word that is made of the characters of a category.
#[derive(Debug)]
pub struct OovDefinition {
    pub category: CategoryType,
    pub left_id: i16,
    pub right_id: i16,
    pub cost: i16,
    /// Part of speech
    pub pos: Vec<String>,
}

/// A kind of word with its part of speech as a number of the grammar.
#[derive(Debug, Clone, Copy, PartialEq, Eq, Structural)]
pub struct Oov {
    pub category: CategoryType,
    pub left_id: i16,
    pub right_id: i16,
    pub cost: i16,
    pub pos_id: u16,
}

/// Definitions of out-of-vocabulary words.
#[derive(Debug)]
pub struct OovSettings {
    pub categories: Vec<CategoryInfo>,
    pub definitions: Vec<OovDefinition>,
}

/// The first `n` kinds of words with their parts of speech as numbers, if the grammar has them.
pub open spec fn resolved(
    definitions: Seq<OovDefinition>,
    pos_list: Seq<Seq<Seq<char>>>,
    n: nat,
) -> Option<Seq<Oov>>
    decreases n,
{
    if n == 0 {
        Some(Seq::empty())
    } else {
        let d = definitions[n - 1];
        match (
            resolved(definitions, pos_list, (n - 1) as nat),
            grammar::pos_from(pos_list, grammar::pos_view(d.pos@), 0),
        ) {
            (Some(before), Some(k)) => if k <= 0xffff {
                Some(
                    before.push(
                        Oov {
                            category: d.category,
                            left_id: d.left_id,
                            right_id: d.right_id,
                            cost: d.cost,
                            pos_id: k as u16,
                        },
                    ),
                )
            } else {
                None
            },
            _ => None,
        }
    }
}

/// Kind `i` is the first one whose part of speech the grammar lacks.
pub open spec fn first_lacking(
    definitions: Seq<OovDefinition>,
    pos_list: Seq<Seq<Seq<char>>>,
    i: nat,
) -> bool {
    &&& i < definitions.len()
    &&& resolved(definitions, pos_list, i) is Some
    &&& resolved(definitions, pos_list, i + 1) is None
}

/// Where more kinds of words have their parts of speech, fewer have them.
proof fn lemma_resolved_prefix(
    definitions: Seq<OovDefinition>,
    pos_list: Seq<Seq<Seq<char>>>,
    n: nat,
    more: nat,
)
    requires
        n <= more,
        resolved(definitions, pos_list, more) is Some,
    ensures
        resolved(definitions, pos_list, n) is Some,
    decreases more,
{
    if n < more {
        lemma_resolved_prefix(definitions, pos_list, n, (more - 1) as nat);
    }
}

/// Provider of out-of-vocabulary words by the categories of characters.
#[derive(Debug)]
pub struct MeCabOovPlugin {
    pub categories: Vec<CategoryInfo>,
    pub oovs: Vec<Oov>,
}

/// The kinds of words with their parts of speech as numbers of the grammar; or the place of the
/// first one whose part of speech the grammar lacks.
fn resolve(definitions: &Vec<OovDefinition>, grammar: &Grammar) -> (res: Result<Vec<Oov>, usize>)
    ensures
        match resolved(definitions@, grammar.model().pos_list, definitions@.len()) {
            Some(oovs) => res matches Ok(got) && got@ == oovs,
            None => res matches Err(i) && first_lacking(
                definitions@,
                grammar.model().pos_list,
                i as nat,
            ),
        },
{
    let mut oovs: Vec<Oov> = Vec::new();
    let ghost pos_list = grammar.model().pos_list;
    let mut i: usize = 0;
    while i < definitions.len()
        invariant
            i <= definitions@.len(),
            pos_list == grammar.model().pos_list,
            resolved(definitions@, pos_list, i as nat) == Some(oovs@),
        decreases definitions@.len() - i,
    {
        proof {
            if resolved(definitions@, pos_list, definitions@.len()) is Some {
                lemma_resolved_prefix(
                    definitions@,
                    pos_list,
                    (i + 1) as nat,
                    definitions@.len(),
                );
            }
        }
        let d: &OovDefinition = &definitions[i];
        match grammar.get_part_of_speech_id(&d.pos) {
            Some(pos_id) => {
                oovs.push(
                    Oov {
                        category: d.category,
                        left_id: d.left_id,
                        right_id: d.right_id,
                        cost: d.cost,
                        pos_id,
                    },
                );
            },
            None => {
                return Err(i);
            },
        }
        i = i + 1;
    }
    Ok(oovs)
}

impl MeCabOovPlugin {
    /// Sets up a provider with the parts of speech of a grammar. Fails where the grammar lacks
    /// one that the settings name.
    pub fn set_up(settings: OovSettings, grammar: &Grammar) -> (res: SudachiResult<MeCabOovPlugin>)
        ensures
            match resolved(
                settings.definitions@,
                grammar.model().pos_list,
                settings.definitions@.len(),
            ) {
                Some(oovs) => res matches Ok(plugin) && plugin.categories == settings.categories
                    && plugin.oovs@ == oovs,
                None => res matches Err(SudachiError::InvalidPartOfSpeech(i)) && first_lacking(
                    settings.definitions@,
                    grammar.model().pos_list,
                    i as nat,
                ),
            },
    {
        match resolve(&settings.definitions, grammar) {
            Ok(oovs) => Ok(MeCabOovPlugin { categories: settings.categories, oovs }),
            Err(i) => Err(SudachiError::InvalidPartOfSpeech(i)),
        }
    }
}

/// A part of speech has the place of its first occurrence in the list.
proof fn lemma_pos_from(list: Seq<Seq<Seq<char>>>, pos: Seq<Seq<char>>, k: int)
    requires
        0 <= k,
    ensures
        match grammar::pos_from(list, pos, k) {
            Some(i) => {
                &&& k <= i < list.len()
                &&& list[i as int] == pos
                &&& forall|j: int| k <= j < i ==> #[trigger] list[j] != pos
            },
            None => forall|j: int| k <= j < list.len() ==> #[trigger] list[j] != pos,
        },
    decreases list.len() - k,
{
    if k < list.len() && list[k] != pos {
        lemma_pos_from(list, pos, k + 1);
    }
}

/// The first kinds are resolved one by one.
proof fn lemma_resolved_kind(
    definitions: Seq<OovDefinition>,
    pos_list: Seq<Seq<Seq<char>>>,
    n: nat,
    i: int,
)
    requires
        n <= definitions.len(),
        0 <= i < n,
        resolved(definitions, pos_list, n) is Some,
    ensures
        resolved(definitions, pos_list, n).unwrap().len() == n,
        ({
            let kind = resolved(definitions, pos_list, n).unwrap()[i];
            let d = definitions[i];
            &&& kind.category == d.category
            &&& kind.left_id == d.left_id
            &&& kind.right_id == d.right_id
            &&& kind.cost == d.cost
            &&& kind.pos_id < pos_list.len()
            &&& pos_list[kind.pos_id as int] == grammar::pos_view(d.pos@)
            &&& forall|j: int|
                0 <= j < kind.pos_id ==> #[trigger] pos_list[j] != grammar::pos_view(d.pos@)
        }),
    decreases n,
{
    let d = definitions[n - 1];
    lemma_pos_from(pos_list, grammar::pos_view(d.pos@), 0);
    if i < n - 1 {
        lemma_resolved_kind(definitions, pos_list, (n - 1) as nat, i);
    } else if n > 1 {
        lemma_resolved_kind(definitions, pos_list, (n - 1) as nat, 0);
    }
}

/// A kind of word keeps its category, its identifiers and its cost, and has as its part of speech
/// the first number under which the grammar has the texts of the definition.
pub proof fn law_kinds_are_those_of_the_definitions(
    definitions: Seq<OovDefinition>,
    pos_list: Seq<Seq<Seq<char>>>,
    oovs: Seq<Oov>,
    i: int,
)
    requires
        resolved(definitions, pos_list, definitions.len()) == Some(oovs),
        0 <= i < definitions.len(),
    ensures
        oovs.len() == definitions.len(),
        oovs[i].category == definitions[i].category,
        oovs[i].left_id == definitions[i].left_id,
        oovs[i].right_id == definitions[i].right_id,
        oovs[i].cost == definitions[i].cost,
        oovs[i].pos_id < pos_list.len(),
        pos_list[oovs[i].pos_id as int] == grammar::pos_view(definitions[i].pos@),
        forall|j: int|
            0 <= j < oovs[i].pos_id ==> #[trigger] pos_list[j] != grammar::pos_view(
                definitions[i].pos@,
            ),
{
    lemma_resolved_kind(definitions, pos_list, definitions.len(), i);
}

} // verus!
