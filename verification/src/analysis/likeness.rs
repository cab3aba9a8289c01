//! Dictionaries that analyse texts alike.

use vstd::prelude::*;
use vstd::utf8;

use crate::analysis::candidates;
use crate::analysis::candidates::Node;
use crate::analysis::input;
use crate::analysis::input::TextModel;
use crate::analysis::lattice;
use crate::analysis::tokenizer;
use crate::dic::lexicon::LexiconEntry;
use crate::dic::word_id::WordId;
use crate::dic::LoadedModel;
use crate::error;

verus! {

/// Both dictionaries find the same words at every character of a text, with the same parameters,
/// have the same grammar, and make the same words where they have none.
pub open spec fn are_alike(a: LoadedModel, b: LoadedModel, t: TextModel) -> bool {
    &&& a.grammar == b.grammar
    &&& a.oov_providers == b.oov_providers
    &&& forall|id: WordId| #[trigger]
        a.lexicon_set.word_param(id) == b.lexicon_set.word_param(id)
    &&& forall|i: nat|
        i < t.chars.len() ==> #[trigger] found_at(a, t, i) == found_at(b, t, i)
}

/// The entries that a dictionary has for character `i` of a text.
pub open spec fn found_at(m: LoadedModel, t: TextModel, i: nat) -> Option<Seq<LexiconEntry>> {
    m.lexicon_set.lookup(utf8::encode_utf8(t.chars), input::byte_offset(t.chars, i))
}

/// The words of the first entries are the same.
proof fn lemma_same_entry_nodes(
    a: LoadedModel,
    b: LoadedModel,
    t: TextModel,
    i: nat,
    entries: Seq<LexiconEntry>,
    n: nat,
)
    requires
        are_alike(a, b, t),
    ensures
        candidates::entry_nodes(a, t, i, entries, n) == candidates::entry_nodes(
            b,
            t,
            i,
            entries,
            n,
        ),
    decreases n,
{
    if n > 0 {
        lemma_same_entry_nodes(a, b, t, i, entries, (n - 1) as nat);
        let id = entries[n - 1].word_id;
        assert(a.lexicon_set.word_param(id) == b.lexicon_set.word_param(id));
    }
}

/// The words of the dictionary and of the first providers are the same.
proof fn lemma_same_provided(a: LoadedModel, b: LoadedModel, t: TextModel, i: nat, n: nat)
    requires
        are_alike(a, b, t),
        i < t.chars.len(),
    ensures
        candidates::nodes_with_providers(a, t, i, n) == candidates::nodes_with_providers(
            b,
            t,
            i,
            n,
        ),
    decreases n,
{
    if n == 0 {
        assert(found_at(a, t, i) == found_at(b, t, i));
        if let Some(entries) = found_at(a, t, i) {
            lemma_same_entry_nodes(a, b, t, i, entries, entries.len());
        }
    } else {
        lemma_same_provided(a, b, t, i, (n - 1) as nat);
    }
}

/// The words that begin before a character are the same.
proof fn lemma_same_lattice(a: LoadedModel, b: LoadedModel, t: TextModel, p: nat)
    requires
        are_alike(a, b, t),
        p <= t.chars.len(),
    ensures
        lattice::lattice_up_to(a, t, p) == lattice::lattice_up_to(b, t, p),
    decreases p,
{
    if p > 0 {
        lemma_same_lattice(a, b, t, (p - 1) as nat);
        lemma_same_provided(a, b, t, (p - 1) as nat, a.oov_providers.len());
    }
}

/// Dictionaries that are alike on a text have the same cheapest ways through it.
pub proof fn law_alike_dictionaries_agree(
    a: LoadedModel,
    b: LoadedModel,
    t: TextModel,
    res: Result<Seq<Node>, error::ErrorModel>,
)
    requires
        are_alike(a, b, t),
    ensures
        tokenizer::way_outcome(a, t, res) == tokenizer::way_outcome(b, t, res),
{
    lemma_same_lattice(a, b, t, t.chars.len());
}

} // verus!
