//! The words that may stand at a place in a text.

use vstd::prelude::*;
use vstd::utf8;

use crate::analysis::input;
use crate::analysis::input::{InputText, TextModel};
use crate::dic::category_type::CategoryType;
use crate::dic::grammar::GrammarModel;
use crate::dic::lexicon::LexiconEntry;
use crate::dic::word_id::{WordId, OOV_DICTIONARY};
use crate::dic::{LoadedDictionary, LoadedModel};
use crate::plugin::oov::{CategoryInfo, MeCabOovPlugin, Oov};

verus! {

/// A word at a place in a text.
#[derive(Debug, Clone, Copy, PartialEq, Eq, Structural)]
pub struct Node {
    /// First character
    pub begin: usize,
    /// Character behind the last one
    pub end: usize,
    /// Connection identifier on the left side
    pub left_id: u16,
    /// Connection identifier on the right side
    pub right_id: u16,
    pub cost: i16,
    pub word_id: WordId,
}

/// The word with the given parameters, if the connection matrix has its identifiers.
pub open spec fn node_of(
    g: GrammarModel,
    begin: nat,
    end: nat,
    param: (i16, i16, i16),
    word_id: WordId,
) -> Option<Node> {
    if 0 <= param.0 < g.rows && 0 <= param.1 < g.columns {
        Some(
            Node {
                begin: begin as usize,
                end: end as usize,
                left_id: param.0 as u16,
                right_id: param.1 as u16,
                cost: param.2,
                word_id,
            },
        )
    } else {
        None
    }
}

/// Nodes with one more behind them, if there is one.
pub open spec fn with_node(before: Option<Seq<Node>>, node: Option<Node>) -> Option<Seq<Node>> {
    match (before, node) {
        (Some(nodes), Some(node)) => Some(nodes.push(node)),
        _ => None,
    }
}

/// Nodes with more behind them.
pub open spec fn with_nodes(before: Option<Seq<Node>>, more: Option<Seq<Node>>) -> Option<
    Seq<Node>,
> {
    match (before, more) {
        (Some(nodes), Some(added)) => Some(nodes + added),
        _ => None,
    }
}

/// Where the word of an entry ends, if a word may end there: at the end of the text, or before a
/// character at which a word may begin.
pub open spec fn entry_end(t: TextModel, i: nat, entry: LexiconEntry) -> Option<nat> {
    match input::char_from(t.chars, entry.end as nat, i) {
        Some(j) => if i < j && (j == t.chars.len() || t.can_begin(j as int)) {
            Some(j)
        } else {
            None
        },
        None => None,
    }
}

/// The word of an entry at character `i`.
pub open spec fn entry_node(m: LoadedModel, i: nat, end: nat, id: WordId) -> Option<Node> {
    match m.lexicon_set.word_param(id) {
        Some(param) => node_of(m.grammar, i, end, param, id),
        None => None,
    }
}

/// The words of the first `n` entries at character `i`.
pub open spec fn entry_nodes(
    m: LoadedModel,
    t: TextModel,
    i: nat,
    entries: Seq<LexiconEntry>,
    n: nat,
) -> Option<Seq<Node>>
    decreases n,
{
    if n == 0 {
        Some(Seq::empty())
    } else {
        let before = entry_nodes(m, t, i, entries, (n - 1) as nat);
        match entry_end(t, i, entries[n - 1]) {
            Some(end) => with_node(before, entry_node(m, i, end, entries[n - 1].word_id)),
            None => before,
        }
    }
}

/// The word of a kind that is in no dictionary.
pub open spec fn oov_node(g: GrammarModel, i: nat, end: nat, oov: Oov) -> Option<Node> {
    node_of(
        g,
        i,
        end,
        (oov.left_id, oov.right_id, oov.cost),
        WordId::of(OOV_DICTIONARY, oov.pos_id as u32),
    )
}

/// The words of those among the first `n` kinds that belong to a category.
pub open spec fn kind_nodes(
    g: GrammarModel,
    i: nat,
    end: nat,
    category: CategoryType,
    oovs: Seq<Oov>,
    n: nat,
) -> Option<Seq<Node>>
    decreases n,
{
    if n == 0 {
        Some(Seq::empty())
    } else {
        let before = kind_nodes(g, i, end, category, oovs, (n - 1) as nat);
        if oovs[n - 1].category == category {
            with_node(before, oov_node(g, i, end, oovs[n - 1]))
        } else {
            before
        }
    }
}

/// The words of up to `n` first characters of a category.
pub open spec fn short_nodes(
    g: GrammarModel,
    i: nat,
    category: CategoryType,
    oovs: Seq<Oov>,
    n: nat,
) -> Option<Seq<Node>>
    decreases n,
{
    if n == 0 {
        Some(Seq::empty())
    } else {
        with_nodes(
            short_nodes(g, i, category, oovs, (n - 1) as nat),
            kind_nodes(g, i, i + n, category, oovs, oovs.len()),
        )
    }
}

/// Number of characters up to which words are made of the first characters of a run.
pub open spec fn short_limit(info: CategoryInfo, run: nat) -> nat {
    let limit = if info.is_group {
        (run - 1) as nat
    } else {
        run
    };
    if info.length < limit {
        info.length as nat
    } else {
        limit
    }
}

/// The words that are made of the characters of a category: of the whole run, and of its first
/// characters.
pub open spec fn category_nodes(
    g: GrammarModel,
    i: nat,
    run_end: nat,
    info: CategoryInfo,
    oovs: Seq<Oov>,
) -> Option<Seq<Node>> {
    let group = if info.is_group {
        kind_nodes(g, i, run_end, info.category, oovs, oovs.len())
    } else {
        Some(Seq::empty())
    };
    let limit = short_limit(info, (run_end - i) as nat);
    with_nodes(group, short_nodes(g, i, info.category, oovs, limit))
}

/// The words that a provider makes for the first `n` categories. Some categories make words only
/// where there are none yet.
pub open spec fn provided_nodes(
    g: GrammarModel,
    t: TextModel,
    i: nat,
    has_words: bool,
    plugin: (Seq<CategoryInfo>, Seq<Oov>),
    n: nat,
) -> Option<Seq<Node>>
    decreases n,
{
    if n == 0 {
        Some(Seq::empty())
    } else {
        let before = provided_nodes(g, t, i, has_words, plugin, (n - 1) as nat);
        let info = plugin.0[n - 1];
        if t.category(i as int).meets(info.category) && (info.is_invoke || !has_words) {
            with_nodes(
                before,
                category_nodes(g, i, t.run_end(i as int) as nat, info, plugin.1),
            )
        } else {
            before
        }
    }
}

/// The words at character `i` of the dictionary and of the first `n` providers.
pub open spec fn nodes_with_providers(m: LoadedModel, t: TextModel, i: nat, n: nat) -> Option<
    Seq<Node>,
>
    decreases n,
{
    if n == 0 {
        match m.lexicon_set.lookup(
            utf8::encode_utf8(t.chars),
            input::byte_offset(t.chars, i),
        ) {
            Some(entries) => entry_nodes(m, t, i, entries, entries.len()),
            None => None,
        }
    } else {
        match nodes_with_providers(m, t, i, (n - 1) as nat) {
            None => None,
            Some(before) => {
                let plugin = m.oov_providers[n - 1];
                with_nodes(
                    Some(before),
                    provided_nodes(m.grammar, t, i, before.len() > 0, plugin, plugin.0.len()),
                )
            },
        }
    }
}

/// The words that may stand at character `i`. There is no answer where the dictionary is broken.
pub open spec fn candidates(m: LoadedModel, t: TextModel, i: nat) -> Option<Seq<Node>> {
    nodes_with_providers(m, t, i, m.oov_providers.len())
}

/// Words that begin at `i`, end within the text and have their identifiers in the matrix.
pub open spec fn proper_nodes(g: GrammarModel, i: nat, len: nat, nodes: Seq<Node>) -> bool {
    forall|k: int|
        0 <= k < nodes.len() ==> {
            &&& (#[trigger] nodes[k]).begin == i
            &&& i < nodes[k].end <= len
            &&& nodes[k].left_id < g.rows
            &&& nodes[k].right_id < g.columns
        }
}

/// Candidates begin at their character, end within the text and have their identifiers in the
/// matrix.
pub proof fn lemma_candidates_proper(m: LoadedModel, t: TextModel, i: nat)
    requires
        i < t.chars.len() <= usize::MAX,
    ensures
        candidates(m, t, i) matches Some(nodes) ==> proper_nodes(
            m.grammar,
            i,
            t.chars.len(),
            nodes,
        ),
{
    lemma_providers_proper(m, t, i, m.oov_providers.len());
}

/// Candidates of some providers are proper.
proof fn lemma_providers_proper(m: LoadedModel, t: TextModel, i: nat, n: nat)
    requires
        i < t.chars.len() <= usize::MAX,
    ensures
        nodes_with_providers(m, t, i, n) matches Some(nodes) ==> proper_nodes(
            m.grammar,
            i,
            t.chars.len(),
            nodes,
        ),
    decreases n,
{
    if n == 0 {
        if let Some(entries) = m.lexicon_set.lookup(
            utf8::encode_utf8(t.chars),
            input::byte_offset(t.chars, i),
        ) {
            lemma_entries_proper(m, t, i, entries, entries.len());
        }
    } else {
        lemma_providers_proper(m, t, i, (n - 1) as nat);
        if let Some(before) = nodes_with_providers(m, t, i, (n - 1) as nat) {
            let plugin = m.oov_providers[n - 1];
            lemma_provided_proper(m.grammar, t, i, before.len() > 0, plugin, plugin.0.len());
        }
    }
}

/// Words of entries are proper.
proof fn lemma_entries_proper(
    m: LoadedModel,
    t: TextModel,
    i: nat,
    entries: Seq<LexiconEntry>,
    n: nat,
)
    requires
        i < t.chars.len() <= usize::MAX,
    ensures
        entry_nodes(m, t, i, entries, n) matches Some(nodes) ==> proper_nodes(
            m.grammar,
            i,
            t.chars.len(),
            nodes,
        ),
    decreases n,
{
    if n > 0 {
        lemma_entries_proper(m, t, i, entries, (n - 1) as nat);
        input::lemma_char_from(t.chars, entries[n - 1].end as nat, i);
    }
}

/// Words that a provider makes are proper.
proof fn lemma_provided_proper(
    g: GrammarModel,
    t: TextModel,
    i: nat,
    has_words: bool,
    plugin: (Seq<CategoryInfo>, Seq<Oov>),
    n: nat,
)
    requires
        i < t.chars.len() <= usize::MAX,
    ensures
        provided_nodes(g, t, i, has_words, plugin, n) matches Some(nodes) ==> proper_nodes(
            g,
            i,
            t.chars.len(),
            nodes,
        ),
    decreases n,
{
    if n > 0 {
        lemma_provided_proper(g, t, i, has_words, plugin, (n - 1) as nat);
        t.lemma_run_end(i as int);
        let run_end = t.run_end(i as int) as nat;
        let info = plugin.0[n - 1];
        lemma_kinds_proper(g, i, run_end, t.chars.len(), info.category, plugin.1, plugin.1.len());
        lemma_shorts_proper(
            g,
            i,
            t.chars.len(),
            info.category,
            plugin.1,
            short_limit(info, (run_end - i) as nat),
        );
    }
}

/// Words of kinds are proper.
proof fn lemma_kinds_proper(
    g: GrammarModel,
    i: nat,
    end: nat,
    len: nat,
    category: CategoryType,
    oovs: Seq<Oov>,
    n: nat,
)
    requires
        i < end <= len <= usize::MAX,
    ensures
        kind_nodes(g, i, end, category, oovs, n) matches Some(nodes) ==> proper_nodes(
            g,
            i,
            len,
            nodes,
        ),
    decreases n,
{
    if n > 0 {
        lemma_kinds_proper(g, i, end, len, category, oovs, (n - 1) as nat);
    }
}

/// Words of the first characters of a category are proper.
proof fn lemma_shorts_proper(
    g: GrammarModel,
    i: nat,
    len: nat,
    category: CategoryType,
    oovs: Seq<Oov>,
    n: nat,
)
    requires
        i + n <= len <= usize::MAX,
    ensures
        short_nodes(g, i, category, oovs, n) matches Some(nodes) ==> proper_nodes(
            g,
            i,
            len,
            nodes,
        ),
    decreases n,
{
    if n > 0 {
        lemma_shorts_proper(g, i, len, category, oovs, (n - 1) as nat);
        lemma_kinds_proper(g, i, i + n, len, category, oovs, oovs.len());
    }
}

/// Candidates that can be had are candidates for fewer sources too.
proof fn lemma_providers_prefix(m: LoadedModel, t: TextModel, i: nat, n: nat, more: nat)
    requires
        n <= more,
        nodes_with_providers(m, t, i, more) is Some,
    ensures
        nodes_with_providers(m, t, i, n) is Some,
    decreases more,
{
    if n < more {
        lemma_providers_prefix(m, t, i, n, (more - 1) as nat);
    }
}

/// Words of more entries can be had only where those of fewer can.
proof fn lemma_entry_prefix(
    m: LoadedModel,
    t: TextModel,
    i: nat,
    entries: Seq<LexiconEntry>,
    n: nat,
    more: nat,
)
    requires
        n <= more,
        entry_nodes(m, t, i, entries, more) is Some,
    ensures
        entry_nodes(m, t, i, entries, n) is Some,
    decreases more,
{
    if n < more {
        lemma_entry_prefix(m, t, i, entries, n, (more - 1) as nat);
    }
}

/// Words of more kinds can be had only where those of fewer can.
proof fn lemma_kind_prefix(
    g: GrammarModel,
    i: nat,
    end: nat,
    category: CategoryType,
    oovs: Seq<Oov>,
    n: nat,
    more: nat,
)
    requires
        n <= more,
        kind_nodes(g, i, end, category, oovs, more) is Some,
    ensures
        kind_nodes(g, i, end, category, oovs, n) is Some,
    decreases more,
{
    if n < more {
        lemma_kind_prefix(g, i, end, category, oovs, n, (more - 1) as nat);
    }
}

/// Words of more characters can be had only where those of fewer can.
proof fn lemma_short_prefix(
    g: GrammarModel,
    i: nat,
    category: CategoryType,
    oovs: Seq<Oov>,
    n: nat,
    more: nat,
)
    requires
        n <= more,
        short_nodes(g, i, category, oovs, more) is Some,
    ensures
        short_nodes(g, i, category, oovs, n) is Some,
    decreases more,
{
    if n < more {
        lemma_short_prefix(g, i, category, oovs, n, (more - 1) as nat);
    }
}

/// Words of more categories can be had only where those of fewer can.
proof fn lemma_provided_prefix(
    g: GrammarModel,
    t: TextModel,
    i: nat,
    has_words: bool,
    plugin: (Seq<CategoryInfo>, Seq<Oov>),
    n: nat,
    more: nat,
)
    requires
        n <= more,
        provided_nodes(g, t, i, has_words, plugin, more) is Some,
    ensures
        provided_nodes(g, t, i, has_words, plugin, n) is Some,
    decreases more,
{
    if n < more {
        lemma_provided_prefix(g, t, i, has_words, plugin, n, (more - 1) as nat);
    }
}

/// The word with the given parameters, if the connection matrix has its identifiers.
fn make_node(
    dict: &LoadedDictionary,
    begin: usize,
    end: usize,
    param: (i16, i16, i16),
    word_id: WordId,
) -> (node: Option<Node>)
    ensures
        node == node_of(dict.model().grammar, begin as nat, end as nat, param, word_id),
{
    let (left, right, cost) = param;
    if left >= 0 && right >= 0 && (left as usize) < dict.grammar.connect.num_right() && (
    right as usize) < dict.grammar.connect.num_left() {
        Some(
            Node { begin, end, left_id: left as u16, right_id: right as u16, cost, word_id },
        )
    } else {
        None
    }
}

/// Appends the words of entries. Returns whether the dictionary has them all.
fn push_entry_nodes(
    dict: &LoadedDictionary,
    text: &InputText,
    i: usize,
    entries: &Vec<LexiconEntry>,
    out: &mut Vec<Node>,
) -> (ok: bool)
    requires
        dict.wf(),
        text.wf(),
        i < text.chars().len(),
        old(out)@.len() == 0,
    ensures
        match entry_nodes(dict.model(), text.model(), i as nat, entries@, entries@.len()) {
            Some(nodes) => ok && final(out)@ == nodes,
            None => !ok,
        },
{
    let ghost m = dict.model();
    let ghost t = text.model();
    let mut k: usize = 0;
    while k < entries.len()
        invariant
            k <= entries@.len(),
            dict.wf(),
            text.wf(),
            m == dict.model(),
            t == text.model(),
            i < text.chars().len(),
            entry_nodes(m, t, i as nat, entries@, k as nat) == Some(out@),
        decreases entries@.len() - k,
    {
        proof {
            if entry_nodes(m, t, i as nat, entries@, entries@.len()) is Some {
                lemma_entry_prefix(m, t, i as nat, entries@, (k + 1) as nat, entries@.len());
            }
        }
        let entry: LexiconEntry = entries[k];
        match text.char_at(entry.end, i) {
            Some(j) => {
                if j > i && (j == text.len() || text.can_begin(j)) {
                    match dict.lexicon_set.checked_word_param(entry.word_id) {
                        Some(param) => match make_node(dict, i, j, param, entry.word_id) {
                            Some(node) => {
                                out.push(node);
                            },
                            None => {
                                return false;
                            },
                        },
                        None => {
                            return false;
                        },
                    }
                }
            },
            None => {},
        }
        k = k + 1;
    }
    true
}

/// Appends the words of the kinds that belong to a category. Returns whether the connection
/// matrix has their identifiers.
fn push_kind_nodes(
    dict: &LoadedDictionary,
    i: usize,
    end: usize,
    category: CategoryType,
    oovs: &Vec<Oov>,
    out: &mut Vec<Node>,
) -> (ok: bool)
    ensures
        match kind_nodes(
            dict.model().grammar,
            i as nat,
            end as nat,
            category,
            oovs@,
            oovs@.len(),
        ) {
            Some(nodes) => ok && final(out)@ == old(out)@ + nodes,
            None => !ok,
        },
{
    let ghost g = dict.model().grammar;
    let mut k: usize = 0;
    let ghost mut added: Seq<Node> = Seq::empty();
    assert(out@ + added =~= out@);
    while k < oovs.len()
        invariant
            k <= oovs@.len(),
            g == dict.model().grammar,
            kind_nodes(g, i as nat, end as nat, category, oovs@, k as nat) == Some(added),
            out@ == old(out)@ + added,
        decreases oovs@.len() - k,
    {
        proof {
            if kind_nodes(g, i as nat, end as nat, category, oovs@, oovs@.len()) is Some {
                lemma_kind_prefix(
                    g,
                    i as nat,
                    end as nat,
                    category,
                    oovs@,
                    (k + 1) as nat,
                    oovs@.len(),
                );
            }
        }
        let oov: Oov = oovs[k];
        if oov.category == category {
            match make_node(
                dict,
                i,
                end,
                (oov.left_id, oov.right_id, oov.cost),
                WordId::oov(oov.pos_id),
            ) {
                Some(node) => {
                    out.push(node);
                    proof {
                        added = added.push(node);
                        assert(out@ =~= old(out)@ + added);
                    }
                },
                None => {
                    return false;
                },
            }
        }
        k = k + 1;
    }
    true
}

/// Appends the words that are made of the characters of a category. Returns whether the
/// connection matrix has their identifiers.
fn push_category_nodes(
    dict: &LoadedDictionary,
    i: usize,
    run_end: usize,
    info: CategoryInfo,
    oovs: &Vec<Oov>,
    out: &mut Vec<Node>,
) -> (ok: bool)
    requires
        i < run_end,
    ensures
        match category_nodes(
            dict.model().grammar,
            i as nat,
            run_end as nat,
            info,
            oovs@,
        ) {
            Some(nodes) => ok && final(out)@ == old(out)@ + nodes,
            None => !ok,
        },
{
    let ghost g = dict.model().grammar;
    let ghost mut group: Seq<Node> = Seq::empty();
    let mut limit: usize = run_end - i;
    if info.is_group {
        if !push_kind_nodes(dict, i, run_end, info.category, oovs, out) {
            return false;
        }
        proof {
            group = kind_nodes(
                g,
                i as nat,
                run_end as nat,
                info.category,
                oovs@,
                oovs@.len(),
            ).unwrap();
        }
        limit = limit - 1;
    } else {
        assert(out@ + group =~= out@);
    }
    if (info.length as usize) < limit {
        limit = info.length as usize;
    }
    assert(limit == short_limit(info, (run_end - i) as nat));
    let ghost before = out@;
    let ghost mut added: Seq<Node> = Seq::empty();
    assert(before + added =~= before);
    let mut k: usize = 0;
    while k < limit
        invariant
            k <= limit,
            i + limit <= run_end,
            g == dict.model().grammar,
            limit == short_limit(info, (run_end - i) as nat),
            short_nodes(g, i as nat, info.category, oovs@, k as nat) == Some(added),
            out@ == before + added,
        decreases limit - k,
    {
        proof {
            if short_nodes(g, i as nat, info.category, oovs@, limit as nat) is Some {
                lemma_short_prefix(
                    g,
                    i as nat,
                    info.category,
                    oovs@,
                    (k + 1) as nat,
                    limit as nat,
                );
            }
        }
        k = k + 1;
        if !push_kind_nodes(dict, i, i + k, info.category, oovs, out) {
            return false;
        }
        proof {
            let own = kind_nodes(
                g,
                i as nat,
                (i + k) as nat,
                info.category,
                oovs@,
                oovs@.len(),
            ).unwrap();
            added = added + own;
            assert(out@ =~= before + added);
        }
    }
    assert(out@ =~= old(out)@ + (group + added));
    true
}

/// Appends the words that a provider makes. Returns whether the connection matrix has their
/// identifiers.
fn push_provided_nodes(
    dict: &LoadedDictionary,
    text: &InputText,
    i: usize,
    has_words: bool,
    plugin: &MeCabOovPlugin,
    out: &mut Vec<Node>,
) -> (ok: bool)
    requires
        text.wf(),
        i < text.chars().len(),
    ensures
        match provided_nodes(
            dict.model().grammar,
            text.model(),
            i as nat,
            has_words,
            (plugin.categories@, plugin.oovs@),
            plugin.categories@.len(),
        ) {
            Some(nodes) => ok && final(out)@ == old(out)@ + nodes,
            None => !ok,
        },
{
    let ghost g = dict.model().grammar;
    let ghost t = text.model();
    let ghost p = (plugin.categories@, plugin.oovs@);
    let category: CategoryType = text.category(i);
    let run_end: usize = text.run_end(i);
    proof {
        t.lemma_run_end(i as int);
    }
    let ghost mut added: Seq<Node> = Seq::empty();
    assert(out@ + added =~= out@);
    let mut k: usize = 0;
    while k < plugin.categories.len()
        invariant
            k <= plugin.categories@.len(),
            i < run_end <= t.chars.len(),
            t == text.model(),
            g == dict.model().grammar,
            p == (plugin.categories@, plugin.oovs@),
            category == t.category(i as int),
            run_end == t.run_end(i as int),
            provided_nodes(g, t, i as nat, has_words, p, k as nat) == Some(added),
            out@ == old(out)@ + added,
        decreases plugin.categories@.len() - k,
    {
        proof {
            if provided_nodes(g, t, i as nat, has_words, p, plugin.categories@.len()) is Some {
                lemma_provided_prefix(
                    g,
                    t,
                    i as nat,
                    has_words,
                    p,
                    (k + 1) as nat,
                    plugin.categories@.len(),
                );
            }
        }
        let info: CategoryInfo = plugin.categories[k];
        if category.intersects(info.category) && (info.is_invoke || !has_words) {
            if !push_category_nodes(dict, i, run_end, info, &plugin.oovs, out) {
                return false;
            }
            proof {
                let own = category_nodes(g, i as nat, run_end as nat, info, p.1).unwrap();
                added = added + own;
                assert(out@ =~= old(out)@ + added);
            }
        }
        k = k + 1;
    }
    true
}

/// The words that may stand at character `i`. Returns nothing where the dictionary is broken.
pub fn find_candidates(dict: &LoadedDictionary, text: &InputText, i: usize) -> (found: Option<
    Vec<Node>,
>)
    requires
        dict.wf(),
        text.wf(),
        i < text.chars().len(),
    ensures
        match candidates(dict.model(), text.model(), i as nat) {
            Some(nodes) => found matches Some(got) && got@ == nodes && proper_nodes(
                dict.model().grammar,
                i as nat,
                text.chars().len(),
                nodes,
            ),
            None => found is None,
        },
{
    let ghost m = dict.model();
    let ghost t = text.model();
    proof {
        if candidates(m, t, i as nat) is Some {
            lemma_providers_prefix(m, t, i as nat, 0, m.oov_providers.len());
        }
        text.lemma_length();
        lemma_candidates_proper(m, t, i as nat);
    }
    let entries: Vec<LexiconEntry> = dict.lexicon_set.checked_lookup(
        text.as_bytes(),
        text.offset(i),
    )?;
    let mut out: Vec<Node> = Vec::new();
    if !push_entry_nodes(dict, text, i, &entries, &mut out) {
        return None;
    }
    let mut k: usize = 0;
    while k < dict.oov_providers.len()
        invariant
            k <= dict.oov_providers@.len(),
            dict.wf(),
            text.wf(),
            m == dict.model(),
            t == text.model(),
            i < text.chars().len(),
            m.oov_providers.len() == dict.oov_providers@.len(),
            nodes_with_providers(m, t, i as nat, k as nat) == Some(out@),
        decreases dict.oov_providers@.len() - k,
    {
        proof {
            if candidates(m, t, i as nat) is Some {
                lemma_providers_prefix(m, t, i as nat, (k + 1) as nat, m.oov_providers.len());
            }
            assert(m.oov_providers[k as int] == (
                dict.oov_providers@[k as int].categories@,
                dict.oov_providers@[k as int].oovs@,
            ));
        }
        let has_words: bool = out.len() > 0;
        if !push_provided_nodes(dict, text, i, has_words, &dict.oov_providers[k], &mut out) {
            return None;
        }
        k = k + 1;
    }
    Some(out)
}

/// `node` has the given parameters and word, and stands from character `i` on.
pub open spec fn has_params(node: Node, i: nat, param: (i16, i16, i16), word_id: WordId) -> bool {
    &&& node.begin == i
    &&& node.left_id == param.0
    &&& node.right_id == param.1
    &&& node.cost == param.2
    &&& node.word_id == word_id
}

/// `node` is the word of an entry: it ends where the entry does, at the end of the text or before
/// a character at which a word may begin, and has the parameters that the dictionary has for it.
pub open spec fn is_word_of_entry(
    m: LoadedModel,
    t: TextModel,
    i: nat,
    entry: LexiconEntry,
    node: Node,
) -> bool {
    &&& i < node.end <= t.chars.len()
    &&& input::byte_offset(t.chars, node.end as nat) == entry.end
    &&& node.end == t.chars.len() || t.can_begin(node.end as int)
    &&& m.lexicon_set.word_param(entry.word_id) matches Some(param) && has_params(
        node,
        i,
        param,
        entry.word_id,
    )
}

/// `node` is made of the characters from `i` on by a rule for a category and a kind of word: the
/// character has the category, words are made although there are some or there are none, the kind
/// is of the category, and the word takes up the whole run where the rule groups, or up to so many
/// first characters as the rule says.
pub open spec fn is_made_by(
    t: TextModel,
    i: nat,
    has_words: bool,
    info: CategoryInfo,
    kind: Oov,
    node: Node,
) -> bool {
    let run = t.run_end(i as int) - i;
    let size = node.end - i;
    &&& t.category(i as int).bits & info.category.bits != 0
    &&& info.is_invoke || !has_words
    &&& kind.category == info.category
    &&& node.begin == i
    &&& node.left_id == kind.left_id
    &&& node.right_id == kind.right_id
    &&& node.cost == kind.cost
    &&& node.word_id.raw == 0xf000_0000 + kind.pos_id
    &&& {
        ||| info.is_group && size == run
        ||| info.is_group && 1 <= size <= info.length && size <= run - 1
        ||| !info.is_group && 1 <= size <= info.length && size <= run
    }
}

/// `node` is made by one of the first `n` categories of a provider and one of its kinds.
pub open spec fn is_made(
    t: TextModel,
    i: nat,
    has_words: bool,
    plugin: (Seq<CategoryInfo>, Seq<Oov>),
    n: nat,
    node: Node,
) -> bool {
    exists|c: int, o: int|
        0 <= c < n && 0 <= o < plugin.1.len() && is_made_by(
            t,
            i,
            has_words,
            #[trigger] plugin.0[c],
            #[trigger] plugin.1[o],
            node,
        )
}

/// Where a word ends at a byte, it ends at the character that begins there.
proof fn lemma_entry_end(t: TextModel, i: nat, entry: LexiconEntry, j: nat)
    requires
        i <= t.chars.len(),
    ensures
        entry_end(t, i, entry) == Some(j) <==> {
            &&& i < j <= t.chars.len()
            &&& input::byte_offset(t.chars, j) == entry.end
            &&& j == t.chars.len() || t.can_begin(j as int)
        },
{
    input::lemma_char_from(t.chars, entry.end as nat, i);
    if i < j <= t.chars.len() && input::byte_offset(t.chars, j) == entry.end {
        lemma_char_found(t.chars, j, i);
    }
}

/// The character that begins at a byte is found from a character before it.
proof fn lemma_char_found(chars: Seq<char>, j: nat, i: nat)
    requires
        i <= j <= chars.len(),
    ensures
        input::char_from(chars, input::byte_offset(chars, j), i) == Some(j),
    decreases j - i,
{
    if i < j {
        input::lemma_byte_offset_grows(chars, i, j);
        lemma_char_found(chars, j, i + 1);
    }
}

/// The words of the first entries are those of each of them.
proof fn lemma_entry_nodes(
    m: LoadedModel,
    t: TextModel,
    i: nat,
    entries: Seq<LexiconEntry>,
    n: nat,
    node: Node,
)
    requires
        i < t.chars.len() <= usize::MAX,
        n <= entries.len(),
        entry_nodes(m, t, i, entries, n) is Some,
    ensures
        entry_nodes(m, t, i, entries, n).unwrap().contains(node) <==> exists|k: int|
            0 <= k < n && is_word_of_entry(m, t, i, #[trigger] entries[k], node),
    decreases n,
{
    let all = entry_nodes(m, t, i, entries, n).unwrap();
    if n > 0 {
        let entry = entries[n - 1];
        lemma_entry_nodes(m, t, i, entries, (n - 1) as nat, node);
        let before = entry_nodes(m, t, i, entries, (n - 1) as nat).unwrap();
        lemma_entry_end(t, i, entry, node.end as nat);
        match entry_end(t, i, entry) {
            Some(end) => {
                lemma_entry_end(t, i, entry, end);
                let own = entry_node(m, i, end, entry.word_id).unwrap();
                lemma_pushed(before, own, node);
                assert(is_word_of_entry(m, t, i, entry, own));
                if is_word_of_entry(m, t, i, entry, node) {
                    input::lemma_byte_offset_grows(
                        t.chars,
                        if end < node.end { end } else { node.end as nat },
                        if end < node.end { node.end as nat } else { end },
                    );
                    assert(node == own);
                }
            },
            None => {},
        }
        if exists|k: int| 0 <= k < n && is_word_of_entry(m, t, i, #[trigger] entries[k], node) {
            let k = choose|k: int|
                0 <= k < n && is_word_of_entry(m, t, i, #[trigger] entries[k], node);
            assert(k == n - 1 || before.contains(node));
        }
        if all.contains(node) && before.contains(node) {
            let k = choose|k: int|
                0 <= k < n - 1 && is_word_of_entry(m, t, i, #[trigger] entries[k], node);
            assert(is_word_of_entry(m, t, i, entries[k], node));
        }
    }
}

/// What one more node adds.
proof fn lemma_pushed(before: Seq<Node>, own: Node, node: Node)
    ensures
        before.push(own).contains(node) <==> before.contains(node) || node == own,
{
    let all = before.push(own);
    if before.contains(node) {
        let k = choose|k: int| 0 <= k < before.len() && before[k] == node;
        assert(all[k] == node);
    }
    if node == own {
        assert(all[before.len() as int] == node);
    }
}

/// What more nodes add.
proof fn lemma_added(before: Seq<Node>, more: Seq<Node>, node: Node)
    ensures
        (before + more).contains(node) <==> before.contains(node) || more.contains(node),
{
    let all = before + more;
    if before.contains(node) {
        let k = choose|k: int| 0 <= k < before.len() && before[k] == node;
        assert(all[k] == node);
    }
    if more.contains(node) {
        let k = choose|k: int| 0 <= k < more.len() && more[k] == node;
        assert(all[before.len() + k] == node);
    }
    if all.contains(node) {
        let k = choose|k: int| 0 <= k < all.len() && all[k] == node;
        if k >= before.len() {
            assert(more[k - before.len()] == node);
        }
    }
}

/// `node` is of a kind, and takes up the characters from `i` to `end`.
spec fn is_of_kind(i: nat, end: nat, kind: Oov, node: Node) -> bool {
    &&& node.begin == i
    &&& node.end == end
    &&& node.left_id == kind.left_id
    &&& node.right_id == kind.right_id
    &&& node.cost == kind.cost
    &&& node.word_id.raw == 0xf000_0000 + kind.pos_id
}

/// The words of the first kinds of a category are those of each of them.
proof fn lemma_kind_nodes(
    g: GrammarModel,
    i: nat,
    end: nat,
    category: CategoryType,
    oovs: Seq<Oov>,
    n: nat,
    node: Node,
)
    requires
        i <= end <= usize::MAX,
        n <= oovs.len(),
        kind_nodes(g, i, end, category, oovs, n) is Some,
    ensures
        kind_nodes(g, i, end, category, oovs, n).unwrap().contains(node) <==> exists|o: int|
            0 <= o < n && (#[trigger] oovs[o]).category == category && is_of_kind(
                i,
                end,
                oovs[o],
                node,
            ),
    decreases n,
{
    if n > 0 {
        let kind = oovs[n - 1];
        lemma_kind_nodes(g, i, end, category, oovs, (n - 1) as nat, node);
        let before = kind_nodes(g, i, end, category, oovs, (n - 1) as nat).unwrap();
        if kind.category == category {
            let own = oov_node(g, i, end, kind).unwrap();
            lemma_pushed(before, own, node);
            assert(is_of_kind(i, end, kind, own));
            if is_of_kind(i, end, kind, node) {
                assert(node.word_id == own.word_id);
                assert(node == own);
            }
        }
        if before.contains(node) {
            let o = choose|o: int|
                0 <= o < n - 1 && (#[trigger] oovs[o]).category == category && is_of_kind(
                    i,
                    end,
                    oovs[o],
                    node,
                );
            assert(oovs[o].category == category);
        }
    }
}

/// `node` is of one of the kinds of a category, and takes up the characters from `i` to `end`.
spec fn is_of_some_kind(i: nat, end: nat, category: CategoryType, oovs: Seq<Oov>, node: Node) -> bool {
    exists|o: int|
        0 <= o < oovs.len() && (#[trigger] oovs[o]).category == category && is_of_kind(
            i,
            end,
            oovs[o],
            node,
        )
}

/// The words of the first characters are those of each number of them.
proof fn lemma_short_nodes(
    g: GrammarModel,
    i: nat,
    category: CategoryType,
    oovs: Seq<Oov>,
    n: nat,
    node: Node,
)
    requires
        i + n <= usize::MAX,
        short_nodes(g, i, category, oovs, n) is Some,
    ensures
        short_nodes(g, i, category, oovs, n).unwrap().contains(node) <==> i < node.end <= i + n
            && is_of_some_kind(i, node.end as nat, category, oovs, node),
    decreases n,
{
    if n > 0 {
        lemma_short_nodes(g, i, category, oovs, (n - 1) as nat, node);
        let before = short_nodes(g, i, category, oovs, (n - 1) as nat).unwrap();
        let own = kind_nodes(g, i, i + n, category, oovs, oovs.len()).unwrap();
        lemma_kind_nodes(g, i, i + n, category, oovs, oovs.len(), node);
        lemma_added(before, own, node);
    }
}

/// The words of a rule are those that it makes.
proof fn lemma_category_nodes(
    g: GrammarModel,
    i: nat,
    run_end: nat,
    info: CategoryInfo,
    oovs: Seq<Oov>,
    node: Node,
)
    requires
        i < run_end <= usize::MAX,
        category_nodes(g, i, run_end, info, oovs) is Some,
    ensures
        category_nodes(g, i, run_end, info, oovs).unwrap().contains(node) <==> {
            &&& is_of_some_kind(i, node.end as nat, info.category, oovs, node)
            &&& {
                ||| info.is_group && node.end == run_end
                ||| info.is_group && 1 <= node.end - i <= info.length && node.end < run_end
                ||| !info.is_group && 1 <= node.end - i <= info.length && node.end <= run_end
            }
        },
{
    let group = if info.is_group {
        kind_nodes(g, i, run_end, info.category, oovs, oovs.len())
    } else {
        Some(Seq::empty())
    };
    let limit = short_limit(info, (run_end - i) as nat);
    let short = short_nodes(g, i, info.category, oovs, limit).unwrap();
    if info.is_group {
        lemma_kind_nodes(g, i, run_end, info.category, oovs, oovs.len(), node);
    }
    lemma_short_nodes(g, i, info.category, oovs, limit, node);
    lemma_added(group.unwrap(), short, node);
}

/// The words of the first categories of a provider are those that its rules make.
proof fn lemma_provided_nodes(
    g: GrammarModel,
    t: TextModel,
    i: nat,
    has_words: bool,
    plugin: (Seq<CategoryInfo>, Seq<Oov>),
    n: nat,
    node: Node,
)
    requires
        i < t.chars.len() <= usize::MAX,
        n <= plugin.0.len(),
        provided_nodes(g, t, i, has_words, plugin, n) is Some,
    ensures
        provided_nodes(g, t, i, has_words, plugin, n).unwrap().contains(node) <==> is_made(
            t,
            i,
            has_words,
            plugin,
            n,
            node,
        ),
    decreases n,
{
    let all = provided_nodes(g, t, i, has_words, plugin, n).unwrap();
    if n > 0 {
        let info = plugin.0[n - 1];
        lemma_provided_nodes(g, t, i, has_words, plugin, (n - 1) as nat, node);
        let before = provided_nodes(g, t, i, has_words, plugin, (n - 1) as nat).unwrap();
        let applies = t.category(i as int).meets(info.category) && (info.is_invoke || !has_words);
        if applies {
            t.lemma_run_end(i as int);
            let run_end = t.run_end(i as int) as nat;
            let own = category_nodes(g, i, run_end, info, plugin.1).unwrap();
            lemma_category_nodes(g, i, run_end, info, plugin.1, node);
            lemma_added(before, own, node);
            if own.contains(node) {
                let o = choose|o: int|
                    0 <= o < plugin.1.len() && (#[trigger] plugin.1[o]).category == info.category
                        && is_of_kind(i, node.end as nat, plugin.1[o], node);
                assert(is_made_by(t, i, has_words, plugin.0[n - 1], plugin.1[o], node));
            }
        }
        if before.contains(node) {
            let (c, o) = choose|c: int, o: int|
                0 <= c < n - 1 && 0 <= o < plugin.1.len() && is_made_by(
                    t,
                    i,
                    has_words,
                    #[trigger] plugin.0[c],
                    #[trigger] plugin.1[o],
                    node,
                );
            assert(is_made_by(t, i, has_words, plugin.0[c], plugin.1[o], node));
        }
        if is_made(t, i, has_words, plugin, n, node) {
            let (c, o) = choose|c: int, o: int|
                0 <= c < n && 0 <= o < plugin.1.len() && is_made_by(
                    t,
                    i,
                    has_words,
                    #[trigger] plugin.0[c],
                    #[trigger] plugin.1[o],
                    node,
                );
            if c < n - 1 {
                assert(is_made(t, i, has_words, plugin, (n - 1) as nat, node));
            } else {
                assert(is_of_some_kind(i, node.end as nat, info.category, plugin.1, node));
            }
        }
    }
}

/// `node` is made by one of the first `n` providers, each of which knows whether there are words
/// of the dictionary or of a provider before it.
pub open spec fn is_provided(m: LoadedModel, t: TextModel, i: nat, n: nat, node: Node) -> bool {
    exists|p: int| 0 <= p < n && #[trigger] is_provided_by(m, t, i, p, node)
}

/// `node` is made by provider `p`.
pub open spec fn is_provided_by(m: LoadedModel, t: TextModel, i: nat, p: int, node: Node) -> bool {
    let plugin = m.oov_providers[p];
    is_made(
        t,
        i,
        nodes_with_providers(m, t, i, p as nat).unwrap().len() > 0,
        plugin,
        plugin.0.len(),
        node,
    )
}

/// The words of the dictionary and of the first providers are those that these have.
proof fn lemma_with_providers(
    m: LoadedModel,
    t: TextModel,
    i: nat,
    entries: Seq<LexiconEntry>,
    n: nat,
    node: Node,
)
    requires
        i < t.chars.len() <= usize::MAX,
        m.lexicon_set.lookup(utf8::encode_utf8(t.chars), input::byte_offset(t.chars, i)) == Some(
            entries,
        ),
        nodes_with_providers(m, t, i, n) is Some,
    ensures
        nodes_with_providers(m, t, i, n).unwrap().contains(node) <==> (exists|k: int|
            0 <= k < entries.len() && is_word_of_entry(m, t, i, #[trigger] entries[k], node))
            || is_provided(m, t, i, n, node),
    decreases n,
{
    if n == 0 {
        lemma_entry_nodes(m, t, i, entries, entries.len(), node);
    } else {
        let before = nodes_with_providers(m, t, i, (n - 1) as nat).unwrap();
        let plugin = m.oov_providers[n - 1];
        let has_words = before.len() > 0;
        lemma_with_providers(m, t, i, entries, (n - 1) as nat, node);
        let own = provided_nodes(m.grammar, t, i, has_words, plugin, plugin.0.len()).unwrap();
        lemma_provided_nodes(m.grammar, t, i, has_words, plugin, plugin.0.len(), node);
        lemma_added(before, own, node);
        assert(own.contains(node) <==> is_provided_by(m, t, i, n - 1, node));
        if is_provided(m, t, i, (n - 1) as nat, node) {
            let p = choose|p: int| 0 <= p < n - 1 && #[trigger] is_provided_by(m, t, i, p, node);
            assert(is_provided_by(m, t, i, p, node));
        }
        if is_provided(m, t, i, n, node) {
            let p = choose|p: int| 0 <= p < n && #[trigger] is_provided_by(m, t, i, p, node);
            assert(p == n - 1 || is_provided(m, t, i, (n - 1) as nat, node));
        }
    }
}

/// The words that may stand at a character are exactly those of the entries that the dictionary
/// has there and that end where a word may end, and those that the providers make of the
/// characters.
pub proof fn law_candidates_are_found_or_made(
    m: LoadedModel,
    t: TextModel,
    i: nat,
    entries: Seq<LexiconEntry>,
    nodes: Seq<Node>,
    node: Node,
)
    requires
        i < t.chars.len() <= usize::MAX,
        m.lexicon_set.lookup(utf8::encode_utf8(t.chars), input::byte_offset(t.chars, i)) == Some(
            entries,
        ),
        candidates(m, t, i) == Some(nodes),
    ensures
        nodes.contains(node) <==> (exists|k: int|
            0 <= k < entries.len() && is_word_of_entry(m, t, i, #[trigger] entries[k], node))
            || is_provided(m, t, i, m.oov_providers.len(), node),
{
    lemma_with_providers(m, t, i, entries, m.oov_providers.len(), node);
}

/// Whether the word of an entry ends at the end of the text, or before a character at which a word
/// may begin.
pub open spec fn ends_well(t: TextModel, i: nat, entry: LexiconEntry) -> bool {
    exists|j: nat|
        {
            &&& i < j <= t.chars.len()
            &&& #[trigger] input::byte_offset(t.chars, j) == entry.end
            &&& j == t.chars.len() || t.can_begin(j as int)
        }
}

/// The words of the first entries stand in the order of the entries.
proof fn lemma_entry_order(
    m: LoadedModel,
    t: TextModel,
    i: nat,
    entries: Seq<LexiconEntry>,
    n: nat,
)
    requires
        i <= t.chars.len(),
        n <= entries.len(),
        entry_nodes(m, t, i, entries, n) is Some,
    ensures
        entry_nodes(m, t, i, entries, n).unwrap().map_values(|node: Node| node.word_id)
            == entries.take(n as int).filter(
            |entry: LexiconEntry| ends_well(t, i, entry),
        ).map_values(|entry: LexiconEntry| entry.word_id),
    decreases n,
{
    reveal(Seq::filter);
    let first = entries.take(n as int);
    let nodes = entry_nodes(m, t, i, entries, n).unwrap();
    let fits = |entry: LexiconEntry| ends_well(t, i, entry);
    let ids = |entry: LexiconEntry| entry.word_id;
    let words = |node: Node| node.word_id;
    if n == 0 {
        assert(first.filter(fits) =~= Seq::<LexiconEntry>::empty());
        assert(nodes.map_values(words) =~= first.filter(fits).map_values(ids));
    } else {
        let entry = entries[n - 1];
        lemma_entry_order(m, t, i, entries, (n - 1) as nat);
        let before = entry_nodes(m, t, i, entries, (n - 1) as nat).unwrap();
        assert(first.drop_last() =~= entries.take(n - 1));
        assert(first.last() == entry);
        let kept = first.drop_last().filter(fits);
        match entry_end(t, i, entry) {
            Some(end) => {
                lemma_entry_end(t, i, entry, end);
                assert(input::byte_offset(t.chars, end) == entry.end);
                assert(ends_well(t, i, entry));
                assert(first.filter(fits) == kept.push(entry));
                let own = entry_node(m, i, end, entry.word_id).unwrap();
                assert(nodes == before.push(own));
                assert(nodes.map_values(words) =~= before.map_values(words).push(entry.word_id));
                assert(kept.push(entry).map_values(ids) =~= kept.map_values(ids).push(
                    entry.word_id,
                ));
            },
            None => {
                assert(!ends_well(t, i, entry)) by {
                    if ends_well(t, i, entry) {
                        let j = choose|j: nat|
                            {
                                &&& i < j <= t.chars.len()
                                &&& #[trigger] input::byte_offset(t.chars, j) == entry.end
                                &&& j == t.chars.len() || t.can_begin(j as int)
                            };
                        lemma_entry_end(t, i, entry, j);
                    }
                }
                assert(first.filter(fits) == kept);
            },
        }
    }
}

/// The words of the dictionary and of the first providers begin with those of the dictionary.
proof fn lemma_dictionary_first(m: LoadedModel, t: TextModel, i: nat, n: nat)
    requires
        nodes_with_providers(m, t, i, n) is Some,
    ensures
        nodes_with_providers(m, t, i, 0) matches Some(first) && first.is_prefix_of(
            nodes_with_providers(m, t, i, n).unwrap(),
        ),
    decreases n,
{
    let nodes = nodes_with_providers(m, t, i, n).unwrap();
    if n == 0 {
        assert(nodes.subrange(0, nodes.len() as int) =~= nodes);
    } else {
        lemma_dictionary_first(m, t, i, (n - 1) as nat);
        let before = nodes_with_providers(m, t, i, (n - 1) as nat).unwrap();
        let first = nodes_with_providers(m, t, i, 0).unwrap();
        assert(nodes.subrange(0, first.len() as int) =~= before.subrange(0, first.len() as int));
    }
}

/// The words of the dictionary come before those that are made, in the order of the entries that
/// the dictionary has.
pub proof fn law_words_of_the_dictionary_come_first(
    m: LoadedModel,
    t: TextModel,
    i: nat,
    entries: Seq<LexiconEntry>,
    nodes: Seq<Node>,
)
    requires
        i < t.chars.len(),
        m.lexicon_set.lookup(utf8::encode_utf8(t.chars), input::byte_offset(t.chars, i)) == Some(
            entries,
        ),
        candidates(m, t, i) == Some(nodes),
    ensures
        entries.filter(|entry: LexiconEntry| ends_well(t, i, entry)).map_values(
            |entry: LexiconEntry| entry.word_id,
        ).is_prefix_of(nodes.map_values(|node: Node| node.word_id)),
{
    lemma_dictionary_first(m, t, i, m.oov_providers.len());
    let first = nodes_with_providers(m, t, i, 0).unwrap();
    lemma_entry_order(m, t, i, entries, entries.len());
    assert(entries.take(entries.len() as int) =~= entries);
    let words = |node: Node| node.word_id;
    assert(nodes.subrange(0, first.len() as int) == first);
    assert(nodes.map_values(words).subrange(0, first.len() as int) =~= first.map_values(words)) by {
        assert forall|k: int| 0 <= k < first.len() implies nodes.map_values(words)[k]
            == first.map_values(words)[k] by {
            assert(nodes.subrange(0, first.len() as int)[k] == nodes[k]);
        }
    }
}

} // verus!
