//! The lattice of the words of a text, and the cheapest way through it.

use vstd::prelude::*;

use crate::analysis::candidates;
use crate::analysis::candidates::Node;
use crate::analysis::input::{TextModel, MAX_LENGTH};
use crate::dic::grammar::GrammarModel;
use crate::dic::{LoadedDictionary, LoadedModel};

verus! {

/// Connection identifier of the beginning and of the end of a text.
pub const EDGE_ID: u16 = 0;

/// Whether a word of `nodes` ends at character `p`, or the text begins there.
pub open spec fn reachable(nodes: Seq<Node>, p: nat) -> bool {
    p == 0 || exists|k: int| 0 <= k < nodes.len() && (#[trigger] nodes[k]).end == p
}

/// The words that begin before character `p` and can be reached from the beginning of the text,
/// or an error where a word ends and none begins. There is no answer where the dictionary is
/// broken.
pub open spec fn lattice_up_to(m: LoadedModel, t: TextModel, p: nat) -> Option<
    Result<Seq<Node>, ()>,
>
    decreases p,
{
    if p == 0 {
        Some(Ok(Seq::empty()))
    } else {
        match lattice_up_to(m, t, (p - 1) as nat) {
            Some(Ok(nodes)) => if reachable(nodes, (p - 1) as nat) {
                match candidates::candidates(m, t, (p - 1) as nat) {
                    None => None,
                    Some(own) => if own.len() == 0 {
                        Some(Err(()))
                    } else {
                        Some(Ok(nodes + own))
                    },
                }
            } else {
                Some(Ok(nodes))
            },
            other => other,
        }
    }
}

/// The words of a text.
pub open spec fn lattice_of(m: LoadedModel, t: TextModel) -> Option<Result<Seq<Node>, ()>> {
    if m.grammar.columns == 0 || m.grammar.rows == 0 {
        None
    } else {
        lattice_up_to(m, t, t.chars.len())
    }
}

/// The cost of placing a word with the identifier `left` on its right side before one with the
/// identifier `right` on its left side.
pub open spec fn connection(g: GrammarModel, left: u16, right: u16) -> int {
    g.costs[right * g.columns + left] as int
}

/// Words that follow each other from the beginning of the text on.
pub open spec fn is_way(nodes: Seq<Node>, way: Seq<Node>) -> bool {
    &&& way.len() > 0
    &&& way[0].begin == 0
    &&& forall|k: int| 0 <= k < way.len() ==> nodes.contains(#[trigger] way[k])
    &&& forall|k: int|
        0 < k < way.len() ==> way[k - 1].end == (#[trigger] way[k]).begin
}

/// The cost of words that follow each other from the beginning of the text on: their own costs
/// and those of their connections.
pub open spec fn way_cost(g: GrammarModel, way: Seq<Node>) -> int
    decreases way.len(),
{
    if way.len() == 0 {
        0
    } else {
        let before = way.drop_last();
        let left = if before.len() == 0 {
            EDGE_ID
        } else {
            before.last().right_id
        };
        way_cost(g, before) + connection(g, left, way.last().left_id) + way.last().cost
    }
}

/// The cost of a way through the whole text.
pub open spec fn full_cost(g: GrammarModel, way: Seq<Node>) -> int {
    way_cost(g, way) + connection(g, way.last().right_id, EDGE_ID)
}

/// A way through the whole text of `len` characters.
pub open spec fn is_full_way(nodes: Seq<Node>, way: Seq<Node>, len: nat) -> bool {
    is_way(nodes, way) && way.last().end == len
}

/// A way through the whole text that costs no more than any other.
pub open spec fn is_best_way(g: GrammarModel, nodes: Seq<Node>, way: Seq<Node>, len: nat) -> bool {
    &&& is_full_way(nodes, way, len)
    &&& forall|other: Seq<Node>| #[trigger]
        is_full_way(nodes, other, len) ==> full_cost(g, way) <= full_cost(g, other)
}

/// The sum of numbers.
pub open spec fn total(terms: Seq<int>) -> int
    decreases terms.len(),
{
    if terms.len() == 0 {
        0
    } else {
        total(terms.drop_last()) + terms.last()
    }
}

/// The cells of the connection matrix that a way through the whole text uses, one before each
/// word and one behind the last. The matrix has a row for each identifier on the left side of a
/// word, and a column for each one on the right side; the edges of the text have the identifier
/// zero.
pub open spec fn cells_of(g: GrammarModel, way: Seq<Node>) -> Seq<int> {
    Seq::new(
        way.len() + 1,
        |k: int|
            if k == 0 {
                way[0].left_id * g.columns
            } else if k == way.len() {
                way[k - 1].right_id as int
            } else {
                way[k].left_id * g.columns + way[k - 1].right_id
            },
    )
}

/// What the matrix has in the given cells.
pub open spec fn in_cells(costs: Seq<i16>, cells: Seq<int>) -> Seq<int> {
    cells.map_values(|cell: int| costs[cell] as int)
}

/// The costs of the words themselves.
pub open spec fn own_costs(way: Seq<Node>) -> Seq<int> {
    way.map_values(|node: Node| node.cost as int)
}

/// The identifiers of words are in the matrix, which has all of its cells.
pub open spec fn has_cells(g: GrammarModel, way: Seq<Node>) -> bool {
    &&& g.rows > 0
    &&& g.columns > 0
    &&& g.costs.len() == g.rows * g.columns
    &&& forall|k: int|
        0 <= k < way.len() ==> (#[trigger] way[k]).left_id < g.rows && way[k].right_id < g.columns
}

/// The cost of a connection is what the matrix has in the row of the word behind and the column
/// of the word before, whether that is negative or not.
pub proof fn law_connection_is_a_cell(g: GrammarModel, left: u16, right: u16)
    requires
        left < g.columns,
        right < g.rows,
    ensures
        connection(g, left, right) == g.costs[right * g.columns + left],
{
}

/// The cost of the words up to the last one is the sum of their own costs and of the cells
/// before each of them.
proof fn lemma_way_cost_sum(g: GrammarModel, way: Seq<Node>)
    requires
        way.len() > 0,
    ensures
        way_cost(g, way) == total(own_costs(way)) + total(
            in_cells(g.costs, cells_of(g, way)).drop_last(),
        ),
    decreases way.len(),
{
    let before = way.drop_last();
    let own = own_costs(way);
    let cells = in_cells(g.costs, cells_of(g, way)).drop_last();
    assert(own.drop_last() =~= own_costs(before));
    if before.len() > 0 {
        lemma_way_cost_sum(g, before);
        assert(cells.drop_last() =~= in_cells(g.costs, cells_of(g, before)).drop_last());
    } else {
        assert(way_cost(g, before) == 0);
        assert(cells.drop_last() =~= Seq::<int>::empty());
        assert(own.drop_last() =~= Seq::<int>::empty());
        assert(total(Seq::<int>::empty()) == 0);
    }
}

/// A way through the whole text costs the sum of the costs of its words and of what the matrix
/// has in the cells that the way uses, those at both edges of the text included.
pub proof fn law_cost_is_a_sum(g: GrammarModel, way: Seq<Node>)
    requires
        way.len() > 0,
    ensures
        full_cost(g, way) == total(own_costs(way)) + total(in_cells(g.costs, cells_of(g, way))),
{
    lemma_way_cost_sum(g, way);
    assert(0 * g.columns == 0) by (nonlinear_arith);
}

/// The best way is one whose sum is no larger than that of any other row of words from the
/// beginning to the end of the text, each word beginning where the one before ends.
pub proof fn law_best_way_has_the_smallest_sum(
    g: GrammarModel,
    nodes: Seq<Node>,
    way: Seq<Node>,
    other: Seq<Node>,
    len: nat,
)
    requires
        is_best_way(g, nodes, way, len),
        other.len() > 0,
        other[0].begin == 0,
        other.last().end == len,
        forall|k: int| 0 <= k < other.len() ==> nodes.contains(#[trigger] other[k]),
        forall|k: int|
            0 < k < other.len() ==> other[k - 1].end == (#[trigger] other[k]).begin,
    ensures
        way.len() > 0,
        way[0].begin == 0,
        way.last().end == len,
        forall|k: int| 0 <= k < way.len() ==> nodes.contains(#[trigger] way[k]),
        forall|k: int| 0 < k < way.len() ==> way[k - 1].end == (#[trigger] way[k]).begin,
        total(own_costs(way)) + total(in_cells(g.costs, cells_of(g, way))) <= total(
            own_costs(other),
        ) + total(in_cells(g.costs, cells_of(g, other))),
{
    assert(is_full_way(nodes, other, len));
    law_cost_is_a_sum(g, way);
    law_cost_is_a_sum(g, other);
}

/// For each of the given cells, one if it is `cell` and zero otherwise.
pub open spec fn uses_of(cells: Seq<int>, cell: int) -> Seq<int> {
    cells.map_values(
        |c: int|
            if c == cell {
                1int
            } else {
                0int
            },
    )
}

/// Changing one cell changes the sum over cells by as much for each use of it.
proof fn lemma_cell_changed(costs: Seq<i16>, cells: Seq<int>, cell: int, value: i16)
    requires
        0 <= cell < costs.len(),
        forall|k: int| 0 <= k < cells.len() ==> 0 <= #[trigger] cells[k] < costs.len(),
    ensures
        total(in_cells(costs.update(cell, value), cells)) == total(in_cells(costs, cells)) + (value
            - costs[cell]) * total(uses_of(cells, cell)),
    decreases cells.len(),
{
    let d = value - costs[cell];
    if cells.len() == 0 {
        assert(d * 0 == 0);
    } else {
        let before = cells.drop_last();
        lemma_cell_changed(costs, before, cell, value);
        assert(in_cells(costs.update(cell, value), cells).drop_last() =~= in_cells(
            costs.update(cell, value),
            before,
        ));
        assert(in_cells(costs, cells).drop_last() =~= in_cells(costs, before));
        assert(uses_of(cells, cell).drop_last() =~= uses_of(before, cell));
        let uses = total(uses_of(before, cell));
        let one = uses_of(cells, cell).last();
        assert(d * (uses + one) == d * uses + d * one) by (nonlinear_arith);
        assert(cells.last() == cell ==> d * one == d);
        assert(cells.last() != cell ==> d * one == 0);
    }
}

/// The cells that a way uses are in the matrix.
proof fn lemma_cells_within(g: GrammarModel, way: Seq<Node>)
    requires
        way.len() > 0,
        has_cells(g, way),
    ensures
        forall|k: int|
            0 <= k <= way.len() ==> 0 <= #[trigger] cells_of(g, way)[k] < g.costs.len(),
{
    let columns = g.columns as int;
    let rows = g.rows as int;
    assert forall|k: int| 0 <= k <= way.len() implies 0 <= #[trigger] cells_of(g, way)[k]
        < g.costs.len() by {
        let row = if k < way.len() {
            way[k].left_id as int
        } else {
            0
        };
        let column = if k > 0 {
            way[k - 1].right_id as int
        } else {
            0
        };
        if k < way.len() {
            assert(way[k].left_id < g.rows);
        }
        if k > 0 {
            assert(way[k - 1].right_id < g.columns);
        }
        assert(0 <= row * columns + column < rows * columns) by (nonlinear_arith)
            requires
                0 <= row < rows,
                0 <= column < columns,
        ;
        assert(row == 0 ==> row * columns == 0) by (nonlinear_arith);
    }
}

/// Changing one cell of the matrix changes the cost of a way through the whole text by the
/// difference for each connection of the way that uses the cell, and not at all where none does;
/// so lowering a cell that is used once lowers the cost by exactly as much.
pub proof fn law_cell_tells_in_the_cost(
    g: GrammarModel,
    way: Seq<Node>,
    cell: int,
    value: i16,
)
    requires
        way.len() > 0,
        has_cells(g, way),
        0 <= cell < g.costs.len(),
    ensures
        full_cost((GrammarModel { costs: g.costs.update(cell, value), ..g }), way) == full_cost(
            g,
            way,
        ) + (value - g.costs[cell]) * total(uses_of(cells_of(g, way), cell)),
{
    let changed = GrammarModel { costs: g.costs.update(cell, value), ..g };
    law_cost_is_a_sum(g, way);
    law_cost_is_a_sum(changed, way);
    lemma_cells_within(g, way);
    assert(cells_of(changed, way) =~= cells_of(g, way));
    lemma_cell_changed(g.costs, cells_of(g, way), cell, value);
}

/// The word among the first `n` ones by which word `k` is reached at the lowest cost, if a word
/// ends where it begins; the first one where several are as good.
pub open spec fn cheapest_before(g: GrammarModel, nodes: Seq<Node>, k: nat, n: nat) -> Option<nat>
    decreases k, n,
{
    if n == 0 || n > k {
        None
    } else {
        let j = (n - 1) as nat;
        match cheapest_before(g, nodes, k, j) {
            Some(i) => if nodes[j as int].end == nodes[k as int].begin && cost_via(g, nodes, j, k)
                < cost_via(g, nodes, i, k) {
                Some(j)
            } else {
                Some(i)
            },
            None => if nodes[j as int].end == nodes[k as int].begin {
                Some(j)
            } else {
                None
            },
        }
    }
}

/// The lowest cost of reaching word `k` by way of the earlier word `j`, without its own cost.
pub open spec fn cost_via(g: GrammarModel, nodes: Seq<Node>, j: nat, k: nat) -> int
    decreases k, 0nat,
{
    if j < k {
        lowest_cost(g, nodes, j) + connection(
            g,
            nodes[j as int].right_id,
            nodes[k as int].left_id,
        )
    } else {
        0
    }
}

/// The lowest cost of reaching word `k`, with its own cost.
pub open spec fn lowest_cost(g: GrammarModel, nodes: Seq<Node>, k: nat) -> int
    decreases k, k + 1,
{
    let node = nodes[k as int];
    match cheapest_before(g, nodes, k, k) {
        Some(j) => cost_via(g, nodes, j, k) + node.cost,
        None => connection(g, EDGE_ID, node.left_id) + node.cost,
    }
}

/// The words by which word `k` is reached at the lowest cost, and the word itself.
pub open spec fn kept_way_to(g: GrammarModel, nodes: Seq<Node>, k: nat) -> Seq<Node>
    decreases k,
{
    match cheapest_before(g, nodes, k, k) {
        Some(j) => if j < k {
            kept_way_to(g, nodes, j).push(nodes[k as int])
        } else {
            Seq::empty()
        },
        None => seq![nodes[k as int]],
    }
}

/// The cost of a way that ends with word `k`, the end of the text behind it.
pub open spec fn cost_at_end(g: GrammarModel, nodes: Seq<Node>, k: nat) -> int {
    lowest_cost(g, nodes, k) + connection(g, nodes[k as int].right_id, EDGE_ID)
}

/// The word among the first `n` ones that a cheapest way through a text of `len` characters ends
/// with; the first one where several are as good.
pub open spec fn cheapest_last(g: GrammarModel, nodes: Seq<Node>, len: nat, n: nat) -> Option<nat>
    decreases n,
{
    if n == 0 {
        None
    } else {
        let j = (n - 1) as nat;
        match cheapest_last(g, nodes, len, j) {
            Some(i) => if nodes[j as int].end == len && cost_at_end(g, nodes, j) < cost_at_end(
                g,
                nodes,
                i,
            ) {
                Some(j)
            } else {
                Some(i)
            },
            None => if nodes[j as int].end == len {
                Some(j)
            } else {
                None
            },
        }
    }
}

/// The way through a text of `len` characters that is taken of all cheapest ones: wherever several
/// words are as good, the one that comes first in the lattice.
pub open spec fn kept_way(g: GrammarModel, nodes: Seq<Node>, len: nat) -> Seq<Node> {
    match cheapest_last(g, nodes, len, nodes.len()) {
        Some(k) => kept_way_to(g, nodes, k),
        None => Seq::empty(),
    }
}

/// Of the words that end where a word begins, the one that is kept before it is reached there at
/// the lowest cost, and earlier words in the lattice only at higher ones.
proof fn lemma_first_of_the_cheapest(g: GrammarModel, nodes: Seq<Node>, k: nat, n: nat, j: nat)
    requires
        n <= k,
        j < n,
        nodes[j as int].end == nodes[k as int].begin,
    ensures
        cheapest_before(g, nodes, k, n) matches Some(i) && i < n && nodes[i as int].end
            == nodes[k as int].begin && cost_via(g, nodes, i, k) <= cost_via(g, nodes, j, k) && (j
            < i ==> cost_via(g, nodes, i, k) < cost_via(g, nodes, j, k)),
    decreases n,
{
    if j < n - 1 {
        lemma_first_of_the_cheapest(g, nodes, k, (n - 1) as nat, j);
    } else if let Some(i) = cheapest_before(g, nodes, k, (n - 1) as nat) {
        lemma_kept_before_ends_there(g, nodes, k, (n - 1) as nat);
    }
}

/// The word that is kept before a word ends where that begins.
proof fn lemma_kept_before_ends_there(g: GrammarModel, nodes: Seq<Node>, k: nat, n: nat)
    ensures
        cheapest_before(g, nodes, k, n) matches Some(i) ==> i < n <= k && nodes[i as int].end
            == nodes[k as int].begin,
    decreases n,
{
    if 0 < n <= k {
        lemma_kept_before_ends_there(g, nodes, k, (n - 1) as nat);
    }
}

/// Of all words of which a way through the text may end, the one that is kept ends the cheapest
/// way, and earlier ones in the lattice only dearer ways.
proof fn lemma_first_of_the_last(g: GrammarModel, nodes: Seq<Node>, len: nat, n: nat, j: nat)
    requires
        j < n <= nodes.len(),
        nodes[j as int].end == len,
    ensures
        cheapest_last(g, nodes, len, n) matches Some(i) && i < n && nodes[i as int].end == len
            && cost_at_end(g, nodes, i) <= cost_at_end(g, nodes, j) && (j < i ==> cost_at_end(
            g,
            nodes,
            i,
        ) < cost_at_end(g, nodes, j)),
    decreases n,
{
    if j < n - 1 {
        lemma_first_of_the_last(g, nodes, len, (n - 1) as nat, j);
    } else if let Some(i) = cheapest_last(g, nodes, len, (n - 1) as nat) {
        lemma_kept_last_ends_there(g, nodes, len, (n - 1) as nat);
    }
}

/// The word that is kept at the end of a text ends there.
proof fn lemma_kept_last_ends_there(g: GrammarModel, nodes: Seq<Node>, len: nat, n: nat)
    ensures
        cheapest_last(g, nodes, len, n) matches Some(i) ==> i < n && nodes[i as int].end == len,
    decreases n,
{
    if n > 0 {
        lemma_kept_last_ends_there(g, nodes, len, (n - 1) as nat);
    }
}

/// What the kept way to a word costs is the lowest cost of the word.
proof fn lemma_kept_way_costs(g: GrammarModel, nodes: Seq<Node>, k: nat)
    ensures
        kept_way_to(g, nodes, k).len() > 0,
        kept_way_to(g, nodes, k).last() == nodes[k as int],
        way_cost(g, kept_way_to(g, nodes, k)) == lowest_cost(g, nodes, k),
    decreases k,
{
    let way = kept_way_to(g, nodes, k);
    lemma_kept_before_ends_there(g, nodes, k, k);
    match cheapest_before(g, nodes, k, k) {
        Some(j) => {
            lemma_kept_way_costs(g, nodes, j);
            assert(way.drop_last() =~= kept_way_to(g, nodes, j));
        },
        None => {
            assert(way.drop_last() =~= Seq::<Node>::empty());
            assert(way_cost(g, way.drop_last()) == 0);
        },
    }
}

/// Where several words are as good before a word, or at the end of the text, the one that comes
/// first in the lattice is kept: the way to the word that is kept costs no more, with the
/// connection behind it, than that to any other word `j` that ends there, and less where that one
/// comes earlier in the lattice.
pub proof fn law_ties_go_to_the_first_word(
    g: GrammarModel,
    nodes: Seq<Node>,
    len: nat,
    k: nat,
    j: nat,
)
    requires
        j < nodes.len(),
        k < nodes.len(),
    ensures
        j < k && nodes[j as int].end == nodes[k as int].begin ==> exists|i: nat|
            {
                &&& i < k
                &&& nodes[i as int].end == nodes[k as int].begin
                &&& kept_way_to(g, nodes, k) == (#[trigger] kept_way_to(g, nodes, i)).push(
                    nodes[k as int],
                )
                &&& way_cost(g, kept_way_to(g, nodes, i)) + g.costs[nodes[k as int].left_id
                    * g.columns + nodes[i as int].right_id] + (if j < i {
                    1int
                } else {
                    0int
                }) <= way_cost(g, kept_way_to(g, nodes, j)) + g.costs[nodes[k as int].left_id
                    * g.columns + nodes[j as int].right_id]
            },
        nodes[j as int].end == len ==> exists|i: nat|
            {
                &&& i < nodes.len()
                &&& nodes[i as int].end == len
                &&& kept_way(g, nodes, len) == #[trigger] kept_way_to(g, nodes, i)
                &&& full_cost(g, kept_way_to(g, nodes, i)) + (if j < i {
                    1int
                } else {
                    0int
                }) <= full_cost(g, kept_way_to(g, nodes, j))
            },
{
    lemma_kept_way_costs(g, nodes, j);
    if j < k && nodes[j as int].end == nodes[k as int].begin {
        lemma_first_of_the_cheapest(g, nodes, k, k, j);
        let i = cheapest_before(g, nodes, k, k).unwrap();
        lemma_kept_way_costs(g, nodes, i);
        assert(kept_way_to(g, nodes, k) == kept_way_to(g, nodes, i).push(nodes[k as int]));
    }
    if nodes[j as int].end == len {
        lemma_first_of_the_last(g, nodes, len, nodes.len(), j);
        let i = cheapest_last(g, nodes, len, nodes.len()).unwrap();
        lemma_kept_way_costs(g, nodes, i);
        assert(kept_way(g, nodes, len) == kept_way_to(g, nodes, i));
    }
}

/// The words up to a character are the candidates at the characters before it that are reached.
proof fn lemma_lattice_up_to(m: LoadedModel, t: TextModel, p: nat, node: Node)
    requires
        p <= t.chars.len() <= usize::MAX,
        lattice_up_to(m, t, p) matches Some(Ok(nodes)),
    ensures
        ({
            let nodes = lattice_up_to(m, t, p).unwrap().unwrap();
            nodes.contains(node) <==> {
                &&& node.begin < p
                &&& candidates::candidates(m, t, node.begin as nat) matches Some(own)
                    && own.contains(node)
                &&& reachable(
                    lattice_up_to(m, t, node.begin as nat).unwrap().unwrap(),
                    node.begin as nat,
                )
            }
        }),
    decreases p,
{
    if p > 0 {
        let at = (p - 1) as nat;
        let before = lattice_up_to(m, t, at).unwrap().unwrap();
        let nodes = lattice_up_to(m, t, p).unwrap().unwrap();
        lemma_lattice_up_to(m, t, at, node);
        if reachable(before, at) {
            let own = candidates::candidates(m, t, at).unwrap();
            candidates::lemma_candidates_proper(m, t, at);
            if before.contains(node) {
                let i = choose|i: int| 0 <= i < before.len() && before[i] == node;
                assert(nodes[i] == node);
            }
            if own.contains(node) {
                let i = choose|i: int| 0 <= i < own.len() && own[i] == node;
                assert(nodes[before.len() + i] == node);
                assert(own[i].begin == at);
            }
            if nodes.contains(node) {
                let i = choose|i: int| 0 <= i < nodes.len() && nodes[i] == node;
                if i >= before.len() {
                    assert(own[i - before.len()] == node);
                    assert(own[i - before.len()].begin == at);
                } else {
                    assert(before[i] == node);
                }
            }
        }
    }
}

/// A character is reached by the words before it where it is reached by all words.
proof fn lemma_reached_before(m: LoadedModel, t: TextModel, p: nat, at: nat)
    requires
        at <= p <= t.chars.len() <= usize::MAX,
        lattice_up_to(m, t, p) matches Some(Ok(nodes)),
    ensures
        lattice_up_to(m, t, at) matches Some(Ok(nodes)),
        reachable(lattice_up_to(m, t, at).unwrap().unwrap(), at) <==> reachable(
            lattice_up_to(m, t, p).unwrap().unwrap(),
            at,
        ),
    decreases p,
{
    if at < p {
        lemma_reached_before(m, t, (p - 1) as nat, at);
        let before = lattice_up_to(m, t, (p - 1) as nat).unwrap().unwrap();
        let nodes = lattice_up_to(m, t, p).unwrap().unwrap();
        if reachable(before, (p - 1) as nat) {
            candidates::lemma_candidates_proper(m, t, (p - 1) as nat);
            let own = candidates::candidates(m, t, (p - 1) as nat).unwrap();
            if reachable(nodes, at) && at != 0 {
                let k = choose|k: int| 0 <= k < nodes.len() && (#[trigger] nodes[k]).end == at;
                if k >= before.len() {
                    assert(own[k - before.len()] == nodes[k]);
                } else {
                    assert(before[k] == nodes[k]);
                }
            }
            if reachable(before, at) && at != 0 {
                let k = choose|k: int| 0 <= k < before.len() && (#[trigger] before[k]).end == at;
                assert(nodes[k] == before[k]);
            }
        }
    }
}

/// A text has no lattice exactly where a character is reached at which no word may stand, by words
/// of the lattice before it.
pub proof fn law_text_ends_where_no_word_begins(m: LoadedModel, t: TextModel, p: nat)
    ensures
        lattice_up_to(m, t, p) == Some(Err::<Seq<Node>, ()>(())) <==> exists|q: nat|
            q < p && #[trigger] ends_dead(m, t, q),
    decreases p,
{
    if p > 0 {
        law_text_ends_where_no_word_begins(m, t, (p - 1) as nat);
        if lattice_up_to(m, t, p) == Some(Err::<Seq<Node>, ()>(())) {
            if lattice_up_to(m, t, (p - 1) as nat) != Some(Err::<Seq<Node>, ()>(())) {
                assert(candidates::candidates(m, t, (p - 1) as nat).unwrap() =~= Seq::empty());
                assert(ends_dead(m, t, (p - 1) as nat));
            }
        }
        if exists|q: nat| q < p && #[trigger] ends_dead(m, t, q) {
            let q = choose|q: nat| q < p && #[trigger] ends_dead(m, t, q);
            if q < p - 1 {
                assert(lattice_up_to(m, t, (p - 1) as nat) == Some(Err::<Seq<Node>, ()>(())));
            }
        }
    }
}

/// Character `p` is reached, and no word may stand there.
pub open spec fn ends_dead(m: LoadedModel, t: TextModel, p: nat) -> bool {
    &&& lattice_up_to(m, t, p) matches Some(Ok(nodes)) && reachable(nodes, p)
    &&& candidates::candidates(m, t, p) == Some(Seq::<Node>::empty())
}

/// The lattice of a text holds exactly the words that may stand at the beginning of the text, or
/// where another word of the lattice ends.
pub proof fn law_lattice_holds_the_words_that_are_reached(
    m: LoadedModel,
    t: TextModel,
    nodes: Seq<Node>,
    node: Node,
)
    requires
        t.chars.len() <= usize::MAX,
        lattice_of(m, t) == Some(Ok::<Seq<Node>, ()>(nodes)),
    ensures
        nodes.contains(node) <==> {
            &&& node.begin < t.chars.len()
            &&& candidates::candidates(m, t, node.begin as nat) matches Some(own) && own.contains(
                node,
            )
            &&& node.begin == 0 || exists|k: int|
                0 <= k < nodes.len() && (#[trigger] nodes[k]).end == node.begin
        },
{
    lemma_lattice_up_to(m, t, t.chars.len(), node);
    if node.begin < t.chars.len() {
        lemma_reached_before(m, t, t.chars.len(), node.begin as nat);
    }
}

/// The words are sorted by their beginnings, lie within the text and have their identifiers in
/// the matrix.
pub open spec fn proper_lattice(g: GrammarModel, nodes: Seq<Node>, p: nat, len: nat) -> bool {
    &&& forall|k: int|
        0 <= k < nodes.len() ==> {
            &&& (#[trigger] nodes[k]).begin < nodes[k].end <= len
            &&& nodes[k].begin < p
            &&& nodes[k].left_id < g.rows
            &&& nodes[k].right_id < g.columns
        }
    &&& forall|j: int, k: int|
        0 <= j < k < nodes.len() ==> (#[trigger] nodes[j]).begin <= (#[trigger] nodes[k]).begin
}

/// A word with the lowest cost at which it can be reached and the word before it on that way.
struct Step {
    node: Node,
    total: i64,
    /// The step of the word before; none at the beginning of the text.
    before: Option<usize>,
}

/// The words of steps.
spec fn step_nodes(steps: Seq<Step>) -> Seq<Node> {
    steps.map_values(|step: Step| step.node)
}

/// The cost of reaching a word from the one before it at step `j`, or from the beginning.
spec fn arrival(g: GrammarModel, steps: Seq<Step>, before: Option<usize>, node: Node) -> int {
    match before {
        Some(j) => steps[j as int].total + connection(
            g,
            steps[j as int].node.right_id,
            node.left_id,
        ) + node.cost,
        None => connection(g, EDGE_ID, node.left_id) + node.cost,
    }
}

/// Whether the word before a word can be the one of step `j`, or the beginning.
spec fn leads_to(steps: Seq<Step>, before: Option<usize>, node: Node) -> bool {
    match before {
        Some(j) => j < steps.len() && steps[j as int].node.end == node.begin,
        None => node.begin == 0,
    }
}

/// A step has the lowest cost of all ways to its word, by way of the word that it names, which is
/// the first one with that cost.
spec fn is_best_step(g: GrammarModel, steps: Seq<Step>, step: Step) -> bool {
    &&& leads_to(steps, step.before, step.node)
    &&& step.total == arrival(g, steps, step.before, step.node)
    &&& forall|j: Option<usize>| #[trigger]
        leads_to(steps, j, step.node) ==> step.total <= arrival(g, steps, j, step.node)
    &&& forall|j: Option<usize>| #[trigger]
        leads_to(steps, j, step.node) && comes_before(j, step.before) ==> step.total < arrival(
            g,
            steps,
            j,
            step.node,
        )
}

/// `a` names an earlier step than `b`.
spec fn comes_before(a: Option<usize>, b: Option<usize>) -> bool {
    a matches Some(i) && b matches Some(j) && i < j
}

/// Every step has the lowest cost, which is not too far from zero, and comes behind the one that
/// it names.
spec fn best_steps(g: GrammarModel, steps: Seq<Step>) -> bool {
    forall|k: int|
        0 <= k < steps.len() ==> {
            &&& is_best_step(g, steps, #[trigger] steps[k])
            &&& -0x1_0000 * steps[k].node.end <= steps[k].total <= 0x1_0000 * steps[k].node.end
            &&& steps[k].before matches Some(j) ==> j < k
        }
}

/// The way that the steps name for step `k`.
spec fn way_to(steps: Seq<Step>, k: int) -> Seq<Node>
    decreases k,
{
    match steps[k].before {
        Some(j) => if 0 <= j < k {
            way_to(steps, j as int).push(steps[k].node)
        } else {
            seq![steps[k].node]
        },
        None => seq![steps[k].node],
    }
}

/// The way that the steps name is a way, with the cost that the step has.
proof fn lemma_way_to(g: GrammarModel, steps: Seq<Step>, k: int)
    requires
        best_steps(g, steps),
        0 <= k < steps.len(),
    ensures
        is_way(step_nodes(steps), way_to(steps, k)),
        way_to(steps, k).last() == steps[k].node,
        way_cost(g, way_to(steps, k)) == steps[k].total,
    decreases k,
{
    let nodes = step_nodes(steps);
    let way = way_to(steps, k);
    let step = steps[k];
    assert(is_best_step(g, steps, step));
    assert(nodes[k] == step.node);
    assert(nodes.contains(step.node));
    if step.before is None {
        assert(way.drop_last() =~= Seq::empty());
        assert(way_cost(g, way.drop_last()) == 0);
    } else {
        let before = step.before.unwrap() as int;
        lemma_way_to(g, steps, before);
        let prefix = way_to(steps, before);
        assert(way.drop_last() =~= prefix);
        assert forall|i: int| 0 <= i < way.len() implies nodes.contains(#[trigger] way[i]) by {
            if i < prefix.len() {
                assert(way[i] == prefix[i]);
            }
        }
        assert forall|i: int| 0 < i < way.len() implies way[i - 1].end == (
        #[trigger] way[i]).begin by {
            if i < prefix.len() {
                assert(way[i] == prefix[i] && way[i - 1] == prefix[i - 1]);
            } else {
                assert(way[i - 1] == prefix.last());
            }
        }
        assert(way[0] == prefix[0]);
    }
}

/// No way to the word of a step costs less than the step.
proof fn lemma_no_cheaper_way(g: GrammarModel, steps: Seq<Step>, way: Seq<Node>, k: int)
    requires
        best_steps(g, steps),
        0 <= k < steps.len(),
        steps.len() <= usize::MAX,
        is_way(step_nodes(steps), way),
        way.last() == steps[k].node,
    ensures
        steps[k].total <= way_cost(g, way),
    decreases way.len(),
{
    let nodes = step_nodes(steps);
    let step = steps[k];
    assert(is_best_step(g, steps, step));
    let prefix = way.drop_last();
    if prefix.len() == 0 {
        assert(way[0] == step.node);
        assert(leads_to(steps, None, step.node));
        assert(way_cost(g, prefix) == 0);
    } else {
        let i = way.len() - 2;
        assert(nodes.contains(way[i]));
        let j = choose|j: int| 0 <= j < nodes.len() && nodes[j] == way[i];
        assert(steps[j].node == way[i]);
        assert(way[i + 1].begin == way[i].end);
        assert(prefix.last() == way[i]);
        assert(is_way(nodes, prefix)) by {
            assert(prefix[0] == way[0]);
            assert forall|a: int| 0 <= a < prefix.len() implies nodes.contains(
                #[trigger] prefix[a],
            ) by {
                assert(prefix[a] == way[a]);
            }
            assert forall|a: int| 0 < a < prefix.len() implies prefix[a - 1].end == (
            #[trigger] prefix[a]).begin by {
                assert(prefix[a] == way[a] && prefix[a - 1] == way[a - 1]);
            }
        }
        lemma_no_cheaper_way(g, steps, prefix, j);
        assert(leads_to(steps, Some(j as usize), step.node));
    }
}

/// What is kept of the word before word `k` among the first `n` ones is the first best one.
proof fn lemma_cheapest_before(
    g: GrammarModel,
    steps: Seq<Step>,
    p: nat,
    len: nat,
    k: nat,
    n: nat,
)
    requires
        best_steps(g, steps),
        proper_lattice(g, step_nodes(steps), p, len),
        n <= k < steps.len() <= usize::MAX,
    ensures
        ({
            let node = steps[k as int].node;
            match cheapest_before(g, step_nodes(steps), k, n) {
                None => forall|j: int| 0 <= j < n ==> (#[trigger] steps[j]).node.end != node.begin,
                Some(i) => {
                    &&& i < n
                    &&& steps[i as int].node.end == node.begin
                    &&& forall|j: int|
                        0 <= j < n && (#[trigger] steps[j]).node.end == node.begin ==> {
                            &&& arrival(g, steps, Some(i as usize), node) <= arrival(
                                g,
                                steps,
                                Some(j as usize),
                                node,
                            )
                            &&& j < i ==> arrival(g, steps, Some(i as usize), node) < arrival(
                                g,
                                steps,
                                Some(j as usize),
                                node,
                            )
                        }
                },
            }
        }),
    decreases k, n,
{
    let nodes = step_nodes(steps);
    assert(nodes[k as int] == steps[k as int].node);
    if n > 0 {
        let j = (n - 1) as nat;
        lemma_cheapest_before(g, steps, p, len, k, j);
        lemma_kept_way_to(g, steps, p, len, j);
        let node = steps[k as int].node;
        assert(nodes[j as int] == steps[j as int].node);
        reveal_with_fuel(cheapest_before, 2);
        reveal_with_fuel(cost_via, 2);
        assert(cost_via(g, nodes, j, k) + node.cost == arrival(
            g,
            steps,
            Some(j as usize),
            node,
        ));
        if let Some(i) = cheapest_before(g, nodes, k, j) {
            lemma_kept_way_to(g, steps, p, len, i);
            assert(nodes[i as int] == steps[i as int].node);
            assert(cost_via(g, nodes, i, k) + node.cost == arrival(
                g,
                steps,
                Some(i as usize),
                node,
            ));
        }
    }
}

/// The steps have the lowest costs, and name the ways that are kept.
proof fn lemma_kept_way_to(g: GrammarModel, steps: Seq<Step>, p: nat, len: nat, k: nat)
    requires
        best_steps(g, steps),
        proper_lattice(g, step_nodes(steps), p, len),
        k < steps.len() <= usize::MAX,
    ensures
        steps[k as int].total == lowest_cost(g, step_nodes(steps), k),
        way_to(steps, k as int) == kept_way_to(g, step_nodes(steps), k),
    decreases k, k + 1,
{
    let nodes = step_nodes(steps);
    let step = steps[k as int];
    assert(nodes[k as int] == step.node);
    assert(is_best_step(g, steps, step));
    lemma_cheapest_before(g, steps, p, len, k, k);
    match step.before {
        None => {
            if let Some(i) = cheapest_before(g, nodes, k, k) {
                assert(nodes[i as int] == steps[i as int].node);
            }
        },
        Some(b) => {
            assert(nodes[b as int] == steps[b as int].node);
            assert(steps[b as int].node.end == step.node.begin);
            let i = cheapest_before(g, nodes, k, k).unwrap();
            assert(leads_to(steps, Some(i as usize), step.node));
            assert(i == b);
            lemma_kept_way_to(g, steps, p, len, i);
        },
    }
}

/// What is kept of the last word of a way among the first `n` ones is the first best one.
proof fn lemma_cheapest_last(
    g: GrammarModel,
    steps: Seq<Step>,
    p: nat,
    len: nat,
    n: nat,
)
    requires
        best_steps(g, steps),
        proper_lattice(g, step_nodes(steps), p, len),
        n <= steps.len() <= usize::MAX,
    ensures
        match cheapest_last(g, step_nodes(steps), len, n) {
            None => forall|j: int| 0 <= j < n ==> (#[trigger] steps[j]).node.end != len,
            Some(i) => {
                &&& i < n
                &&& steps[i as int].node.end == len
                &&& forall|j: int|
                    0 <= j < n && (#[trigger] steps[j]).node.end == len ==> {
                        &&& end_total(g, steps[i as int]) <= end_total(g, steps[j])
                        &&& j < i ==> end_total(g, steps[i as int]) < end_total(g, steps[j])
                    }
            },
        },
    decreases n,
{
    let nodes = step_nodes(steps);
    if n > 0 {
        let j = (n - 1) as nat;
        lemma_cheapest_last(g, steps, p, len, j);
        lemma_kept_way_to(g, steps, p, len, j);
        assert(nodes[j as int] == steps[j as int].node);
        if let Some(i) = cheapest_last(g, nodes, len, j) {
            lemma_kept_way_to(g, steps, p, len, i);
            assert(nodes[i as int] == steps[i as int].node);
        }
    }
}

/// The cost of ending the text with the word of a step.
spec fn end_total(g: GrammarModel, step: Step) -> int {
    step.total + connection(g, step.node.right_id, EDGE_ID)
}

/// Connection costs are 16-bit integers.
proof fn lemma_connection_range(g: GrammarModel, left: u16, right: u16)
    ensures
        -0x8000 <= connection(g, left, right) <= 0x7fff,
{
}

/// Steps behind others leave these the best, as they end behind where these begin.
proof fn lemma_steps_behind(g: GrammarModel, steps: Seq<Step>, more: Seq<Step>, p: nat)
    requires
        best_steps(g, steps),
        steps.len() <= more.len(),
        more.take(steps.len() as int) == steps,
        forall|k: int| 0 <= k < steps.len() ==> (#[trigger] steps[k]).node.begin <= p,
        forall|k: int| steps.len() <= k < more.len() ==> (#[trigger] more[k]).node.end > p,
    ensures
        forall|k: int|
            0 <= k < steps.len() ==> {
                &&& is_best_step(g, more, #[trigger] more[k])
                &&& more[k] == steps[k]
            },
{
    assert forall|k: int| 0 <= k < steps.len() implies {
        &&& is_best_step(g, more, #[trigger] more[k])
        &&& more[k] == steps[k]
    } by {
        assert(more.take(steps.len() as int)[k] == more[k]);
        let step = steps[k];
        assert(is_best_step(g, steps, step));
        if let Some(j) = step.before {
            assert(more.take(steps.len() as int)[j as int] == more[j as int]);
        }
        assert forall|before: Option<usize>| #[trigger]
            leads_to(more, before, step.node) implies {
            &&& step.total <= arrival(g, more, before, step.node)
            &&& comes_before(before, step.before) ==> step.total < arrival(
                g,
                more,
                before,
                step.node,
            )
        } by {
            if let Some(j) = before {
                if j < steps.len() {
                    assert(more.take(steps.len() as int)[j as int] == more[j as int]);
                }
            }
            assert(leads_to(steps, before, step.node));
        }
    }
}

/// The lattice of a text: for each word the cheapest way to it, and for each character the words
/// that end there.
pub struct Lattice {
    steps: Vec<Step>,
    ends: Vec<Vec<usize>>,
}

impl Lattice {
    /// The words of the lattice.
    pub closed spec fn nodes(self) -> Seq<Node> {
        step_nodes(self.steps@)
    }

    /// Number of characters of the text.
    pub closed spec fn text_len(self) -> nat {
        (self.ends@.len() - 1) as nat
    }

    /// The lists of words by their ends are right.
    closed spec fn ends_ok(self) -> bool {
        &&& self.ends@.len() > 0
        &&& forall|p: int, i: int|
            0 <= p < self.ends@.len() && 0 <= i < self.ends@[p]@.len() ==> {
                &&& (#[trigger] self.ends@[p]@[i]) < self.steps@.len()
                &&& self.steps@[self.ends@[p]@[i] as int].node.end == p
            }
        &&& forall|k: int|
            0 <= k < self.steps@.len() ==> (#[trigger] self.steps@[k]).node.end < self.ends@.len()
                && self.ends@[self.steps@[k].node.end as int]@.contains(k as usize)
        &&& forall|p: int, i: int, j: int|
            0 <= p < self.ends@.len() && 0 <= i < j < self.ends@[p]@.len() ==> (
            #[trigger] self.ends@[p]@[i]) < (#[trigger] self.ends@[p]@[j])
    }

    /// The words begin before character `p`, and the ways to them are the cheapest ones.
    pub closed spec fn wf(self, g: GrammarModel, p: nat) -> bool {
        &&& self.ends_ok()
        &&& g.columns > 0
        &&& g.rows > 0
        &&& self.text_len() <= MAX_LENGTH
        &&& proper_lattice(g, self.nodes(), p, self.text_len())
        &&& best_steps(g, self.steps@)
    }

    /// Words that begin before a character begin before the next one.
    pub proof fn lemma_wf_grows(self, g: GrammarModel, p: nat)
        requires
            self.wf(g, p),
        ensures
            self.wf(g, p + 1),
    {
    }

    /// The lattice of a text of `len` characters without words.
    pub fn new(len: usize, Ghost(g): Ghost<GrammarModel>) -> (lattice: Lattice)
        requires
            len <= MAX_LENGTH,
            g.columns > 0,
            g.rows > 0,
        ensures
            lattice.wf(g, 0),
            lattice.nodes() == Seq::<Node>::empty(),
            lattice.text_len() == len,
    {
        let mut ends: Vec<Vec<usize>> = Vec::new();
        let mut i: usize = 0;
        while i <= len
            invariant
                i <= len + 1,
                len <= MAX_LENGTH,
                ends@.len() == i,
                forall|p: int| 0 <= p < i ==> (#[trigger] ends@[p])@.len() == 0,
            decreases len + 1 - i,
        {
            ends.push(Vec::new());
            i = i + 1;
        }
        let lattice = Lattice { steps: Vec::new(), ends };
        assert(lattice.nodes() =~= Seq::empty());
        lattice
    }

    /// Whether a word ends at character `p`, or the text begins there.
    pub fn has_previous_node(&self, p: usize, Ghost(g): Ghost<GrammarModel>) -> (has: bool)
        requires
            self.wf(g, p as nat),
            p <= self.text_len(),
        ensures
            has == reachable(self.nodes(), p as nat),
    {
        let ghost nodes = self.nodes();
        if p == 0 {
            return true;
        }
        let has: bool = self.ends[p].len() > 0;
        proof {
            if has {
                let k = self.ends@[p as int]@[0];
                assert(nodes[k as int].end == p);
            } else if reachable(nodes, p as nat) {
                let k = choose|k: int| 0 <= k < nodes.len() && (#[trigger] nodes[k]).end == p;
                assert(self.steps@[k].node == nodes[k]);
                assert(self.ends@[p as int]@.contains(k as usize));
            }
        }
        has
    }

    /// The cheapest step to a word at character `p`.
    fn best_step(&self, dict: &LoadedDictionary, node: Node) -> (step: Step)
        requires
            dict.wf(),
            self.wf(dict.model().grammar, (node.begin + 1) as nat),
            node.begin < node.end <= self.text_len(),
            node.left_id < dict.model().grammar.rows,
            node.right_id < dict.model().grammar.columns,
            reachable(self.nodes(), node.begin as nat),
        ensures
            step.node == node,
            is_best_step(dict.model().grammar, self.steps@, step),
            -0x1_0000 * node.end <= step.total <= 0x1_0000 * node.end,
    {
        let ghost g = dict.model().grammar;
        let ghost steps = self.steps@;
        let p: usize = node.begin;
        let mut total: i64 = 0;
        let mut before: Option<usize> = None;
        let mut found: bool = false;
        if p == 0 {
            let cost: i64 = connect(dict, EDGE_ID, node.left_id);
            total = cost + node.cost as i64;
            found = true;
            proof {
                lemma_connection_range(g, EDGE_ID, node.left_id);
                assert(leads_to(steps, None, node));
            }
        }
        let mut i: usize = 0;
        while i < self.ends[p].len()
            invariant
                i <= self.ends@[p as int]@.len(),
                p == node.begin,
                p < self.ends@.len(),
                dict.wf(),
                g == dict.model().grammar,
                steps == self.steps@,
                self.wf(g, (p + 1) as nat),
                node.begin < node.end,
                node.end <= self.text_len(),
                node.left_id < g.rows,
                found ==> leads_to(steps, before, node) && total == arrival(g, steps, before, node)
                    && -0x1_0000 * node.end <= total <= 0x1_0000 * node.end,
                p == 0 ==> found && total <= arrival(g, steps, None, node),
                i > 0 ==> found,
                forall|a: int|
                    0 <= a < i ==> total <= arrival(
                        g,
                        steps,
                        Some(#[trigger] self.ends@[p as int]@[a]),
                        node,
                    ),
                forall|a: int|
                    0 <= a < i && comes_before(Some(#[trigger] self.ends@[p as int]@[a]), before)
                        ==> total < arrival(g, steps, Some(self.ends@[p as int]@[a]), node),
                before matches Some(j) ==> i > 0 && j <= self.ends@[p as int]@[i - 1],
            decreases self.ends@[p as int]@.len() - i,
        {
            let j: usize = self.ends[p][i];
            let prev: &Step = &self.steps[j];
            assert(steps[j as int].node.end == p);
            assert(self.nodes()[j as int] == steps[j as int].node);
            proof {
                lemma_connection_range(g, prev.node.right_id, node.left_id);
                assert(leads_to(steps, Some(j), node));
            }
            let cost: i64 = connect(dict, prev.node.right_id, node.left_id);
            let here: i64 = prev.total + cost + node.cost as i64;
            if !found || here < total {
                total = here;
                before = Some(j);
                found = true;
            }
            i = i + 1;
        }
        proof {
            if !found {
                let k = choose|k: int|
                    0 <= k < self.nodes().len() && (#[trigger] self.nodes()[k]).end == p;
                assert(self.steps@[k].node == self.nodes()[k]);
                assert(self.ends@[p as int]@.contains(k as usize));
            }
            let step = Step { node, total, before };
            assert forall|from: Option<usize>| #[trigger]
                leads_to(steps, from, node) implies {
                &&& total <= arrival(g, steps, from, node)
                &&& comes_before(from, before) ==> total < arrival(g, steps, from, node)
            } by {
                if let Some(j) = from {
                    assert(self.ends@[p as int]@.contains(j));
                    let a = choose|a: int|
                        0 <= a < self.ends@[p as int]@.len() && self.ends@[p as int]@[a] == j;
                    assert(self.ends@[p as int]@[a] == j);
                }
            }
        }
        Step { node, total, before }
    }

    /// Inserts a word behind those that begin before it.
    pub fn insert(&mut self, dict: &LoadedDictionary, node: Node)
        requires
            dict.wf(),
            old(self).wf(dict.model().grammar, (node.begin + 1) as nat),
            node.begin < node.end <= old(self).text_len(),
            node.left_id < dict.model().grammar.rows,
            node.right_id < dict.model().grammar.columns,
            reachable(old(self).nodes(), node.begin as nat),
        ensures
            final(self).wf(dict.model().grammar, (node.begin + 1) as nat),
            final(self).nodes() == old(self).nodes().push(node),
            final(self).text_len() == old(self).text_len(),
    {
        let ghost g = dict.model().grammar;
        let ghost steps = self.steps@;
        let ghost nodes = self.nodes();
        let ghost ends = self.ends@;
        let step: Step = self.best_step(dict, node);
        let k: usize = self.steps.len();
        let ghost made = step;
        self.steps.push(step);
        let end: usize = node.end;
        self.ends[end].push(k);
        proof {
            let more = self.steps@;
            assert(more.take(steps.len() as int) =~= steps);
            assert(self.nodes() =~= nodes.push(node));
            assert forall|i: int| 0 <= i < steps.len() implies (#[trigger] steps[i]).node.begin
                <= node.begin by {
                assert(nodes[i] == steps[i].node);
            }
            lemma_steps_behind(g, steps, more, node.begin as nat);
            assert(is_best_step(g, more, made)) by {
                assert forall|before: Option<usize>| #[trigger]
                    leads_to(more, before, node) implies {
                    &&& made.total <= arrival(g, more, before, node)
                    &&& comes_before(before, made.before) ==> made.total < arrival(
                        g,
                        more,
                        before,
                        node,
                    )
                } by {
                    assert(leads_to(steps, before, node));
                }
            }
            assert(best_steps(g, more)) by {
                assert forall|i: int| 0 <= i < more.len() implies {
                    &&& is_best_step(g, more, #[trigger] more[i])
                    &&& -0x1_0000 * more[i].node.end <= more[i].total <= 0x1_0000
                        * more[i].node.end
                    &&& more[i].before matches Some(j) ==> j < i
                } by {
                    if i < steps.len() {
                        assert(more[i] == steps[i]);
                    }
                }
            }
            assert(proper_lattice(g, self.nodes(), (node.begin + 1) as nat, self.text_len()));
            assert(self.ends@[end as int]@ == ends[end as int]@.push(k));
            assert forall|p: int, i: int|
                0 <= p < self.ends@.len() && 0 <= i < self.ends@[p]@.len() implies {
                &&& (#[trigger] self.ends@[p]@[i]) < self.steps@.len()
                &&& self.steps@[self.ends@[p]@[i] as int].node.end == p
            } by {
                if p == end && i == ends[p]@.len() {
                } else {
                    assert(self.ends@[p]@[i] == ends[p]@[i]);
                    assert(more[ends[p]@[i] as int] == steps[ends[p]@[i] as int]);
                }
            }
            assert forall|i: int| 0 <= i < more.len() implies (
            #[trigger] self.steps@[i]).node.end < self.ends@.len()
                && self.ends@[self.steps@[i].node.end as int]@.contains(i as usize) by {
                if i < steps.len() {
                    assert(more[i] == steps[i]);
                    let q = steps[i].node.end as int;
                    assert(ends[q]@.contains(i as usize));
                    let a = choose|a: int| 0 <= a < ends[q]@.len() && ends[q]@[a] == i as usize;
                    assert(self.ends@[q]@[a] == i as usize);
                } else {
                    let a = ends[end as int]@.len() as int;
                    assert(self.ends@[end as int]@[a] == k);
                }
            }
        }
    }

    /// The cheapest way through the whole text, which has a character at least.
    pub fn best_way(&self, dict: &LoadedDictionary) -> (way: Vec<Node>)
        requires
            dict.wf(),
            self.wf(dict.model().grammar, self.text_len()),
            self.text_len() > 0,
            reachable(self.nodes(), self.text_len()),
        ensures
            is_best_way(dict.model().grammar, self.nodes(), way@, self.text_len()),
            way@ == kept_way(dict.model().grammar, self.nodes(), self.text_len()),
    {
        let ghost g = dict.model().grammar;
        let ghost steps = self.steps@;
        let ghost nodes = self.nodes();
        assert(self.steps.len() == steps.len());
        let len: usize = self.ends.len() - 1;
        let last: &Vec<usize> = &self.ends[len];
        proof {
            let k = choose|k: int| 0 <= k < nodes.len() && (#[trigger] nodes[k]).end == len;
            assert(steps[k].node == nodes[k]);
            assert(last@.contains(k as usize));
        }
        let mut best: usize = last[0];
        let mut total: i64 = self.total_at_end(dict, best);
        let mut i: usize = 1;
        while i < last.len()
            invariant
                1 <= i <= last@.len(),
                last@ == self.ends@[len as int]@,
                len == self.text_len(),
                dict.wf(),
                g == dict.model().grammar,
                steps == self.steps@,
                self.wf(g, self.text_len()),
                best < steps.len(),
                steps[best as int].node.end == len,
                total == steps[best as int].total + connection(
                    g,
                    steps[best as int].node.right_id,
                    EDGE_ID,
                ),
                forall|a: int|
                    0 <= a < i ==> total <= steps[(#[trigger] last@[a]) as int].total + connection(
                        g,
                        steps[last@[a] as int].node.right_id,
                        EDGE_ID,
                    ),
                forall|a: int|
                    0 <= a < i && (#[trigger] last@[a]) < best ==> total < end_total(
                        g,
                        steps[last@[a] as int],
                    ),
                best <= last@[i - 1],
            decreases last@.len() - i,
        {
            let k: usize = last[i];
            assert(self.ends@[len as int]@[i as int] == k);
            let here: i64 = self.total_at_end(dict, k);
            if here < total {
                total = here;
                best = k;
            }
            i = i + 1;
        }
        let mut reversed: Vec<Node> = Vec::new();
        let mut k: usize = best;
        let mut done: bool = false;
        let ghost whole = way_to(steps, best as int);
        assert(whole + Seq::<Node>::empty() =~= whole);
        assert(reversed@.reverse() =~= Seq::<Node>::empty());
        while !done
            invariant
                steps == self.steps@,
                best_steps(g, steps),
                k < steps.len(),
                !done ==> whole == way_to(steps, k as int) + reversed@.reverse(),
                done ==> whole == reversed@.reverse(),
            decreases
                k as int + if done {
                    0int
                } else {
                    1int
                },
        {
            let step: &Step = &self.steps[k];
            let ghost before = reversed@;
            let ghost at = k as int;
            assert(is_best_step(g, steps, steps[at]));
            reversed.push(step.node);
            assert(reversed@.reverse() =~= seq![step.node] + before.reverse());
            match step.before {
                Some(j) => {
                    assert(way_to(steps, j as int).push(step.node) + before.reverse() =~= way_to(
                        steps,
                        j as int,
                    ) + reversed@.reverse());
                    k = j;
                },
                None => {
                    assert(way_to(steps, at) + before.reverse() =~= reversed@.reverse());
                    done = true;
                },
            }
        }
        let way: Vec<Node> = reversed_nodes(&reversed);
        proof {
            lemma_way_to(g, steps, best as int);
            lemma_cheapest_last(g, steps, self.text_len(), self.text_len(), steps.len());
            lemma_kept_way_to(g, steps, self.text_len(), self.text_len(), best as nat);
            let kept = cheapest_last(g, nodes, self.text_len(), steps.len()).unwrap();
            assert(self.ends@[len as int]@.contains(kept as usize));
            let at = choose|at: int| 0 <= at < last@.len() && last@[at] == kept as usize;
            assert(last@[at] == kept as usize);
            assert(kept == best);
            assert forall|other: Seq<Node>| #[trigger]
                is_full_way(nodes, other, self.text_len()) implies full_cost(g, whole)
                <= full_cost(g, other) by {
                assert(nodes.contains(other[other.len() - 1]));
                let k = choose|k: int| 0 <= k < nodes.len() && nodes[k] == other.last();
                assert(steps[k].node == nodes[k]);
                lemma_no_cheaper_way(g, steps, other, k);
                assert(self.ends@[len as int]@.contains(k as usize));
                let a = choose|a: int| 0 <= a < last@.len() && last@[a] == k as usize;
                assert(last@[a] == k as usize);
            }
        }
        way
    }

    /// The cost of ending the text with the word of step `k`.
    fn total_at_end(&self, dict: &LoadedDictionary, k: usize) -> (total: i64)
        requires
            dict.wf(),
            self.wf(dict.model().grammar, self.text_len()),
            k < self.steps@.len(),
        ensures
            total == self.steps@[k as int].total + connection(
                dict.model().grammar,
                self.steps@[k as int].node.right_id,
                EDGE_ID,
            ),
    {
        let step: &Step = &self.steps[k];
        assert(self.nodes()[k as int] == step.node);
        assert(is_best_step(dict.model().grammar, self.steps@, self.steps@[k as int]));
        proof {
            lemma_connection_range(dict.model().grammar, step.node.right_id, EDGE_ID);
        }
        step.total + connect(dict, step.node.right_id, EDGE_ID)
    }
}

/// The nodes in reverse order.
fn reversed_nodes(nodes: &Vec<Node>) -> (reversed: Vec<Node>)
    ensures
        reversed@ == nodes@.reverse(),
{
    let mut reversed: Vec<Node> = Vec::new();
    let mut k: usize = nodes.len();
    while k > 0
        invariant
            k <= nodes@.len(),
            reversed@.len() == nodes@.len() - k,
            forall|i: int|
                0 <= i < reversed@.len() ==> #[trigger] reversed@[i] == nodes@[nodes@.len() - 1
                    - i],
        decreases k,
    {
        k = k - 1;
        reversed.push(nodes[k]);
    }
    assert(reversed@ =~= nodes@.reverse());
    reversed
}

/// The cost of placing a word with the identifier `left` on its right side before one with the
/// identifier `right` on its left side.
fn connect(dict: &LoadedDictionary, left: u16, right: u16) -> (cost: i64)
    requires
        dict.wf(),
        left < dict.model().grammar.columns,
        right < dict.model().grammar.rows,
    ensures
        cost == connection(dict.model().grammar, left, right),
{
    dict.grammar.connect.cost(left, right) as i64
}

} // verus!
