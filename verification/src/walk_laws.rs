//! What holds of every pass of the layered layout.

use crate::hierarchical::{NODE_DIST, ROW_DIST};
use crate::topology::{
    is_source, lemma_sources_listed, lemma_sources_unique, lists_sources, sources, successors_of,
};
use crate::walk::{children, forest, layout, spot_at, subtree, Spot};
use crate::walk_lemmas::{lemma_forest_layered, lemma_forest_settled, lemma_forest_tidy};
use vstd::prelude::*;

verus! {

/// Some spot of `placed` is that of the node `n`.
pub open spec fn places(placed: Seq<Spot>, n: u32) -> bool {
    exists|j: int| 0 <= j < placed.len() && (#[trigger] placed[j]).node == n
}

/// The node of `lower` is the `i`-th successor of the node of `upper`, and it
/// lies one row below it, `i` columns to the right.
pub open spec fn hangs_at(adj: Map<u32, Seq<u32>>, upper: Spot, lower: Spot, i: int) -> bool {
    &&& 0 <= i < successors_of(adj, upper.node).len()
    &&& successors_of(adj, upper.node)[i] == lower.node
    &&& lower.y == upper.y + ROW_DIST as nat
    &&& lower.x == upper.x + i * (NODE_DIST as nat)
}

/// `lower` lies one row below `upper`, and an edge leads from the node of
/// `upper` to that of `lower`: where that edge comes `i`-th among those of the
/// upper node, counted from 0, `lower` lies `i` columns right of `upper`.
pub open spec fn hangs_below(adj: Map<u32, Seq<u32>>, upper: Spot, lower: Spot) -> bool {
    exists|i: int| hangs_at(adj, upper, lower, i)
}

/// The `j`-th spot hangs below one that was filled before it.
pub open spec fn has_parent(adj: Map<u32, Seq<u32>>, placed: Seq<Spot>, j: int) -> bool {
    exists|l: int| 0 <= l < j && hangs_below(adj, #[trigger] placed[l], placed[j])
}

/// The `j`-th spot hangs below an earlier one, or it is that of a source, in
/// row 0.
pub open spec fn source_or_below(adj: Map<u32, Seq<u32>>, placed: Seq<Spot>, j: int) -> bool {
    has_parent(adj, placed, j) || (is_source(adj, placed[j].node) && placed[j].y == 0)
}

/// A way down from a source, edge by edge, on which every node waits for a
/// position.
pub open spec fn waiting_path(
    adj: Map<u32, Seq<u32>>,
    not_placed: Set<u32>,
    path: Seq<u32>,
) -> bool {
    &&& path.len() > 0
    &&& is_source(adj, path[0])
    &&& forall|i: int| 0 <= i < path.len() ==> not_placed.contains(#[trigger] path[i])
    &&& forall|i: int|
        0 <= i < path.len() - 1 ==> successors_of(adj, #[trigger] path[i]).contains(path[i + 1])
}

/// The graph of a node `r` with an edge to each of two other nodes, `a` and
/// `b`, handed out in this order, and no other edge.
pub open spec fn fork(r: u32, a: u32, b: u32) -> Map<u32, Seq<u32>> {
    Map::<u32, Seq<u32>>::empty().insert(r, seq![a, b]).insert(a, Seq::empty()).insert(
        b,
        Seq::empty(),
    )
}

/// A pass never gives a position to a node that does not wait for one, so a
/// position that stood before the pass is not overwritten.
pub proof fn law_only_waiting_nodes_are_placed(
    adj: Map<u32, Seq<u32>>,
    not_placed: Set<u32>,
    j: int,
)
    requires
        0 <= j < layout(adj, not_placed).placed.len(),
    ensures
        not_placed.contains(layout(adj, not_placed).placed[j].node),
{
    lemma_sources_listed(adj);
    lemma_forest_tidy(adj, not_placed, Set::empty(), sources(adj), 0);
}

/// A pass gives no node two positions: whichever walk reaches a node first
/// decides where it goes.
pub proof fn law_each_node_is_placed_once(
    adj: Map<u32, Seq<u32>>,
    not_placed: Set<u32>,
    j: int,
    l: int,
)
    requires
        0 <= j < l < layout(adj, not_placed).placed.len(),
    ensures
        layout(adj, not_placed).placed[j].node != layout(adj, not_placed).placed[l].node,
{
    lemma_sources_listed(adj);
    lemma_forest_tidy(adj, not_placed, Set::empty(), sources(adj), 0);
}

/// Every source that waits for a position is put into row 0, at the column
/// that is its place among the sources.
pub proof fn law_sources_fill_row_zero(adj: Map<u32, Seq<u32>>, not_placed: Set<u32>, i: int)
    requires
        0 <= i < sources(adj).len(),
        not_placed.contains(sources(adj)[i]),
    ensures
        layout(adj, not_placed).placed.contains(spot_at(sources(adj)[i], 0, i as nat)),
{
    lemma_sources_listed(adj);
    lemma_forest_tidy(adj, not_placed, Set::empty(), sources(adj), 0);
}

/// The rows are levels of the walk: every position of a pass is that of a
/// source, in row 0, or lies one row below an earlier position of the pass
/// from whose node an edge leads to the node, and right of it by the place
/// of that edge among the edges of the upper node.
pub proof fn law_rows_are_levels(adj: Map<u32, Seq<u32>>, not_placed: Set<u32>, j: int)
    requires
        0 <= j < layout(adj, not_placed).placed.len(),
    ensures
        source_or_below(adj, layout(adj, not_placed).placed, j),
{
    lemma_sources_listed(adj);
    lemma_forest_layered(adj, not_placed, Set::empty(), sources(adj), 0);
}

/// A pass leaves no node out that it can reach: every node at the end of a
/// way down from a source, on which all nodes wait for a position, gets one.
pub proof fn law_reachable_nodes_are_placed(
    adj: Map<u32, Seq<u32>>,
    not_placed: Set<u32>,
    path: Seq<u32>,
)
    requires
        waiting_path(adj, not_placed, path),
    ensures
        places(layout(adj, not_placed).placed, path.last()),
    decreases path.len(),
{
    let w = layout(adj, not_placed);
    lemma_sources_listed(adj);
    lemma_forest_settled(adj, not_placed, Set::empty(), sources(adj), 0);
    let end = path.last();
    if path.len() == 1 {
        // a source is marked, and what is marked and waits is placed
        let at = choose|at: int| 0 <= at < sources(adj).len() && sources(adj)[at] == end;
        assert(w.seen.contains(sources(adj)[at]));
    } else {
        // the node before the end is placed, so the end is marked, and what
        // is marked and waits is placed
        let short = path.drop_last();
        law_reachable_nodes_are_placed(adj, not_placed, short);
        let j = choose|j: int|
            0 <= j < w.placed.len() && (#[trigger] w.placed[j]).node == short.last();
        assert(successors_of(adj, w.placed[j].node).contains(end));
        assert(w.seen.contains(end));
    }
}

/// A pass places only what it can reach: every position is that of the node
/// at the end of a way down from a source, on which all nodes wait for a
/// position, and its row is the number of edges of that way.
pub proof fn law_placed_nodes_are_reachable(
    adj: Map<u32, Seq<u32>>,
    not_placed: Set<u32>,
    j: int,
) -> (path: Seq<u32>)
    requires
        0 <= j < layout(adj, not_placed).placed.len(),
    ensures
        waiting_path(adj, not_placed, path),
        path.last() == layout(adj, not_placed).placed[j].node,
        layout(adj, not_placed).placed[j].y == (path.len() - 1) * (ROW_DIST as nat),
    decreases j,
{
    let placed = layout(adj, not_placed).placed;
    let node = placed[j].node;
    law_rows_are_levels(adj, not_placed, j);
    law_only_waiting_nodes_are_placed(adj, not_placed, j);
    if has_parent(adj, placed, j) {
        // the way to the spot above, and one edge more
        let l = choose|l: int| 0 <= l < j && hangs_below(adj, #[trigger] placed[l], placed[j]);
        let i = choose|i: int| hangs_at(adj, placed[l], placed[j], i);
        assert(successors_of(adj, placed[l].node).contains(node));
        let upper = law_placed_nodes_are_reachable(adj, not_placed, l);
        upper.push(node)
    } else {
        seq![node]
    }
}

/// No position of a pass lies right of the largest column that the pass
/// reports.
pub proof fn law_max_col_bounds_every_column(
    adj: Map<u32, Seq<u32>>,
    not_placed: Set<u32>,
    j: int,
)
    requires
        0 <= j < layout(adj, not_placed).placed.len(),
    ensures
        layout(adj, not_placed).placed[j].x <= layout(adj, not_placed).max_col * (
        NODE_DIST as nat),
{
    lemma_sources_listed(adj);
    lemma_forest_tidy(adj, not_placed, Set::empty(), sources(adj), 0);
}

/// A graph without a source, such as a lone cycle, gets no position at all:
/// the pass ends with nothing placed.
pub proof fn law_no_source_nothing_placed(adj: Map<u32, Seq<u32>>, not_placed: Set<u32>)
    requires
        forall|n: u32| !is_source(adj, n),
    ensures
        layout(adj, not_placed).placed == Seq::<Spot>::empty(),
        layout(adj, not_placed).max_col == 0,
{
    lemma_sources_unique(adj, Seq::empty());
}

/// In the graph of a root with two successors the root takes the first spot
/// of row 0, and its successors the first two columns of row 1, as far as each
/// waits for a position. Where the root does not wait for one, nothing is
/// placed.
pub proof fn law_fork_is_laid_in_two_rows(r: u32, a: u32, b: u32, not_placed: Set<u32>)
    requires
        r != a,
        r != b,
        a != b,
    ensures
        ({
            let w = layout(fork(r, a, b), not_placed);
            let first = if not_placed.contains(a) {
                seq![spot_at(a, 1, 0)]
            } else {
                Seq::empty()
            };
            let second = if not_placed.contains(b) {
                seq![spot_at(b, 1, 1)]
            } else {
                Seq::empty()
            };
            w.placed == if not_placed.contains(r) {
                seq![spot_at(r, 0, 0)] + first + second
            } else {
                Seq::empty()
            }
        }),
{
    let adj = fork(r, a, b);
    let roots = seq![r];
    assert(lists_sources(adj, roots)) by {
        assert(roots[0] == r);
    }
    lemma_sources_unique(adj, roots);
    reveal_with_fuel(forest, 3);
    reveal_with_fuel(subtree, 3);
    reveal_with_fuel(children, 5);
    let v0 = Set::<u32>::empty().insert(r);
    if not_placed.contains(r) {
        let va = v0.insert(a);
        let wa = subtree(adj, not_placed, va, a, 1, 0);
        let vb = va.union(wa.seen).insert(b);
        let wb = subtree(adj, not_placed, vb, b, 1, 1);
        assert(layout(adj, not_placed).placed =~= seq![spot_at(r, 0, 0)] + wa.placed + wb.placed);
    }
}

} // verus!
