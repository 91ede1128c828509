//! The walk of the layered layout, as mathematics: which nodes a pass marks
//! and which spots of the grid it fills, from the successors of each node, the
//! sources of the graph and the nodes that wait for a position.

use crate::hierarchical::{NODE_DIST, ROW_DIST};
use crate::topology::{index_count, sources, successors_of};
use vstd::prelude::*;

verus! {

/// A node put on the grid: `x` and `y` are the canvas coordinates of its
/// column and row.
pub struct Spot {
    pub node: u32,
    pub x: nat,
    pub y: nat,
}

/// The trace of a walk: the nodes that it marked as visited, the spots that it
/// filled, in order, and the largest column that it reported.
pub struct Walk {
    pub seen: Set<u32>,
    pub placed: Seq<Spot>,
    pub max_col: nat,
}

/// The spot of a node at a column and a row.
pub open spec fn spot_at(node: u32, row: nat, col: nat) -> Spot {
    Spot { node, x: col * (NODE_DIST as nat), y: row * (ROW_DIST as nat) }
}

/// The nodes that a walk has not marked yet.
pub open spec fn unvisited(visited: Set<u32>) -> Set<u32> {
    Set::<u32>::full().difference(visited)
}

/// The larger of two numbers.
pub open spec fn larger(a: nat, b: nat) -> nat {
    if a >= b {
        a
    } else {
        b
    }
}

/// Marking one more node, and any others with it, leaves fewer unmarked.
pub proof fn lemma_unvisited_shrinks(visited: Set<u32>, k: u32, more: Set<u32>)
    requires
        !visited.contains(k),
    ensures
        unvisited(visited).finite(),
        unvisited(visited.insert(k)).len() < unvisited(visited).len(),
        unvisited(visited.insert(k).union(more)).len() <= unvisited(visited.insert(k)).len(),
{
    <u32 as vstd::set_lib::FiniteFull>::full_properties();
    Set::<u32>::full().lemma_set_insert_diff_decreases(visited, k);
    vstd::set_lib::lemma_len_subset(
        unvisited(visited.insert(k).union(more)),
        unvisited(visited.insert(k)),
    );
}

/// The walk from `node`, which the caller has marked, put at `row` and `col`.
///
/// A node that is not waiting for a position is left alone, and so is all
/// below it. Otherwise the node takes the spot, and its successors are walked
/// one row further down.
pub open spec fn subtree(
    adj: Map<u32, Seq<u32>>,
    not_placed: Set<u32>,
    visited: Set<u32>,
    node: u32,
    row: nat,
    col: nat,
) -> Walk
    decreases unvisited(visited).len(), successors_of(adj, node).len() + 1,
{
    if !not_placed.contains(node) {
        Walk { seen: Set::empty(), placed: Seq::empty(), max_col: col }
    } else {
        let below = children(adj, not_placed, visited, successors_of(adj, node), 0, row + 1, col);
        Walk {
            seen: below.seen,
            placed: seq![spot_at(node, row, col)] + below.placed,
            max_col: below.max_col,
        }
    }
}

/// The walk through the successors `kids` of a node at column `col`, from the
/// `i`-th on, all in row `row`.
///
/// A successor that is marked already is passed over. Any other is marked and
/// walked at the column `col + i`, and the walk goes on with what that marked.
pub open spec fn children(
    adj: Map<u32, Seq<u32>>,
    not_placed: Set<u32>,
    visited: Set<u32>,
    kids: Seq<u32>,
    i: nat,
    row: nat,
    col: nat,
) -> Walk
    decreases unvisited(visited).len(), kids.len() - i,
{
    if i >= kids.len() {
        Walk { seen: Set::empty(), placed: Seq::empty(), max_col: col }
    } else if visited.contains(kids[i as int]) {
        children(adj, not_placed, visited, kids, i + 1, row, col)
    } else {
        let k = kids[i as int];
        proof {
            lemma_unvisited_shrinks(visited, k, Set::empty());
        }
        let first = subtree(adj, not_placed, visited.insert(k), k, row, col + i);
        proof {
            lemma_unvisited_shrinks(visited, k, first.seen);
        }
        let rest = children(
            adj,
            not_placed,
            visited.insert(k).union(first.seen),
            kids,
            i + 1,
            row,
            col,
        );
        Walk {
            seen: first.seen.union(rest.seen).insert(k),
            placed: first.placed + rest.placed,
            max_col: larger(first.max_col, rest.max_col),
        }
    }
}

/// The walk from the sources `roots`, from the `i`-th on: each is marked and
/// walked in row 0, at the column that is its place in the list.
pub open spec fn forest(
    adj: Map<u32, Seq<u32>>,
    not_placed: Set<u32>,
    visited: Set<u32>,
    roots: Seq<u32>,
    i: nat,
) -> Walk
    decreases roots.len() - i,
{
    if i >= roots.len() {
        Walk { seen: Set::empty(), placed: Seq::empty(), max_col: 0 }
    } else {
        let r = roots[i as int];
        let first = subtree(adj, not_placed, visited.insert(r), r, 0, i);
        let rest = forest(adj, not_placed, visited.insert(r).union(first.seen), roots, i + 1);
        Walk {
            seen: first.seen.union(rest.seen).insert(r),
            placed: first.placed + rest.placed,
            max_col: larger(first.max_col, rest.max_col),
        }
    }
}

/// One pass of the layout over a graph in which the nodes of `not_placed`
/// wait for a position.
pub open spec fn layout(adj: Map<u32, Seq<u32>>, not_placed: Set<u32>) -> Walk {
    forest(adj, not_placed, Set::empty(), sources(adj), 0)
}

/// There are no more unmarked nodes than indices.
pub proof fn lemma_unvisited_bound(visited: Set<u32>)
    ensures
        unvisited(visited).finite(),
        unvisited(visited).len() <= index_count(),
{
    <u32 as vstd::set_lib::FiniteFull>::full_properties();
    <u32 as vstd::set_lib::FiniteRange>::range_properties(0u32, u32::MAX);
    let below = <u32 as vstd::set_lib::FiniteRange>::range_set(0u32, u32::MAX);
    assert(Set::<u32>::full() =~= below.insert(u32::MAX));
    vstd::set_lib::lemma_len_subset(unvisited(visited), Set::<u32>::full());
}

/// No walk through the successors of a node reports a column left of the
/// node's own.
pub proof fn lemma_children_max_col(
    adj: Map<u32, Seq<u32>>,
    not_placed: Set<u32>,
    visited: Set<u32>,
    kids: Seq<u32>,
    i: nat,
    row: nat,
    col: nat,
)
    ensures
        children(adj, not_placed, visited, kids, i, row, col).max_col >= col,
    decreases unvisited(visited).len(), kids.len() - i,
{
    if i < kids.len() {
        let k = kids[i as int];
        if visited.contains(k) {
            lemma_children_max_col(adj, not_placed, visited, kids, i + 1, row, col);
        } else {
            let first = subtree(adj, not_placed, visited.insert(k), k, row, col + i);
            lemma_unvisited_shrinks(visited, k, first.seen);
            lemma_children_max_col(
                adj,
                not_placed,
                visited.insert(k).union(first.seen),
                kids,
                i + 1,
                row,
                col,
            );
        }
    }
}

} // verus!
