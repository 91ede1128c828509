//! The inductions behind the laws of the layered layout: what holds of the
//! walk from a node, of the walk through the successors of a node, and of the
//! walk from the sources.

use crate::hierarchical::{NODE_DIST, ROW_DIST};
use crate::topology::{is_source, lists_sources, successors_of};
use crate::walk::{
    children, forest, lemma_unvisited_shrinks, spot_at, subtree, unvisited, Spot, Walk,
};
use crate::walk_laws::{has_parent, hangs_at, hangs_below, places, source_or_below};
use vstd::prelude::*;

verus! {

/// What a walk that started with the nodes of `visited` marked leaves behind:
/// it marks only nodes that were unmarked and that some edge leads to, it
/// places only nodes that wait for a position and that it marked itself (or
/// the node `own` that it started from), each of them once, no higher than
/// `row`, and it reports a column that none of its spots lies right of.
pub open spec fn tidy(
    adj: Map<u32, Seq<u32>>,
    not_placed: Set<u32>,
    visited: Set<u32>,
    own: Option<u32>,
    row: nat,
    w: Walk,
) -> bool {
    &&& forall|n: u32| #[trigger] w.seen.contains(n) ==> !visited.contains(n) && !is_source(adj, n)
    &&& forall|j: int|
        0 <= j < w.placed.len() ==> {
            &&& not_placed.contains((#[trigger] w.placed[j]).node)
            &&& w.seen.contains(w.placed[j].node) || own == Some(w.placed[j].node)
            &&& w.placed[j].x <= w.max_col * (NODE_DIST as nat)
            &&& w.placed[j].y >= row * (ROW_DIST as nat)
        }
    &&& forall|j: int, l: int|
        0 <= j < l < w.placed.len() ==> (#[trigger] w.placed[j]).node != (
        #[trigger] w.placed[l]).node
}

/// The walk from a marked node is tidy.
pub proof fn lemma_subtree_tidy(
    adj: Map<u32, Seq<u32>>,
    not_placed: Set<u32>,
    visited: Set<u32>,
    node: u32,
    row: nat,
    col: nat,
)
    requires
        visited.contains(node),
    ensures
        tidy(
            adj,
            not_placed,
            visited,
            Some(node),
            row,
            subtree(adj, not_placed, visited, node, row, col),
        ),
        subtree(adj, not_placed, visited, node, row, col).max_col >= col,
    decreases unvisited(visited).len(), successors_of(adj, node).len() + 1,
{
    if not_placed.contains(node) {
        let kids = successors_of(adj, node);
        lemma_children_tidy(adj, not_placed, visited, node, kids, 0, row + 1, col);
        let w = subtree(adj, not_placed, visited, node, row, col);
        assert forall|j: int| 0 <= j < w.placed.len() implies {
            &&& not_placed.contains((#[trigger] w.placed[j]).node)
            &&& w.seen.contains(w.placed[j].node) || Some(node) == Some(w.placed[j].node)
            &&& w.placed[j].x <= w.max_col * (NODE_DIST as nat)
            &&& w.placed[j].y >= row * (ROW_DIST as nat)
        } by {
        }
    }
}

/// The walk through the successors of `parent` is tidy.
pub proof fn lemma_children_tidy(
    adj: Map<u32, Seq<u32>>,
    not_placed: Set<u32>,
    visited: Set<u32>,
    parent: u32,
    kids: Seq<u32>,
    i: nat,
    row: nat,
    col: nat,
)
    requires
        kids == successors_of(adj, parent),
    ensures
        tidy(
            adj,
            not_placed,
            visited,
            None,
            row,
            children(adj, not_placed, visited, kids, i, row, col),
        ),
        children(adj, not_placed, visited, kids, i, row, col).max_col >= col,
    decreases unvisited(visited).len(), kids.len() - i,
{
    if i < kids.len() {
        let k = kids[i as int];
        if visited.contains(k) {
            lemma_children_tidy(adj, not_placed, visited, parent, kids, i + 1, row, col);
        } else {
            let marked = visited.insert(k);
            let first = subtree(adj, not_placed, marked, k, row, col + i);
            lemma_unvisited_shrinks(visited, k, first.seen);
            lemma_subtree_tidy(adj, not_placed, marked, k, row, col + i);
            lemma_children_tidy(
                adj,
                not_placed,
                marked.union(first.seen),
                parent,
                kids,
                i + 1,
                row,
                col,
            );
            let w = children(adj, not_placed, visited, kids, i, row, col);
            assert forall|j: int| 0 <= j < w.placed.len() implies {
                &&& not_placed.contains((#[trigger] w.placed[j]).node)
                &&& w.seen.contains(w.placed[j].node) || None::<u32> == Some(w.placed[j].node)
                &&& w.placed[j].x <= w.max_col * (NODE_DIST as nat)
                &&& w.placed[j].y >= row * (ROW_DIST as nat)
            } by {
            }
        }
    }
}

/// The walk from the sources is tidy, and it puts each source that waits for
/// a position into row 0, at the column that is its place among the sources.
pub proof fn lemma_forest_tidy(
    adj: Map<u32, Seq<u32>>,
    not_placed: Set<u32>,
    visited: Set<u32>,
    roots: Seq<u32>,
    i: nat,
)
    requires
        lists_sources(adj, roots),
        forall|j: int| i <= j < roots.len() ==> !visited.contains(#[trigger] roots[j]),
    ensures
        ({
            let w = forest(adj, not_placed, visited, roots, i);
            &&& forall|n: u32| #[trigger] w.seen.contains(n) ==> !visited.contains(n)
            &&& forall|j: int|
                0 <= j < w.placed.len() ==> {
                    &&& not_placed.contains((#[trigger] w.placed[j]).node)
                    &&& w.seen.contains(w.placed[j].node)
                    &&& w.placed[j].x <= w.max_col * (NODE_DIST as nat)
                }
            &&& forall|j: int, l: int|
                0 <= j < l < w.placed.len() ==> (#[trigger] w.placed[j]).node != (
                #[trigger] w.placed[l]).node
            &&& forall|j: int|
                i <= j < roots.len() && not_placed.contains(#[trigger] roots[j])
                    ==> w.placed.contains(spot_at(roots[j], 0, j as nat))
        }),
    decreases roots.len() - i,
{
    if i < roots.len() {
        let r = roots[i as int];
        let marked = visited.insert(r);
        let first = subtree(adj, not_placed, marked, r, 0, i);
        lemma_subtree_tidy(adj, not_placed, marked, r, 0, i);
        let onward = marked.union(first.seen);
        let rest = forest(adj, not_placed, onward, roots, i + 1);
        lemma_forest_tidy(adj, not_placed, onward, roots, i + 1);
        let w = forest(adj, not_placed, visited, roots, i);
        assert forall|j: int| 0 <= j < w.placed.len() implies {
            &&& not_placed.contains((#[trigger] w.placed[j]).node)
            &&& w.seen.contains(w.placed[j].node)
            &&& w.placed[j].x <= w.max_col * (NODE_DIST as nat)
        } by {
        }
        assert forall|j: int|
            i <= j < roots.len() && not_placed.contains(#[trigger] roots[j]) implies w.placed.contains(
            spot_at(roots[j], 0, j as nat),
        ) by {
            if j == i {
                assert(w.placed[0] == first.placed[0]);
            } else {
                let at = choose|at: int|
                    0 <= at < rest.placed.len() && rest.placed[at] == spot_at(
                        roots[j],
                        0,
                        j as nat,
                    );
                assert(w.placed[first.placed.len() + at] == rest.placed[at]);
            }
        }
    }
}

/// In the walk from a node every spot but the node's own hangs below an
/// earlier one.
pub proof fn lemma_subtree_layered(
    adj: Map<u32, Seq<u32>>,
    not_placed: Set<u32>,
    visited: Set<u32>,
    node: u32,
    row: nat,
    col: nat,
)
    ensures
        ({
            let w = subtree(adj, not_placed, visited, node, row, col);
            &&& w.placed.len() > 0 ==> w.placed[0] == spot_at(node, row, col)
            &&& forall|j: int| 0 < j < w.placed.len() ==> has_parent(adj, w.placed, j)
        }),
    decreases unvisited(visited).len(), successors_of(adj, node).len() + 1,
{
    if not_placed.contains(node) {
        let kids = successors_of(adj, node);
        lemma_children_layered(adj, not_placed, visited, kids, 0, row + 1, col);
        let below = children(adj, not_placed, visited, kids, 0, row + 1, col);
        let w = subtree(adj, not_placed, visited, node, row, col);
        assert forall|j: int| 0 < j < w.placed.len() implies has_parent(adj, w.placed, j) by {
            assert(child_or_below(adj, below.placed, j - 1, kids, row + 1, col));
            if has_parent(adj, below.placed, j - 1) {
                lemma_parent_moves(adj, below.placed, w.placed, 1, j - 1);
            } else {
                let spot = below.placed[j - 1];
                let next_row = row + 1;
                let i = choose|i: int| child_at(spot, kids, next_row, col, i);
                assert(hangs_at(adj, w.placed[0], w.placed[j], i));
            }
        }
    }
}

/// The spot is that of the `i`-th node of `kids`, in row `row`, `i` columns
/// right of the column `col`.
pub open spec fn child_at(spot: Spot, kids: Seq<u32>, row: nat, col: nat, i: int) -> bool {
    &&& 0 <= i < kids.len()
    &&& kids[i] == spot.node
    &&& spot.y == row * (ROW_DIST as nat)
    &&& spot.x == (col + i) * (NODE_DIST as nat)
}

/// The `j`-th spot hangs below an earlier one, or it is that of a node of
/// `kids`, in row `row` and as many columns right of `col` as the node's
/// place in `kids` says.
pub open spec fn child_or_below(
    adj: Map<u32, Seq<u32>>,
    placed: Seq<Spot>,
    j: int,
    kids: Seq<u32>,
    row: nat,
    col: nat,
) -> bool {
    has_parent(adj, placed, j) || exists|i: int| child_at(placed[j], kids, row, col, i)
}

/// Where a spot has a parent in a run of spots, it has one in any run that
/// holds that run, `shift` places further on.
proof fn lemma_parent_moves(
    adj: Map<u32, Seq<u32>>,
    part: Seq<Spot>,
    whole: Seq<Spot>,
    shift: int,
    j: int,
)
    requires
        0 <= shift,
        shift + part.len() <= whole.len(),
        forall|l: int| 0 <= l < part.len() ==> whole[l + shift] == #[trigger] part[l],
        0 <= j < part.len(),
        has_parent(adj, part, j),
    ensures
        has_parent(adj, whole, j + shift),
{
    let l = choose|l: int| 0 <= l < j && hangs_below(adj, #[trigger] part[l], part[j]);
    let i = choose|i: int| hangs_at(adj, part[l], part[j], i);
    assert(hangs_at(adj, whole[l + shift], whole[j + shift], i));
}

/// In the walk through the successors `kids` of a node at column `col` every
/// spot is that of a successor, in row `row` and at its column, or hangs
/// below an earlier one.
pub proof fn lemma_children_layered(
    adj: Map<u32, Seq<u32>>,
    not_placed: Set<u32>,
    visited: Set<u32>,
    kids: Seq<u32>,
    i: nat,
    row: nat,
    col: nat,
)
    ensures
        forall|j: int|
            0 <= j < children(adj, not_placed, visited, kids, i, row, col).placed.len()
                ==> #[trigger] child_or_below(
                adj,
                children(adj, not_placed, visited, kids, i, row, col).placed,
                j,
                kids,
                row,
                col,
            ),
    decreases unvisited(visited).len(), kids.len() - i,
{
    if i < kids.len() {
        let k = kids[i as int];
        if visited.contains(k) {
            lemma_children_layered(adj, not_placed, visited, kids, i + 1, row, col);
            assert(children(adj, not_placed, visited, kids, i, row, col) == children(
                adj,
                not_placed,
                visited,
                kids,
                i + 1,
                row,
                col,
            ));
        } else {
            let marked = visited.insert(k);
            let first = subtree(adj, not_placed, marked, k, row, col + i);
            lemma_unvisited_shrinks(visited, k, first.seen);
            lemma_subtree_layered(adj, not_placed, marked, k, row, col + i);
            let onward = marked.union(first.seen);
            let rest = children(adj, not_placed, onward, kids, i + 1, row, col);
            lemma_children_layered(adj, not_placed, onward, kids, i + 1, row, col);
            let w = children(adj, not_placed, visited, kids, i, row, col);
            let n = first.placed.len() as int;
            assert forall|j: int| 0 <= j < w.placed.len() implies #[trigger] child_or_below(
                adj,
                w.placed,
                j,
                kids,
                row,
                col,
            ) by {
                if j == 0 && n > 0 {
                    assert(child_at(w.placed[0], kids, row, col, i as int));
                } else if j < n {
                    lemma_parent_moves(adj, first.placed, w.placed, 0, j);
                } else {
                    assert(w.placed[j] == rest.placed[j - n]);
                    assert(child_or_below(adj, rest.placed, j - n, kids, row, col));
                    if has_parent(adj, rest.placed, j - n) {
                        lemma_parent_moves(adj, rest.placed, w.placed, n, j - n);
                    } else {
                        let spot = rest.placed[j - n];
                        let at = choose|at: int| child_at(spot, kids, row, col, at);
                        assert(child_at(w.placed[j], kids, row, col, at));
                    }
                }
            }
        }
    }
}

/// In the walk from the sources every spot is that of a source, in row 0, or
/// hangs below an earlier one.
pub proof fn lemma_forest_layered(
    adj: Map<u32, Seq<u32>>,
    not_placed: Set<u32>,
    visited: Set<u32>,
    roots: Seq<u32>,
    i: nat,
)
    requires
        lists_sources(adj, roots),
    ensures
        forall|j: int|
            0 <= j < forest(adj, not_placed, visited, roots, i).placed.len()
                ==> #[trigger] source_or_below(
                adj,
                forest(adj, not_placed, visited, roots, i).placed,
                j,
            ),
    decreases roots.len() - i,
{
    if i < roots.len() {
        let r = roots[i as int];
        let marked = visited.insert(r);
        let first = subtree(adj, not_placed, marked, r, 0, i);
        lemma_subtree_layered(adj, not_placed, marked, r, 0, i);
        let onward = marked.union(first.seen);
        let rest = forest(adj, not_placed, onward, roots, i + 1);
        lemma_forest_layered(adj, not_placed, onward, roots, i + 1);
        let w = forest(adj, not_placed, visited, roots, i);
        let n = first.placed.len() as int;
        assert forall|j: int| 0 <= j < w.placed.len() implies #[trigger] source_or_below(
            adj,
            w.placed,
            j,
        ) by {
            if j == 0 && n > 0 {
            } else if j < n {
                lemma_parent_moves(adj, first.placed, w.placed, 0, j);
            } else {
                assert(source_or_below(adj, rest.placed, j - n));
                if has_parent(adj, rest.placed, j - n) {
                    lemma_parent_moves(adj, rest.placed, w.placed, n, j - n);
                }
            }
        }
    }
}

/// A walk that started with the nodes of `visited` marked has left nothing
/// open: every node that it marked and that waits for a position has one, and
/// every successor of a node that it placed is marked.
pub open spec fn settled(
    adj: Map<u32, Seq<u32>>,
    not_placed: Set<u32>,
    visited: Set<u32>,
    w: Walk,
) -> bool {
    &&& forall|n: u32| #[trigger] w.seen.contains(n) && not_placed.contains(n) ==> places(w.placed, n)
    &&& forall|j: int, t: u32|
        0 <= j < w.placed.len() && #[trigger] successors_of(adj, w.placed[j].node).contains(t)
            ==> visited.contains(t) || w.seen.contains(t)
}

/// A node with a spot in a run of spots has one in any run that holds that
/// run, `shift` places further on.
proof fn lemma_places_moves(part: Seq<Spot>, whole: Seq<Spot>, shift: int, n: u32)
    requires
        0 <= shift,
        shift + part.len() <= whole.len(),
        forall|l: int| 0 <= l < part.len() ==> whole[l + shift] == #[trigger] part[l],
        places(part, n),
    ensures
        places(whole, n),
{
    let j = choose|j: int| 0 <= j < part.len() && (#[trigger] part[j]).node == n;
    assert(whole[j + shift].node == n);
}

/// The walk from a marked node leaves nothing open, and it places the node
/// if the node waits for a position.
pub proof fn lemma_subtree_settled(
    adj: Map<u32, Seq<u32>>,
    not_placed: Set<u32>,
    visited: Set<u32>,
    node: u32,
    row: nat,
    col: nat,
)
    requires
        visited.contains(node),
    ensures
        settled(adj, not_placed, visited, subtree(adj, not_placed, visited, node, row, col)),
        not_placed.contains(node) ==> places(
            subtree(adj, not_placed, visited, node, row, col).placed,
            node,
        ),
    decreases unvisited(visited).len(), successors_of(adj, node).len() + 1,
{
    if not_placed.contains(node) {
        let kids = successors_of(adj, node);
        lemma_children_settled(adj, not_placed, visited, kids, 0, row + 1, col);
        let below = children(adj, not_placed, visited, kids, 0, row + 1, col);
        let w = subtree(adj, not_placed, visited, node, row, col);
        assert(w.placed[0].node == node);
        assert forall|n: u32| #[trigger] w.seen.contains(n) && not_placed.contains(n) implies places(
            w.placed,
            n,
        ) by {
            lemma_places_moves(below.placed, w.placed, 1, n);
        }
    }
}

/// The walk through the successors of a node leaves nothing open, and every
/// successor from the `i`-th on is marked when it ends.
pub proof fn lemma_children_settled(
    adj: Map<u32, Seq<u32>>,
    not_placed: Set<u32>,
    visited: Set<u32>,
    kids: Seq<u32>,
    i: nat,
    row: nat,
    col: nat,
)
    ensures
        settled(adj, not_placed, visited, children(adj, not_placed, visited, kids, i, row, col)),
        forall|at: int|
            i <= at < kids.len() ==> visited.contains(#[trigger] kids[at]) || children(
                adj,
                not_placed,
                visited,
                kids,
                i,
                row,
                col,
            ).seen.contains(kids[at]),
    decreases unvisited(visited).len(), kids.len() - i,
{
    if i < kids.len() {
        let k = kids[i as int];
        let w = children(adj, not_placed, visited, kids, i, row, col);
        if visited.contains(k) {
            lemma_children_settled(adj, not_placed, visited, kids, i + 1, row, col);
        } else {
            let marked = visited.insert(k);
            let first = subtree(adj, not_placed, marked, k, row, col + i);
            lemma_unvisited_shrinks(visited, k, first.seen);
            lemma_subtree_settled(adj, not_placed, marked, k, row, col + i);
            let onward = marked.union(first.seen);
            let rest = children(adj, not_placed, onward, kids, i + 1, row, col);
            lemma_children_settled(adj, not_placed, onward, kids, i + 1, row, col);
            let n = first.placed.len() as int;
            assert forall|m: u32|
                #[trigger] w.seen.contains(m) && not_placed.contains(m) implies places(
                w.placed,
                m,
            ) by {
                if m == k || first.seen.contains(m) {
                    lemma_places_moves(first.placed, w.placed, 0, m);
                } else {
                    lemma_places_moves(rest.placed, w.placed, n, m);
                }
            }
        }
    }
}

/// The walk from the sources leaves nothing open, and every source from the
/// `i`-th on is marked when it ends.
pub proof fn lemma_forest_settled(
    adj: Map<u32, Seq<u32>>,
    not_placed: Set<u32>,
    visited: Set<u32>,
    roots: Seq<u32>,
    i: nat,
)
    ensures
        settled(adj, not_placed, visited, forest(adj, not_placed, visited, roots, i)),
        forall|at: int|
            i <= at < roots.len() ==> forest(adj, not_placed, visited, roots, i).seen.contains(
                #[trigger] roots[at],
            ),
    decreases roots.len() - i,
{
    if i < roots.len() {
        let r = roots[i as int];
        let w = forest(adj, not_placed, visited, roots, i);
        let marked = visited.insert(r);
        let first = subtree(adj, not_placed, marked, r, 0, i);
        lemma_subtree_settled(adj, not_placed, marked, r, 0, i);
        let onward = marked.union(first.seen);
        let rest = forest(adj, not_placed, onward, roots, i + 1);
        lemma_forest_settled(adj, not_placed, onward, roots, i + 1);
        let n = first.placed.len() as int;
        assert forall|m: u32| #[trigger] w.seen.contains(m) && not_placed.contains(m) implies places(
            w.placed,
            m,
        ) by {
            if m == r || first.seen.contains(m) {
                lemma_places_moves(first.placed, w.placed, 0, m);
            } else {
                lemma_places_moves(rest.placed, w.placed, n, m);
            }
        }
    }
}

} // verus!
