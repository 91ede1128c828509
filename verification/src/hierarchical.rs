//! Layered placement: every source of the graph starts a depth-first walk that
//! puts the nodes it reaches on a grid, one row per level.

use crate::topology::{
    adjacency, index_count, lemma_sources_unique, source_nodes, sources, successors,
    successors_of, Topology,
};
use crate::walk::{
    children, forest, larger, layout, lemma_children_max_col, lemma_unvisited_bound,
    lemma_unvisited_shrinks, spot_at, subtree, unvisited, Spot, Walk,
};
use std::collections::HashSet;
use vstd::prelude::*;

verus! {

broadcast use vstd::std_specs::hash::group_hash_axioms;

/// Vertical distance between two rows, in canvas units.
pub const ROW_DIST: u128 = 50;

/// Horizontal distance between two columns, in canvas units.
pub const NODE_DIST: u128 = 50;

/// What the layout keeps from one pass to the next: nothing.
#[derive(Debug, Default, Clone, Copy)]
pub struct State {}

/// The layered layout.
#[derive(Debug, Default)]
pub struct Hierarchical {
    state: State,
}

/// A canvas position given to a node.
///
/// The coordinates are wide enough for any walk: a column is a sum of at most
/// 2^32 ranks among siblings, each of which fits a `usize`.
#[derive(Debug, Clone, Copy, PartialEq, Eq, Structural)]
pub struct Placement {
    pub node: u32,
    pub x: u128,
    pub y: u128,
}

/// What one pass of the layout decided.
#[derive(Debug)]
pub struct Pass {
    /// The positions given, in the order in which the walk reached the nodes.
    pub placements: Vec<Placement>,
    /// The largest column that a tree of the walk reported.
    pub max_col: u128,
}

impl View for Placement {
    type V = Spot;

    open spec fn view(&self) -> Spot {
        Spot { node: self.node, x: self.x as nat, y: self.y as nat }
    }
}

/// The spots that a list of placements stands for.
pub open spec fn spots(placements: Seq<Placement>) -> Seq<Spot> {
    placements.map_values(|p: Placement| p@)
}

/// A column grows by less than this from one level of a walk to the next.
spec fn span() -> nat {
    0x1_0000_0000_0000_0000
}

/// A node whose successors a walk is going through.
struct Level {
    /// The successors of the node, as the graph hands them out.
    kids: Seq<u32>,
    /// How many of them the walk has dealt with.
    next: nat,
    /// The row of the successors.
    row: nat,
    /// The column of the node.
    col: nat,
    /// The largest column reported below the node so far.
    max_col: nat,
}

/// What is left of a walk that stands at the level `cur`, with the levels
/// above it in `above`, the lowest last: the rest of `cur`, then, level by
/// level, the rest of each level above, which takes over the largest column of
/// the level below.
spec fn unwind(
    adj: Map<u32, Seq<u32>>,
    not_placed: Set<u32>,
    visited: Set<u32>,
    above: Seq<Level>,
    cur: Level,
) -> Walk
    decreases above.len(),
{
    let rest = children(adj, not_placed, visited, cur.kids, cur.next, cur.row, cur.col);
    let reported = larger(cur.max_col, rest.max_col);
    if above.len() == 0 {
        Walk { seen: rest.seen, placed: rest.placed, max_col: reported }
    } else {
        let parent = above.last();
        let up = unwind(
            adj,
            not_placed,
            visited.union(rest.seen),
            above.drop_last(),
            Level { max_col: larger(parent.max_col, reported), ..parent },
        );
        Walk { seen: rest.seen.union(up.seen), placed: rest.placed + up.placed, max_col: up.max_col }
    }
}

/// The successors that the levels of `above` have not dealt with yet.
spec fn pending(above: Seq<Level>) -> nat
    decreases above.len(),
{
    if above.len() == 0 {
        0
    } else {
        pending(above.drop_last()) + (above.last().kids.len() - above.last().next) as nat
    }
}

/// A level of the walk as it is kept on the stack.
struct Frame {
    kids: Vec<u32>,
    next: usize,
    row: u128,
    col: u128,
    max_col: u128,
}

impl View for Frame {
    type V = Level;

    closed spec fn view(&self) -> Level {
        Level {
            kids: self.kids@,
            next: self.next as nat,
            row: self.row as nat,
            col: self.col as nat,
            max_col: self.max_col as nat,
        }
    }
}

/// The levels that a stack of frames stands for.
spec fn levels(stack: Seq<Frame>) -> Seq<Level> {
    stack.map_values(|f: Frame| f@)
}

/// Passing over a successor that is marked leaves the rest of the walk as it
/// is.
proof fn lemma_unwind_skip(
    adj: Map<u32, Seq<u32>>,
    not_placed: Set<u32>,
    visited: Set<u32>,
    above: Seq<Level>,
    cur: Level,
)
    requires
        cur.next < cur.kids.len(),
        visited.contains(cur.kids[cur.next as int]),
    ensures
        unwind(adj, not_placed, visited, above, cur) == unwind(
            adj,
            not_placed,
            visited,
            above,
            Level { next: cur.next + 1, ..cur },
        ),
{
}

/// Marking a successor that does not wait for a position: the rest of the
/// walk goes on behind it, with the column that was offered to it reported.
proof fn lemma_unwind_pass(
    adj: Map<u32, Seq<u32>>,
    not_placed: Set<u32>,
    visited: Set<u32>,
    above: Seq<Level>,
    cur: Level,
)
    requires
        cur.next < cur.kids.len(),
        !visited.contains(cur.kids[cur.next as int]),
        !not_placed.contains(cur.kids[cur.next as int]),
    ensures
        ({
            let k = cur.kids[cur.next as int];
            let was = unwind(adj, not_placed, visited, above, cur);
            let now = unwind(
                adj,
                not_placed,
                visited.insert(k),
                above,
                Level {
                    next: cur.next + 1,
                    max_col: larger(cur.max_col, cur.col + cur.next),
                    ..cur
                },
            );
            &&& visited.union(was.seen) == visited.insert(k).union(now.seen)
            &&& was.placed == now.placed
            &&& was.max_col == now.max_col
        }),
{
    let k = cur.kids[cur.next as int];
    let marked = visited.insert(k);
    let first = subtree(adj, not_placed, marked, k, cur.row, cur.col + cur.next);
    assert(marked.union(first.seen) =~= marked);
    let rest = children(adj, not_placed, marked, cur.kids, cur.next + 1, cur.row, cur.col);
    let whole = children(adj, not_placed, visited, cur.kids, cur.next, cur.row, cur.col);
    assert(visited.union(whole.seen) =~= marked.union(rest.seen));
}

/// Marking a successor that waits for a position: it takes its spot, and the
/// walk goes down to its successors, with the level it came from kept above.
proof fn lemma_unwind_descend(
    adj: Map<u32, Seq<u32>>,
    not_placed: Set<u32>,
    visited: Set<u32>,
    above: Seq<Level>,
    cur: Level,
)
    requires
        cur.next < cur.kids.len(),
        !visited.contains(cur.kids[cur.next as int]),
        not_placed.contains(cur.kids[cur.next as int]),
    ensures
        ({
            let k = cur.kids[cur.next as int];
            let at = cur.col + cur.next;
            let was = unwind(adj, not_placed, visited, above, cur);
            let now = unwind(
                adj,
                not_placed,
                visited.insert(k),
                above.push(Level { next: cur.next + 1, ..cur }),
                Level {
                    kids: successors_of(adj, k),
                    next: 0,
                    row: cur.row + 1,
                    col: at,
                    max_col: at,
                },
            );
            &&& visited.union(was.seen) == visited.insert(k).union(now.seen)
            &&& was.placed == seq![spot_at(k, cur.row, at)] + now.placed
            &&& was.max_col == now.max_col
        }),
{
    let k = cur.kids[cur.next as int];
    let at = cur.col + cur.next;
    let marked = visited.insert(k);
    let parent = Level { next: cur.next + 1, ..cur };
    let down = Level { kids: successors_of(adj, k), next: 0, row: cur.row + 1, col: at, max_col: at };
    let first = subtree(adj, not_placed, marked, k, cur.row, at);
    let below = children(adj, not_placed, marked, down.kids, 0, down.row, at);
    lemma_children_max_col(adj, not_placed, marked, down.kids, 0, down.row, at);
    let onward = marked.union(first.seen);
    let rest = children(adj, not_placed, onward, cur.kids, cur.next + 1, cur.row, cur.col);
    let whole = children(adj, not_placed, visited, cur.kids, cur.next, cur.row, cur.col);
    let stacked = above.push(parent);
    assert(stacked.drop_last() =~= above);
    let back = Level { max_col: larger(parent.max_col, larger(at, below.max_col)), ..parent };
    let up = unwind(adj, not_placed, onward, above, back);
    assert(unwind(adj, not_placed, marked, stacked, down).placed == below.placed + up.placed);
    assert(visited.union(whole.seen) =~= onward.union(rest.seen));
}

/// Leaving a level whose successors are all dealt with: the walk goes on at
/// the level above, which takes over the largest column.
proof fn lemma_unwind_return(
    adj: Map<u32, Seq<u32>>,
    not_placed: Set<u32>,
    visited: Set<u32>,
    above: Seq<Level>,
    cur: Level,
)
    requires
        cur.next >= cur.kids.len(),
        cur.max_col >= cur.col,
    ensures
        above.len() == 0 ==> unwind(adj, not_placed, visited, above, cur) == (Walk {
            seen: Set::empty(),
            placed: Seq::empty(),
            max_col: cur.max_col,
        }),
        above.len() > 0 ==> ({
            let was = unwind(adj, not_placed, visited, above, cur);
            let now = unwind(
                adj,
                not_placed,
                visited,
                above.drop_last(),
                Level { max_col: larger(above.last().max_col, cur.max_col), ..above.last() },
            );
            &&& was.seen == now.seen
            &&& was.placed == now.placed
            &&& was.max_col == now.max_col
        }),
{
    if above.len() > 0 {
        assert(visited.union(Set::empty()) =~= visited);
    }
}

/// Walks the tree below `root_idx`, which the caller has marked in `visited`.
/// The node is put at `start_row` and `start_col` if it waits for a position;
/// its positions and those below it are added to `placed`, and what the walk
/// marks to `visited`. Returns the largest column that the walk reported.
///
/// The walk keeps its levels on a stack of its own, so that a deep graph
/// cannot exhaust the call stack.
pub fn build_tree(
    g: &Topology,
    visited: &mut HashSet<u32>,
    not_placed: &HashSet<u32>,
    placed: &mut Vec<Placement>,
    root_idx: u32,
    start_row: u64,
    start_col: u64,
) -> (max_col: u128)
    ensures
        final(visited)@ == old(visited)@.union(
            subtree(
                adjacency(*g),
                not_placed@,
                old(visited)@,
                root_idx,
                start_row as nat,
                start_col as nat,
            ).seen,
        ),
        spots(final(placed)@) == spots(old(placed)@) + subtree(
            adjacency(*g),
            not_placed@,
            old(visited)@,
            root_idx,
            start_row as nat,
            start_col as nat,
        ).placed,
        max_col == subtree(
            adjacency(*g),
            not_placed@,
            old(visited)@,
            root_idx,
            start_row as nat,
            start_col as nat,
        ).max_col,
{
    let ghost adj = adjacency(*g);
    let ghost entry = visited@;
    let ghost before = spots(placed@);
    if !not_placed.contains(&root_idx) {
        return start_col as u128;
    }
    proof {
        lemma_unvisited_bound(entry);
    }
    placed.push(
        Placement {
            node: root_idx,
            x: start_col as u128 * NODE_DIST,
            y: start_row as u128 * ROW_DIST,
        },
    );
    let ghost here = spot_at(root_idx, start_row as nat, start_col as nat);

    let mut kids = successors(g, root_idx);
    let mut next: usize = 0;
    let mut row: u128 = start_row as u128 + 1;
    let mut col: u128 = start_col as u128;
    let mut max_col: u128 = start_col as u128;
    let mut stack: Vec<Frame> = Vec::new();
    let ghost whole = children(adj, not_placed@, entry, kids@, 0, row as nat, col as nat);
    proof {
        lemma_children_max_col(adj, not_placed@, entry, kids@, 0, row as nat, col as nat);
    }
    loop
        invariant
            adj == adjacency(*g),
            entry == old(visited)@,
            before == spots(old(placed)@),
            here == spot_at(root_idx, start_row as nat, start_col as nat),
            not_placed@.contains(root_idx),
            whole == children(
                adj,
                not_placed@,
                entry,
                successors_of(adj, root_idx),
                0,
                (start_row + 1) as nat,
                start_col as nat,
            ),
            next <= kids.len(),
            max_col >= col,
            unvisited(entry).len() <= index_count(),
            row + unvisited(visited@).len() <= start_row + unvisited(entry).len() + 1,
            col + unvisited(visited@).len() * span() <= start_col + unvisited(entry).len() * span(),
            forall|j: int|
                0 <= j < stack.len() ==> {
                    &&& (#[trigger] stack[j]).next <= stack[j].kids.len()
                    &&& stack[j].max_col >= stack[j].col
                    &&& stack[j].row + unvisited(visited@).len() <= start_row + unvisited(
                        entry,
                    ).len() + 1
                    &&& stack[j].col + unvisited(visited@).len() * span() <= start_col + unvisited(
                        entry,
                    ).len() * span()
                },
            ({
                let rest = unwind(
                    adj,
                    not_placed@,
                    visited@,
                    levels(stack@),
                    Level {
                        kids: kids@,
                        next: next as nat,
                        row: row as nat,
                        col: col as nat,
                        max_col: max_col as nat,
                    },
                );
                &&& entry.union(whole.seen) == visited@.union(rest.seen)
                &&& before.push(here) + whole.placed == spots(placed@) + rest.placed
                &&& whole.max_col == rest.max_col
            }),
        decreases
            unvisited(visited@).len(),
            pending(levels(stack@)) + (kids.len() - next),
            stack.len(),
    {
        let ghost cur = Level {
            kids: kids@,
            next: next as nat,
            row: row as nat,
            col: col as nat,
            max_col: max_col as nat,
        };
        let ghost above = levels(stack@);
        let ghost marked = visited@;
        let ghost laid = spots(placed@);
        if next < kids.len() {
            let k = kids[next];
            if visited.contains(&k) {
                // reached before: pass over it
                proof {
                    lemma_unwind_skip(adj, not_placed@, marked, above, cur);
                }
                next = next + 1;
            } else {
                proof {
                    lemma_unvisited_shrinks(marked, k, Set::empty());
                    lemma_unvisited_bound(marked);
                }
                visited.insert(k);
                let at: u128 = col + next as u128;
                if not_placed.contains(&k) {
                    // it waits for a position: place it and go down to its
                    // successors, keeping this level on the stack
                    proof {
                        lemma_unwind_descend(adj, not_placed@, marked, above, cur);
                    }
                    placed.push(Placement { node: k, x: at * NODE_DIST, y: row * ROW_DIST });
                    let below = successors(g, k);
                    stack.push(Frame { kids, next: next + 1, row, col, max_col });
                    proof {
                        assert(levels(stack@) =~= above.push(Level { next: cur.next + 1, ..cur }));
                        let now = unwind(
                            adj,
                            not_placed@,
                            visited@,
                            levels(stack@),
                            Level {
                                kids: below@,
                                next: 0,
                                row: (row + 1) as nat,
                                col: at as nat,
                                max_col: at as nat,
                            },
                        );
                        assert(laid + (seq![spot_at(k, cur.row, at as nat)] + now.placed)
                            =~= laid.push(spot_at(k, cur.row, at as nat)) + now.placed);
                    }
                    kids = below;
                    next = 0;
                    row = row + 1;
                    col = at;
                    max_col = at;
                } else {
                    // it has a position: leave it and all below it alone
                    proof {
                        lemma_unwind_pass(adj, not_placed@, marked, above, cur);
                    }
                    next = next + 1;
                    if at > max_col {
                        max_col = at;
                    }
                }
            }
        } else {
            // this level is done: go back up, or end at the top
            proof {
                lemma_unwind_return(adj, not_placed@, marked, above, cur);
            }
            match stack.pop() {
                None => {
                    return max_col;
                },
                Some(parent) => {
                    proof {
                        assert(levels(stack@) =~= above.drop_last());
                    }
                    kids = parent.kids;
                    next = parent.next;
                    row = parent.row;
                    col = parent.col;
                    if parent.max_col > max_col {
                        max_col = parent.max_col;
                    }
                },
            }
        }
    }
}

impl View for Hierarchical {
    type V = State;

    closed spec fn view(&self) -> State {
        self.state
    }
}

impl Hierarchical {
    /// One pass over `g`: every source is marked and walked in turn, by rising
    /// index, and the nodes of `not_placed` that the walks reach get a
    /// position each. The layout itself keeps nothing from the pass.
    pub fn next(&mut self, g: &Topology, not_placed: &HashSet<u32>) -> (pass: Pass)
        ensures
            spots(pass.placements@) == layout(adjacency(*g), not_placed@).placed,
            pass.max_col == layout(adjacency(*g), not_placed@).max_col,
            final(self)@ == old(self)@,
    {
        let ghost adj = adjacency(*g);
        let mut visited: HashSet<u32> = HashSet::new();
        let mut placed: Vec<Placement> = Vec::new();
        let mut max_col: u128 = 0;
        let roots = source_nodes(g);
        proof {
            lemma_sources_unique(adj, roots@);
        }
        let ghost whole = layout(adj, not_placed@);
        let mut i: usize = 0;
        while i < roots.len()
            invariant
                i <= roots.len(),
                adj == adjacency(*g),
                roots@ == sources(adj),
                whole == layout(adj, not_placed@),
                ({
                    let rest = forest(adj, not_placed@, visited@, roots@, i as nat);
                    &&& whole.placed == spots(placed@) + rest.placed
                    &&& whole.max_col == larger(max_col as nat, rest.max_col)
                }),
            decreases roots.len() - i,
        {
            let root_idx = roots[i];
            visited.insert(root_idx);
            let curr_max_col = build_tree(
                g,
                &mut visited,
                not_placed,
                &mut placed,
                root_idx,
                0,
                i as u64,
            );
            if curr_max_col > max_col {
                max_col = curr_max_col;
            }
            i += 1;
        }
        Pass { placements: placed, max_col }
    }

    /// What the layout keeps between passes.
    pub fn state(&self) -> (state: State)
        ensures
            state == self@,
    {
        self.state
    }

    /// The layout that goes on from `state`.
    pub fn from_state(state: State) -> (layout: Hierarchical)
        ensures
            layout@ == state,
    {
        Hierarchical { state }
    }
}

} // verus!
