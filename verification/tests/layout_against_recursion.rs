use egui_graphs::hierarchical::{Hierarchical, Placement};
use petgraph::stable_graph::{NodeIndex, StableGraph};
use petgraph::Direction::{Incoming, Outgoing};
use std::collections::HashSet;

/// The walk written down as a plain recursion on the graph.
fn walk(
    g: &StableGraph<(), ()>,
    visited: &mut HashSet<NodeIndex>,
    not_placed: &HashSet<u32>,
    placed: &mut Vec<Placement>,
    root: NodeIndex,
    row: u128,
    col: u128,
) -> u128 {
    if !not_placed.contains(&(root.index() as u32)) {
        return col;
    }
    placed.push(Placement { node: root.index() as u32, x: col * 50, y: row * 50 });
    let mut max_col = col;
    let kids: Vec<NodeIndex> = g.neighbors_directed(root, Outgoing).collect();
    for (i, kid) in kids.iter().enumerate() {
        if visited.contains(kid) {
            continue;
        }
        visited.insert(*kid);
        let below = walk(g, visited, not_placed, placed, *kid, row + 1, col + i as u128);
        if below > max_col {
            max_col = below;
        }
    }
    max_col
}

fn pass(g: &StableGraph<(), ()>, not_placed: &HashSet<u32>) -> (Vec<Placement>, u128) {
    let mut visited = HashSet::new();
    let mut placed = Vec::new();
    let mut max_col = 0;
    let roots: Vec<NodeIndex> = g.externals(Incoming).collect();
    for (i, root) in roots.iter().enumerate() {
        visited.insert(*root);
        let below = walk(g, &mut visited, not_placed, &mut placed, *root, 0, i as u128);
        if below > max_col {
            max_col = below;
        }
    }
    (placed, max_col)
}

/// A small generator of numbers, the same on every run.
struct Numbers(u64);

impl Numbers {
    fn below(&mut self, bound: u64) -> u64 {
        self.0 = self.0.wrapping_mul(6364136223846793005).wrapping_add(1442695040888963407);
        (self.0 >> 33) % bound
    }
}

#[test]
fn stack_walk_agrees_with_recursion_on_many_graphs() {
    let mut numbers = Numbers(2024);
    let mut with_placements = 0;
    for _ in 0..400 {
        let nodes = 1 + numbers.below(12);
        let mut g: StableGraph<(), ()> = StableGraph::new();
        for _ in 0..nodes {
            g.add_node(());
        }
        for _ in 0..numbers.below(2 * nodes + 1) {
            let from = NodeIndex::new(numbers.below(nodes) as usize);
            let to = NodeIndex::new(numbers.below(nodes) as usize);
            g.add_edge(from, to, ());
        }
        for _ in 0..numbers.below(3) {
            g.remove_node(NodeIndex::new(numbers.below(nodes) as usize));
        }
        for _ in 0..numbers.below(3) {
            let from = NodeIndex::new(numbers.below(nodes) as usize);
            let to = NodeIndex::new(numbers.below(nodes) as usize);
            if g.contains_node(from) && g.contains_node(to) {
                g.add_edge(from, to, ());
            }
        }
        let mut not_placed = HashSet::new();
        for n in 0..nodes as u32 {
            if numbers.below(4) != 0 {
                not_placed.insert(n);
            }
        }

        let (placed, max_col) = pass(&g, &not_placed);
        let got = Hierarchical::default().next(&g, &not_placed);

        assert_eq!(got.placements, placed);
        assert_eq!(got.max_col, max_col);
        if !placed.is_empty() {
            with_placements += 1;
        }
    }
    assert!(with_placements > 100);
}
