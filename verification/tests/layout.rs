use egui_graphs::hierarchical::{build_tree, Hierarchical, Placement, State, NODE_DIST, ROW_DIST};
use petgraph::stable_graph::{NodeIndex, StableGraph};
use std::collections::HashSet;

fn at(node: u32, x: u128, y: u128) -> Placement {
    Placement { node, x, y }
}

fn graph(nodes: u32, edges: &[(u32, u32)]) -> StableGraph<(), ()> {
    let mut g: StableGraph<(), ()> = StableGraph::new();
    for _ in 0..nodes {
        g.add_node(());
    }
    for (from, to) in edges {
        g.add_edge(NodeIndex::new(*from as usize), NodeIndex::new(*to as usize), ());
    }
    g
}

fn waiting(nodes: &[u32]) -> HashSet<u32> {
    nodes.iter().copied().collect()
}

#[test]
fn spacing_is_fifty_units() {
    assert_eq!(ROW_DIST, 50);
    assert_eq!(NODE_DIST, 50);
}

#[test]
fn root_with_two_successors_fills_two_rows() {
    let g = graph(3, &[(0, 1), (0, 2)]);

    let pass = Hierarchical::default().next(&g, &waiting(&[0, 1, 2]));

    // the graph hands out the edge added last first
    assert_eq!(pass.placements, vec![at(0, 0, 0), at(2, 0, 50), at(1, 50, 50)]);
    assert_eq!(pass.max_col, 1);
    let a = pass.placements.iter().find(|p| p.node == 1).unwrap();
    let b = pass.placements.iter().find(|p| p.node == 2).unwrap();
    assert_eq!(a.y, b.y);
    assert_ne!(a.x, b.x);
}

#[test]
fn successor_with_a_position_is_left_alone() {
    let g = graph(3, &[(0, 1), (0, 2)]);

    let pass = Hierarchical::default().next(&g, &waiting(&[0, 2]));

    assert_eq!(pass.placements, vec![at(0, 0, 0), at(2, 0, 50)]);
    // the walk of node 1 still reports the column that it was offered
    assert_eq!(pass.max_col, 1);
}

#[test]
fn root_with_a_position_hides_what_is_below_it() {
    let g = graph(3, &[(0, 1), (1, 2)]);

    let pass = Hierarchical::default().next(&g, &waiting(&[1, 2]));

    assert_eq!(pass.placements, vec![]);
    assert_eq!(pass.max_col, 0);
}

#[test]
fn node_with_a_position_hides_what_is_below_it() {
    let g = graph(4, &[(0, 1), (1, 2), (2, 3)]);

    let pass = Hierarchical::default().next(&g, &waiting(&[0, 1, 3]));

    assert_eq!(pass.placements, vec![at(0, 0, 0), at(1, 0, 50)]);
}

#[test]
fn lone_cycle_has_no_root_and_stays_unplaced() {
    let g = graph(3, &[(0, 1), (1, 2), (2, 0)]);

    let pass = Hierarchical::default().next(&g, &waiting(&[0, 1, 2]));

    assert_eq!(pass.placements, vec![]);
    assert_eq!(pass.max_col, 0);
}

#[test]
fn cycle_below_a_root_is_walked_once() {
    // 3 -> 0, and the cycle 0 -> 1 -> 2 -> 0
    let g = graph(4, &[(0, 1), (1, 2), (2, 0), (3, 0)]);

    let pass = Hierarchical::default().next(&g, &waiting(&[0, 1, 2, 3]));

    assert_eq!(
        pass.placements,
        vec![at(3, 0, 0), at(0, 0, 50), at(1, 0, 100), at(2, 0, 150)]
    );
    assert_eq!(pass.max_col, 0);
}

#[test]
fn node_reached_twice_keeps_its_first_position() {
    // a diamond: 0 -> 1 -> 3 and 0 -> 2 -> 3; the successors of 0 come out as 2, 1
    let g = graph(4, &[(0, 1), (0, 2), (1, 3), (2, 3)]);

    let pass = Hierarchical::default().next(&g, &waiting(&[0, 1, 2, 3]));

    assert_eq!(
        pass.placements,
        vec![at(0, 0, 0), at(2, 0, 50), at(3, 0, 100), at(1, 50, 50)]
    );
    let mut nodes: Vec<u32> = pass.placements.iter().map(|p| p.node).collect();
    nodes.sort();
    nodes.dedup();
    assert_eq!(nodes.len(), pass.placements.len());
}

#[test]
fn roots_start_at_the_column_of_their_rank() {
    // three isolated roots and one with a successor
    let g = graph(5, &[(3, 4)]);

    let pass = Hierarchical::default().next(&g, &waiting(&[0, 1, 2, 3, 4]));

    assert_eq!(
        pass.placements,
        vec![at(0, 0, 0), at(1, 50, 0), at(2, 100, 0), at(3, 150, 0), at(4, 150, 50)]
    );
    assert_eq!(pass.max_col, 3);
}

#[test]
fn subtrees_of_two_roots_may_share_a_spot() {
    // 0 -> 2 and 1 -> 3, 1 -> 4: the successors of 1 come out as 4, 3
    let g = graph(5, &[(0, 2), (1, 3), (1, 4)]);

    let pass = Hierarchical::default().next(&g, &waiting(&[0, 1, 2, 3, 4]));

    assert_eq!(
        pass.placements,
        vec![at(0, 0, 0), at(2, 0, 50), at(1, 50, 0), at(4, 50, 50), at(3, 100, 50)]
    );
    assert_eq!(pass.max_col, 2);
}

#[test]
fn parallel_edge_uses_up_a_column() {
    // the successors of 0 come out as 2, 1, 1
    let g = graph(3, &[(0, 1), (0, 1), (0, 2)]);
    let pass = Hierarchical::default().next(&g, &waiting(&[0, 1, 2]));
    assert_eq!(pass.placements, vec![at(0, 0, 0), at(2, 0, 50), at(1, 50, 50)]);

    // the successors of 0 come out as 1, 2, 2
    let g = graph(3, &[(0, 2), (0, 2), (0, 1)]);
    let pass = Hierarchical::default().next(&g, &waiting(&[0, 1, 2]));
    assert_eq!(pass.placements, vec![at(0, 0, 0), at(1, 0, 50), at(2, 50, 50)]);

    // the successors of 0 come out as 1, 1, 2
    let g = graph(3, &[(0, 2), (0, 1), (0, 1)]);
    let pass = Hierarchical::default().next(&g, &waiting(&[0, 1, 2]));
    assert_eq!(pass.placements, vec![at(0, 0, 0), at(1, 0, 50), at(2, 100, 50)]);
    assert_eq!(pass.max_col, 2);
}

#[test]
fn node_with_a_loop_is_no_root() {
    let g = graph(2, &[(0, 0), (0, 1)]);

    let pass = Hierarchical::default().next(&g, &waiting(&[0, 1]));

    assert_eq!(pass.placements, vec![]);
}

#[test]
fn loop_below_a_root_is_passed_over() {
    let g = graph(2, &[(0, 1), (1, 1)]);

    let pass = Hierarchical::default().next(&g, &waiting(&[0, 1]));

    assert_eq!(pass.placements, vec![at(0, 0, 0), at(1, 0, 50)]);
}

#[test]
fn removed_node_leaves_the_other_indices_alone() {
    let mut g = graph(4, &[(0, 1), (1, 2), (2, 3)]);
    g.remove_node(NodeIndex::new(1));

    let pass = Hierarchical::default().next(&g, &waiting(&[0, 1, 2, 3]));

    // 0 and 2 are the roots now, at the columns 0 and 1
    assert_eq!(pass.placements, vec![at(0, 0, 0), at(2, 50, 0), at(3, 50, 50)]);
    assert_eq!(pass.max_col, 1);
}

#[test]
fn empty_graph_places_nothing() {
    let g = graph(0, &[]);

    let pass = Hierarchical::default().next(&g, &waiting(&[0, 1]));

    assert_eq!(pass.placements, vec![]);
    assert_eq!(pass.max_col, 0);
}

#[test]
fn nothing_waiting_places_nothing() {
    let g = graph(3, &[(0, 1), (0, 2)]);

    let pass = Hierarchical::default().next(&g, &waiting(&[]));

    assert_eq!(pass.placements, vec![]);
    // the last root reports the column that it was offered
    assert_eq!(pass.max_col, 0);
}

#[test]
fn only_waiting_nodes_are_placed_and_each_once() {
    let g = graph(
        7,
        &[(0, 1), (0, 2), (1, 3), (2, 3), (3, 4), (4, 1), (5, 4), (5, 6), (6, 6)],
    );
    let not_placed = waiting(&[0, 1, 3, 4, 5, 6]);

    let pass = Hierarchical::default().next(&g, &not_placed);

    assert_eq!(
        pass.placements,
        vec![at(0, 0, 0), at(1, 50, 50), at(3, 50, 100), at(4, 50, 150), at(5, 50, 0), at(6, 50, 50)]
    );
    for p in &pass.placements {
        assert!(not_placed.contains(&p.node));
        assert!(p.x <= pass.max_col * NODE_DIST);
    }
    let nodes: HashSet<u32> = pass.placements.iter().map(|p| p.node).collect();
    assert_eq!(nodes.len(), pass.placements.len());
    assert_eq!(pass.max_col, 1);
}

#[test]
fn deep_chain_descends_row_by_row() {
    let edges: Vec<(u32, u32)> = (0..200).map(|i| (i, i + 1)).collect();
    let g = graph(201, &edges);
    let all: Vec<u32> = (0..201).collect();

    let pass = Hierarchical::default().next(&g, &waiting(&all));

    assert_eq!(pass.placements.len(), 201);
    for (i, p) in pass.placements.iter().enumerate() {
        assert_eq!(*p, at(i as u32, 0, 50 * i as u128));
    }
}

#[test]
fn very_deep_chain_needs_no_call_stack() {
    let n: u32 = 300_000;
    let edges: Vec<(u32, u32)> = (0..n - 1).map(|i| (i, i + 1)).collect();
    let g = graph(n, &edges);
    let all: Vec<u32> = (0..n).collect();

    let pass = Hierarchical::default().next(&g, &waiting(&all));

    assert_eq!(pass.placements.len(), 300_000);
    assert_eq!(pass.placements[299_999], at(299_999, 0, 50 * 299_999));
    assert_eq!(pass.max_col, 0);
}

#[test]
fn build_tree_walks_from_a_marked_node() {
    let g = graph(4, &[(0, 1), (1, 2), (1, 3)]);
    let mut visited: HashSet<u32> = waiting(&[1, 3]);
    let mut placed = vec![at(9, 1, 1)];

    let max_col = build_tree(&g, &mut visited, &waiting(&[0, 1, 2, 3]), &mut placed, 1, 2, 5);

    // the successors of 1 come out as 3, 2, and 3 is marked already
    assert_eq!(placed, vec![at(9, 1, 1), at(1, 250, 100), at(2, 300, 150)]);
    assert_eq!(visited, waiting(&[1, 2, 3]));
    assert_eq!(max_col, 6);
}

#[test]
fn build_tree_leaves_a_placed_node_alone() {
    let g = graph(2, &[(0, 1)]);
    let mut visited: HashSet<u32> = waiting(&[0]);
    let mut placed = Vec::new();

    let max_col = build_tree(&g, &mut visited, &waiting(&[1]), &mut placed, 0, 0, 7);

    assert_eq!(placed, vec![]);
    assert_eq!(visited, waiting(&[0]));
    assert_eq!(max_col, 7);
}

#[test]
fn layout_keeps_its_state() {
    let mut layout = Hierarchical::from_state(State {});
    let g = graph(1, &[]);

    let pass = layout.next(&g, &waiting(&[0]));
    let again = layout.next(&g, &waiting(&[0]));

    assert_eq!(pass.placements, again.placements);
    let _state: State = layout.state();
}
