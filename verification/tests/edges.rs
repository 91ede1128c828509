use egui_graphs::edge_shape::{parallel_orders, EdgeForm, EdgeID, Primitive};

#[test]
fn edge_to_the_same_node_is_a_loop_whatever_its_rank() {
    for order in [0, 1, 7] {
        let id = EdgeID { idx: 3, order };
        assert_eq!(id.form(4, 4), EdgeForm::Loop);
        assert_eq!(id.shapes(4, 4, true), vec![Primitive::CubicCurve]);
        assert_eq!(id.shapes(4, 4, false), vec![Primitive::CubicCurve]);
    }
}

#[test]
fn first_edge_between_two_nodes_is_straight() {
    let id = EdgeID { idx: 0, order: 0 };
    assert_eq!(id.form(1, 2), EdgeForm::Straight);
    assert_eq!(id.form(2, 1), EdgeForm::Straight);
}

#[test]
fn straight_edge_has_an_arrowhead_in_a_directed_graph_only() {
    let id = EdgeID { idx: 0, order: 0 };
    assert_eq!(id.shapes(1, 2, true), vec![Primitive::Line, Primitive::Triangle]);
    assert_eq!(id.shapes(1, 2, false), vec![Primitive::Line]);
}

#[test]
fn further_edge_between_two_nodes_is_curved() {
    for order in [1, 2, usize::MAX] {
        let id = EdgeID { idx: 0, order };
        assert_eq!(id.form(1, 2), EdgeForm::Curved);
        assert_eq!(
            id.shapes(1, 2, true),
            vec![Primitive::QuadraticCurve, Primitive::Triangle]
        );
        assert_eq!(
            id.shapes(1, 2, false),
            vec![Primitive::QuadraticCurve, Primitive::Triangle]
        );
    }
}

#[test]
fn straight_edge_has_no_curve() {
    let id = EdgeID { idx: 9, order: 0 };
    for directed in [true, false] {
        let kinds = id.shapes(5, 6, directed);
        assert_eq!(kinds.iter().filter(|k| **k == Primitive::Line).count(), 1);
        assert!(!kinds.contains(&Primitive::QuadraticCurve));
        assert!(!kinds.contains(&Primitive::CubicCurve));
    }
}

#[test]
fn lone_edges_have_rank_zero() {
    assert_eq!(parallel_orders(&vec![]), vec![]);
    assert_eq!(parallel_orders(&vec![(0, 1)]), vec![0]);
    assert_eq!(parallel_orders(&vec![(0, 1), (1, 2), (0, 2)]), vec![0, 0, 0]);
}

#[test]
fn parallel_edges_are_ranked_in_their_order() {
    assert_eq!(parallel_orders(&vec![(0, 1), (0, 1), (0, 1)]), vec![0, 1, 2]);
    assert_eq!(
        parallel_orders(&vec![(0, 1), (2, 3), (0, 1), (2, 3), (0, 1)]),
        vec![0, 0, 1, 1, 2]
    );
}

#[test]
fn direction_does_not_tell_parallel_edges_apart() {
    assert_eq!(parallel_orders(&vec![(0, 1), (1, 0), (0, 1)]), vec![0, 1, 2]);
    assert_eq!(parallel_orders(&vec![(4, 7), (7, 5), (7, 4)]), vec![0, 0, 1]);
}

#[test]
fn loops_at_one_node_are_ranked() {
    assert_eq!(parallel_orders(&vec![(3, 3), (3, 3), (3, 4), (4, 4)]), vec![0, 1, 0, 0]);
}

#[test]
fn ranks_are_unique_among_parallel_edges() {
    let ends = vec![(0, 1), (1, 0), (2, 2), (0, 1), (2, 2), (1, 2), (1, 0)];
    let orders = parallel_orders(&ends);
    assert_eq!(orders, vec![0, 1, 0, 2, 1, 0, 3]);
    for i in 0..ends.len() {
        for j in 0..i {
            let same = ends[i] == ends[j] || ends[i] == (ends[j].1, ends[j].0);
            if same {
                assert!(orders[j] < orders[i]);
            }
        }
    }
}
