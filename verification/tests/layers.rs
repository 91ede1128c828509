use egui_graphs::layers::{draw_order, EdgeShapes, Layers, NodeShapes};

fn node(shapes: &[&'static str], selected: bool, dragged: bool) -> NodeShapes<&'static str> {
    NodeShapes { shapes: shapes.to_vec(), selected, dragged }
}

fn edge(shapes: &[&'static str], selected: bool) -> EdgeShapes<&'static str> {
    EdgeShapes { shapes: shapes.to_vec(), selected }
}

#[test]
fn empty_layers_draw_nothing() {
    let l: Layers<u8> = Layers::new();
    assert_eq!(l.into_draw_order(), vec![]);
    let l: Layers<u8> = Layers::default();
    assert_eq!(l.into_draw_order(), vec![]);
}

#[test]
fn upper_layer_is_drawn_last() {
    let mut l = Layers::new();
    l.add_top("t1");
    l.add("b1");
    l.add_top("t2");
    l.add("b2");
    assert_eq!(l.into_draw_order(), vec!["b1", "b2", "t1", "t2"]);
}

#[test]
fn selected_or_dragged_nodes_go_on_top() {
    let mut l = Layers::new();
    l.fill_layers_nodes(vec![
        node(&["a1", "a2"], false, false),
        node(&["b"], true, false),
        node(&[], true, true),
        node(&["c"], false, true),
        node(&["d"], false, false),
        node(&["e1", "e2"], true, true),
    ]);
    assert_eq!(l.into_draw_order(), vec!["a1", "a2", "d", "b", "c", "e1", "e2"]);
}

#[test]
fn selected_edges_go_on_top() {
    let mut l = Layers::new();
    l.add("below");
    l.add_top("above");
    l.fill_layers_edges(vec![
        edge(&["line", "tip"], true),
        edge(&["curve"], false),
        edge(&["loop"], true),
    ]);
    assert_eq!(
        l.into_draw_order(),
        vec!["below", "curve", "above", "line", "tip", "loop"]
    );
}

#[test]
fn edges_lie_below_nodes_in_each_layer() {
    let shapes = draw_order(
        vec![edge(&["e1"], false), edge(&["e2"], true), edge(&["e3"], false)],
        vec![node(&["n1"], true, false), node(&["n2"], false, false), node(&["n3"], false, true)],
    );
    assert_eq!(shapes, vec!["e1", "e3", "n2", "e2", "n1", "n3"]);
}

#[test]
fn frame_without_elements_draws_nothing() {
    let shapes: Vec<u8> = draw_order(vec![], vec![]);
    assert_eq!(shapes, vec![]);
}
