//! Draw order: the shapes of a frame in two layers, the upper one for what is
//! selected or dragged.

use vstd::prelude::*;

verus! {

/// The shapes of a frame, in two layers. `S` is the painter's shape type.
pub struct Layers<S> {
    bottom: Vec<S>,
    top: Vec<S>,
}

/// The two layers as sequences, each in the order in which it was filled.
pub struct LayersView<S> {
    pub bottom: Seq<S>,
    pub top: Seq<S>,
}

impl<S> View for Layers<S> {
    type V = LayersView<S>;

    closed spec fn view(&self) -> LayersView<S> {
        LayersView { bottom: self.bottom@, top: self.top@ }
    }
}

/// The shapes of one node, with what decides its layer.
pub struct NodeShapes<S> {
    pub shapes: Vec<S>,
    pub selected: bool,
    pub dragged: bool,
}

/// The shapes of one edge, with what decides its layer.
pub struct EdgeShapes<S> {
    pub shapes: Vec<S>,
    pub selected: bool,
}

/// The shapes of the first `n` nodes that belong to the upper layer
/// (`on_top`) or to the lower one, node after node.
pub open spec fn node_layer<S>(nodes: Seq<NodeShapes<S>>, n: int, on_top: bool) -> Seq<S>
    decreases n,
{
    if n <= 0 {
        Seq::empty()
    } else {
        let last = nodes[n - 1];
        let before = node_layer(nodes, n - 1, on_top);
        if (last.selected || last.dragged) == on_top {
            before + last.shapes@
        } else {
            before
        }
    }
}

/// The shapes of the first `n` edges that belong to the upper layer
/// (`on_top`) or to the lower one, edge after edge.
pub open spec fn edge_layer<S>(edges: Seq<EdgeShapes<S>>, n: int, on_top: bool) -> Seq<S>
    decreases n,
{
    if n <= 0 {
        Seq::empty()
    } else {
        let last = edges[n - 1];
        let before = edge_layer(edges, n - 1, on_top);
        if last.selected == on_top {
            before + last.shapes@
        } else {
            before
        }
    }
}

impl<S> Layers<S> {
    /// Two empty layers.
    pub fn new() -> (l: Self)
        ensures
            l@.bottom == Seq::<S>::empty(),
            l@.top == Seq::<S>::empty(),
    {
        Layers { bottom: Vec::new(), top: Vec::new() }
    }

    /// Puts a shape on the lower layer, above what is there.
    pub fn add(&mut self, shape: S)
        ensures
            final(self)@.bottom == old(self)@.bottom.push(shape),
            final(self)@.top == old(self)@.top,
    {
        self.bottom.push(shape);
    }

    /// Puts a shape on the upper layer, above what is there.
    pub fn add_top(&mut self, shape: S)
        ensures
            final(self)@.bottom == old(self)@.bottom,
            final(self)@.top == old(self)@.top.push(shape),
    {
        self.top.push(shape);
    }

    /// Puts the shapes of one element on one layer, in their order.
    fn add_all(&mut self, shapes: Vec<S>, on_top: bool)
        ensures
            final(self)@.bottom == if on_top {
                old(self)@.bottom
            } else {
                old(self)@.bottom + shapes@
            },
            final(self)@.top == if on_top {
                old(self)@.top + shapes@
            } else {
                old(self)@.top
            },
    {
        let mut shapes = shapes;
        if on_top {
            self.top.append(&mut shapes);
        } else {
            self.bottom.append(&mut shapes);
        }
    }

    /// Adds the shapes of every node: on the upper layer where the node is
    /// selected or dragged, on the lower one otherwise.
    pub fn fill_layers_nodes(&mut self, nodes: Vec<NodeShapes<S>>)
        ensures
            final(self)@.bottom == old(self)@.bottom + node_layer(
                nodes@,
                nodes@.len() as int,
                false,
            ),
            final(self)@.top == old(self)@.top + node_layer(nodes@, nodes@.len() as int, true),
    {
        let ghost all = nodes@;
        let ghost bottom = self@.bottom;
        let ghost top = self@.top;
        for node in it: nodes
            invariant
                it.seq() == all,
                self@.bottom == bottom + node_layer(all, it.index() as int, false),
                self@.top == top + node_layer(all, it.index() as int, true),
        {
            let on_top = node.selected || node.dragged;
            self.add_all(node.shapes, on_top);
        }
    }

    /// Adds the shapes of every edge: on the upper layer where the edge is
    /// selected, on the lower one otherwise.
    pub fn fill_layers_edges(&mut self, edges: Vec<EdgeShapes<S>>)
        ensures
            final(self)@.bottom == old(self)@.bottom + edge_layer(
                edges@,
                edges@.len() as int,
                false,
            ),
            final(self)@.top == old(self)@.top + edge_layer(edges@, edges@.len() as int, true),
    {
        let ghost all = edges@;
        let ghost bottom = self@.bottom;
        let ghost top = self@.top;
        for edge in it: edges
            invariant
                it.seq() == all,
                self@.bottom == bottom + edge_layer(all, it.index() as int, false),
                self@.top == top + edge_layer(all, it.index() as int, true),
        {
            self.add_all(edge.shapes, edge.selected);
        }
    }

    /// The shapes in drawing order: the lower layer first, the upper one
    /// above it.
    pub fn into_draw_order(self) -> (shapes: Vec<S>)
        ensures
            shapes@ == self@.bottom + self@.top,
    {
        let mut shapes = self.bottom;
        let mut top = self.top;
        shapes.append(&mut top);
        shapes
    }
}

impl<S> Default for Layers<S> {
    fn default() -> (l: Self)
        ensures
            l@.bottom == Seq::<S>::empty(),
            l@.top == Seq::<S>::empty(),
    {
        Layers::new()
    }
}

/// The shapes of a frame in drawing order. Edges lie below nodes, and what
/// is selected or dragged lies above all that is not: first the edges that are
/// not selected, then the nodes that are neither selected nor dragged, then
/// the selected edges, then the selected or dragged nodes.
pub fn draw_order<S>(edges: Vec<EdgeShapes<S>>, nodes: Vec<NodeShapes<S>>) -> (shapes: Vec<S>)
    ensures
        shapes@ == edge_layer(edges@, edges@.len() as int, false) + node_layer(
            nodes@,
            nodes@.len() as int,
            false,
        ) + edge_layer(edges@, edges@.len() as int, true) + node_layer(
            nodes@,
            nodes@.len() as int,
            true,
        ),
{
    let mut l: Layers<S> = Layers::new();
    l.fill_layers_edges(edges);
    l.fill_layers_nodes(nodes);
    let shapes = l.into_draw_order();
    shapes
}

/// The shapes of the first `n` nodes, node after node.
pub open spec fn node_shapes<S>(nodes: Seq<NodeShapes<S>>, n: int) -> Seq<S>
    decreases n,
{
    if n <= 0 {
        Seq::empty()
    } else {
        node_shapes(nodes, n - 1) + nodes[n - 1].shapes@
    }
}

/// The shapes of the first `n` edges, edge after edge.
pub open spec fn edge_shapes<S>(edges: Seq<EdgeShapes<S>>, n: int) -> Seq<S>
    decreases n,
{
    if n <= 0 {
        Seq::empty()
    } else {
        edge_shapes(edges, n - 1) + edges[n - 1].shapes@
    }
}

/// The two layers share out the shapes of the nodes: each shape lies on one
/// layer, as often as the nodes hold it.
pub proof fn law_layers_share_out_node_shapes<S>(nodes: Seq<NodeShapes<S>>, n: int)
    ensures
        node_layer(nodes, n, false).to_multiset().add(node_layer(nodes, n, true).to_multiset())
            =~= node_shapes(nodes, n).to_multiset(),
    decreases n,
{
    if n > 0 {
        law_layers_share_out_node_shapes(nodes, n - 1);
        let last = nodes[n - 1].shapes@;
        vstd::seq_lib::lemma_multiset_commutative(node_layer(nodes, n - 1, false), last);
        vstd::seq_lib::lemma_multiset_commutative(node_layer(nodes, n - 1, true), last);
        vstd::seq_lib::lemma_multiset_commutative(node_shapes(nodes, n - 1), last);
    } else {
        assert(Seq::<S>::empty().to_multiset() =~= vstd::multiset::Multiset::<S>::empty()) by {
            Seq::<S>::empty().to_multiset_ensures();
        }
    }
}

/// The two layers share out the shapes of the edges: each shape lies on one
/// layer, as often as the edges hold it.
pub proof fn law_layers_share_out_edge_shapes<S>(edges: Seq<EdgeShapes<S>>, n: int)
    ensures
        edge_layer(edges, n, false).to_multiset().add(edge_layer(edges, n, true).to_multiset())
            =~= edge_shapes(edges, n).to_multiset(),
    decreases n,
{
    if n > 0 {
        law_layers_share_out_edge_shapes(edges, n - 1);
        let last = edges[n - 1].shapes@;
        vstd::seq_lib::lemma_multiset_commutative(edge_layer(edges, n - 1, false), last);
        vstd::seq_lib::lemma_multiset_commutative(edge_layer(edges, n - 1, true), last);
        vstd::seq_lib::lemma_multiset_commutative(edge_shapes(edges, n - 1), last);
    } else {
        assert(Seq::<S>::empty().to_multiset() =~= vstd::multiset::Multiset::<S>::empty()) by {
            Seq::<S>::empty().to_multiset_ensures();
        }
    }
}

} // verus!
