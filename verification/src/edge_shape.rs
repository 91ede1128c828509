//! The outline of an edge: which render primitives stand for it, by its end
//! nodes, its rank among parallel edges and the kind of graph.

use vstd::prelude::*;

verus! {

/// An edge of the graph: its index there, and its rank among the edges that
/// join the same two nodes (0 for the first or only one).
#[derive(Debug, Clone, Copy, PartialEq, Eq, Structural, Hash)]
pub struct EdgeID {
    pub idx: u32,
    pub order: usize,
}

/// The three ways in which an edge is drawn.
#[derive(Debug, Clone, Copy, PartialEq, Eq, Structural)]
pub enum EdgeForm {
    /// From a node back to itself: a loop above the node.
    Loop,
    /// The first edge between two nodes: a straight line.
    Straight,
    /// A further edge between two nodes: a curve bent away from the line.
    Curved,
}

/// The kinds of render primitive.
#[derive(Debug, Clone, Copy, PartialEq, Eq, Structural)]
pub enum Primitive {
    /// A line segment.
    Line,
    /// A filled triangle, the arrowhead.
    Triangle,
    /// A quadratic Bezier curve.
    QuadraticCurve,
    /// A cubic Bezier curve.
    CubicCurve,
}

/// How the edge of rank `order` from `start` to `end` is drawn. An edge from
/// a node to itself is a loop whatever its rank.
pub open spec fn form_of(start: u32, end: u32, order: usize) -> EdgeForm {
    if start == end {
        EdgeForm::Loop
    } else if order == 0 {
        EdgeForm::Straight
    } else {
        EdgeForm::Curved
    }
}

/// The primitives of an edge, in the order in which they are drawn. A loop
/// has no arrowhead; a straight edge has one in a directed graph only; a
/// curved edge always has one.
pub open spec fn outline(form: EdgeForm, directed: bool) -> Seq<Primitive> {
    match form {
        EdgeForm::Loop => seq![Primitive::CubicCurve],
        EdgeForm::Straight => if directed {
            seq![Primitive::Line, Primitive::Triangle]
        } else {
            seq![Primitive::Line]
        },
        EdgeForm::Curved => seq![Primitive::QuadraticCurve, Primitive::Triangle],
    }
}

impl EdgeID {
    /// How this edge is drawn between the nodes `start` and `end`.
    pub fn form(&self, start: u32, end: u32) -> (form: EdgeForm)
        ensures
            form == form_of(start, end, self.order),
    {
        if start == end {
            EdgeForm::Loop
        } else if self.order == 0 {
            EdgeForm::Straight
        } else {
            EdgeForm::Curved
        }
    }

    /// The primitives that stand for this edge between the nodes `start` and
    /// `end`, in drawing order.
    pub fn shapes(&self, start: u32, end: u32, directed: bool) -> (kinds: Vec<Primitive>)
        ensures
            kinds@ == outline(form_of(start, end, self.order), directed),
    {
        let mut kinds: Vec<Primitive> = Vec::new();
        match self.form(start, end) {
            EdgeForm::Loop => {
                kinds.push(Primitive::CubicCurve);
            },
            EdgeForm::Straight => {
                kinds.push(Primitive::Line);
                if directed {
                    kinds.push(Primitive::Triangle);
                }
            },
            EdgeForm::Curved => {
                kinds.push(Primitive::QuadraticCurve);
                kinds.push(Primitive::Triangle);
            },
        }
        kinds
    }
}

/// An edge of rank 0 between two different nodes is one line, with one
/// arrowhead in a directed graph and none in an undirected one, and no curve.
pub proof fn law_rank_zero_is_straight(start: u32, end: u32, directed: bool)
    requires
        start != end,
    ensures
        ({
            let kinds = outline(form_of(start, end, 0), directed);
            &&& kinds == if directed {
                seq![Primitive::Line, Primitive::Triangle]
            } else {
                seq![Primitive::Line]
            }
            &&& !kinds.contains(Primitive::QuadraticCurve)
            &&& !kinds.contains(Primitive::CubicCurve)
        }),
{
}

/// Two edges join the same two nodes, in either direction.
pub open spec fn parallel(a: (u32, u32), b: (u32, u32)) -> bool {
    (a.0 == b.0 && a.1 == b.1) || (a.0 == b.1 && a.1 == b.0)
}

/// How many of the first `n` edges are parallel to the edge `i`.
pub open spec fn parallel_before(ends: Seq<(u32, u32)>, i: int, n: int) -> nat
    decreases n,
{
    if n <= 0 {
        0
    } else if parallel(ends[n - 1], ends[i]) {
        parallel_before(ends, i, n - 1) + 1
    } else {
        parallel_before(ends, i, n - 1)
    }
}

/// The rank of the edge `i` among the edges parallel to it: how many of them
/// stand before it in the list.
pub open spec fn rank(ends: Seq<(u32, u32)>, i: int) -> nat {
    parallel_before(ends, i, i)
}

/// The rank of each edge among the edges that join the same two nodes, from
/// the end nodes of all edges in the order of the graph.
pub fn parallel_orders(ends: &Vec<(u32, u32)>) -> (orders: Vec<usize>)
    ensures
        orders@.len() == ends@.len(),
        forall|i: int| 0 <= i < ends@.len() ==> orders@[i] == rank(ends@, i),
{
    let mut orders: Vec<usize> = Vec::new();
    let mut i: usize = 0;
    while i < ends.len()
        invariant
            i <= ends.len(),
            orders@.len() == i,
            forall|k: int| 0 <= k < i ==> orders@[k] == rank(ends@, k),
        decreases ends.len() - i,
    {
        let edge = ends[i];
        let mut order: usize = 0;
        let mut j: usize = 0;
        while j < i
            invariant
                j <= i,
                i < ends.len(),
                edge == ends@[i as int],
                order == parallel_before(ends@, i as int, j as int),
                order <= j,
            decreases i - j,
        {
            let other = ends[j];
            if (other.0 == edge.0 && other.1 == edge.1) || (other.0 == edge.1 && other.1 == edge.0) {
                order = order + 1;
            }
            j = j + 1;
        }
        orders.push(order);
        i = i + 1;
    }
    orders
}

/// Two edges that are parallel have the same edges parallel to them.
pub proof fn lemma_parallel_before_shared(ends: Seq<(u32, u32)>, i: int, j: int, n: int)
    requires
        parallel(ends[i], ends[j]),
    ensures
        parallel_before(ends, i, n) == parallel_before(ends, j, n),
    decreases n,
{
    if n > 0 {
        lemma_parallel_before_shared(ends, i, j, n - 1);
    }
}

/// The count of parallel edges does not fall as more edges are looked at.
pub proof fn lemma_parallel_before_rises(ends: Seq<(u32, u32)>, i: int, m: int, n: int)
    requires
        m <= n,
    ensures
        parallel_before(ends, i, m) <= parallel_before(ends, i, n),
    decreases n - m,
{
    if m < n {
        lemma_parallel_before_rises(ends, i, m, n - 1);
    }
}

/// Among the edges that join the same two nodes the rank is unique: of two
/// such edges the later one has the higher rank.
pub proof fn law_parallel_edges_differ_in_rank(ends: Seq<(u32, u32)>, i: int, j: int)
    requires
        0 <= i < j < ends.len(),
        parallel(ends[i], ends[j]),
    ensures
        rank(ends, i) < rank(ends, j),
{
    lemma_parallel_before_shared(ends, i, j, i);
    lemma_parallel_before_rises(ends, j, i + 1, j);
}

/// An edge has rank 0, and so is drawn straight or as the innermost loop, if
/// and only if no edge before it joins the same two nodes.
pub proof fn law_rank_zero_is_first(ends: Seq<(u32, u32)>, i: int)
    requires
        0 <= i < ends.len(),
    ensures
        rank(ends, i) == 0 <==> forall|j: int| 0 <= j < i ==> !parallel(#[trigger] ends[j], ends[i]),
{
    if rank(ends, i) == 0 {
        assert forall|j: int| 0 <= j < i implies !parallel(#[trigger] ends[j], ends[i]) by {
            if parallel(ends[j], ends[i]) {
                lemma_parallel_before_rises(ends, i, j + 1, i);
            }
        }
    }
    if forall|j: int| 0 <= j < i ==> !parallel(#[trigger] ends[j], ends[i]) {
        lemma_none_parallel_before(ends, i, i);
    }
}

/// Where none of the first `n` edges is parallel to the edge `i`, the count
/// is 0.
proof fn lemma_none_parallel_before(ends: Seq<(u32, u32)>, i: int, n: int)
    requires
        forall|j: int| 0 <= j < n ==> !parallel(#[trigger] ends[j], ends[i]),
    ensures
        parallel_before(ends, i, n) == 0,
    decreases n,
{
    if n > 0 {
        lemma_none_parallel_before(ends, i, n - 1);
    }
}

} // verus!
