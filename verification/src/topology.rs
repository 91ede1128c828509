//! The view that the layout has of a `petgraph` stable graph: for each node
//! the nodes that its outgoing edges lead to, in the order in which the graph
//! hands them out.

use petgraph::stable_graph::StableGraph;
use petgraph::Directed;
use petgraph::Direction;
use vstd::prelude::*;

verus! {

/// `petgraph`'s stable graph, known here by name only: what the layout
/// learns of a graph it learns through `source_nodes` and `successors`.
#[verifier::external_type_specification]
#[verifier::external_body]
#[verifier::reject_recursive_types(N)]
#[verifier::reject_recursive_types(E)]
#[verifier::reject_recursive_types(Ty)]
#[verifier::reject_recursive_types(Ix)]
pub struct ExStableGraph<N, E, Ty, Ix>(StableGraph<N, E, Ty, Ix>);

/// `petgraph`'s marker for graphs with directed edges.
#[verifier::external_type_specification]
#[verifier::external_body]
pub struct ExDirected(Directed);

/// The directed graphs that the layout walks. Node and edge weights play no
/// part in it, and a node is known by its `u32` index.
pub type Topology = StableGraph<(), (), Directed, u32>;

/// What a graph holds, as far as the layout is concerned: each node's index,
/// mapped to the targets of the node's outgoing edges in the order in which
/// `neighbors_directed` yields them. A target occurs once for each edge that
/// leads to it.
pub uninterp spec fn adjacency(g: Topology) -> Map<u32, Seq<u32>>;

/// The successors of `n`: none where `n` is not a node.
pub open spec fn successors_of(adj: Map<u32, Seq<u32>>, n: u32) -> Seq<u32> {
    if adj.dom().contains(n) {
        adj[n]
    } else {
        Seq::empty()
    }
}

/// A source is a node that no edge leads to.
pub open spec fn is_source(adj: Map<u32, Seq<u32>>, n: u32) -> bool {
    &&& adj.dom().contains(n)
    &&& forall|m: u32| adj.dom().contains(m) ==> !(#[trigger] adj[m]).contains(n)
}

/// `s` lists the sources of the graph, each once, by rising index.
pub open spec fn lists_sources(adj: Map<u32, Seq<u32>>, s: Seq<u32>) -> bool {
    &&& forall|i: int, j: int| 0 <= i < j < s.len() ==> s[i] < s[j]
    &&& forall|n: u32|
        #![trigger s.contains(n)]
        #![trigger is_source(adj, n)]
        s.contains(n) <==> is_source(adj, n)
}

/// The sources of `g`, by rising index.
///
/// Not proved: this calls `StableGraph::externals` with `Incoming`, and the
/// contract is taken from `petgraph`. Its documentation says that the call
/// yields the nodes without edges to them; its iterator walks the node slots
/// by rising index and yields each occupied slot whose list of incoming edges
/// is empty, so every such node comes once and in that order.
#[verifier::external_body]
pub(crate) fn source_nodes(g: &Topology) -> (roots: Vec<u32>)
    ensures
        lists_sources(adjacency(*g), roots@),
{
    g.externals(Direction::Incoming).map(|n| n.index() as u32).collect()
}

/// The successors of `n` in `g`, as the graph hands them out.
///
/// Not proved: this calls `StableGraph::neighbors_directed` with `Outgoing`,
/// and the contract is taken from `petgraph`. Its documentation says that the
/// call yields a neighbour for every edge from `n`, and nothing where `n` is
/// not a node. The order is that of the node's list of outgoing edges, which
/// `adjacency` stands for.
#[verifier::external_body]
pub(crate) fn successors(g: &Topology, n: u32) -> (kids: Vec<u32>)
    ensures
        kids@ == successors_of(adjacency(*g), n),
{
    g.neighbors_directed(petgraph::stable_graph::NodeIndex::new(n as usize), Direction::Outgoing)
        .map(|k| k.index() as u32)
        .collect()
}

/// The number of `u32` indices.
pub open spec fn index_count() -> nat {
    0x1_0000_0000
}

/// The sources with an index below `bound`, by rising index.
pub open spec fn sources_below(adj: Map<u32, Seq<u32>>, bound: nat) -> Seq<u32>
    decreases bound,
{
    if bound == 0 {
        Seq::empty()
    } else {
        let lower = sources_below(adj, (bound - 1) as nat);
        if is_source(adj, (bound - 1) as u32) {
            lower.push((bound - 1) as u32)
        } else {
            lower
        }
    }
}

/// The sources of the graph, by rising index.
pub open spec fn sources(adj: Map<u32, Seq<u32>>) -> Seq<u32> {
    sources_below(adj, index_count())
}

/// `sources_below` rises strictly and holds the sources below the bound.
pub proof fn lemma_sources_below(adj: Map<u32, Seq<u32>>, bound: nat)
    requires
        bound <= index_count(),
    ensures
        forall|i: int, j: int|
            0 <= i < j < sources_below(adj, bound).len() ==> sources_below(adj, bound)[i]
                < sources_below(adj, bound)[j],
        forall|n: u32|
            #![trigger sources_below(adj, bound).contains(n)]
            #![trigger is_source(adj, n)]
            sources_below(adj, bound).contains(n) <==> n < bound && is_source(adj, n),
    decreases bound,
{
    if bound > 0 {
        let lower = sources_below(adj, (bound - 1) as nat);
        let top = (bound - 1) as u32;
        let s = sources_below(adj, bound);
        lemma_sources_below(adj, (bound - 1) as nat);
        assert forall|i: int, j: int| 0 <= i < j < s.len() implies s[i] < s[j] by {
            if j >= lower.len() {
                assert(lower.contains(lower[i]));
            }
        }
        assert forall|n: u32| s.contains(n) <==> n < bound && is_source(adj, n) by {
            if s.contains(n) {
                let i = choose|i: int| 0 <= i < s.len() && s[i] == n;
                if i < lower.len() {
                    assert(lower.contains(lower[i]));
                }
            }
            if n < bound && is_source(adj, n) {
                if n == top {
                    assert(s[s.len() - 1] == n);
                } else {
                    let i = choose|i: int| 0 <= i < lower.len() && lower[i] == n;
                    assert(s[i] == n);
                }
            }
        }
    }
}

/// The list of the sources is one.
pub proof fn lemma_sources_listed(adj: Map<u32, Seq<u32>>)
    ensures
        lists_sources(adj, sources(adj)),
{
    lemma_sources_below(adj, index_count());
}

/// Two lists that rise strictly and hold the same values are one list.
pub proof fn lemma_rising_lists_equal(s: Seq<u32>, t: Seq<u32>)
    requires
        forall|i: int, j: int| 0 <= i < j < s.len() ==> s[i] < s[j],
        forall|i: int, j: int| 0 <= i < j < t.len() ==> t[i] < t[j],
        forall|n: u32| s.contains(n) <==> t.contains(n),
    ensures
        s == t,
    decreases s.len(),
{
    if s.len() == 0 {
        if t.len() > 0 {
            assert(t.contains(t[0]));
        }
    } else {
        let top = s.last();
        assert(s.contains(top));
        assert(t.contains(t.last()));
        let s0 = s.drop_last();
        let t0 = t.drop_last();
        assert forall|n: u32| s0.contains(n) <==> t0.contains(n) by {
            if s0.contains(n) {
                assert(s.contains(n));
                let l = choose|l: int| 0 <= l < t.len() && t[l] == n;
                assert(t0[l] == n);
            }
            if t0.contains(n) {
                assert(t.contains(n));
                let l = choose|l: int| 0 <= l < s.len() && s[l] == n;
                assert(s0[l] == n);
            }
        }
        lemma_rising_lists_equal(s0, t0);
        assert(s =~= s0.push(top));
    }
}

/// Any list of the sources by rising index is the list of the sources.
pub proof fn lemma_sources_unique(adj: Map<u32, Seq<u32>>, s: Seq<u32>)
    requires
        lists_sources(adj, s),
    ensures
        s == sources(adj),
{
    lemma_sources_listed(adj);
    lemma_rising_lists_equal(s, sources(adj));
}

} // verus!
