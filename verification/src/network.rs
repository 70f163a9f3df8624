//! A directed graph with a payload on each node and an integer weight on each
//! arc.
//!
//! The arcs live in a `petgraph` graph and the payloads in a vector beside
//! it, so that what is stated of the graph does not depend on the type of the
//! payloads. Of the graph the verifier knows what the functions named
//! `graph_..` state, which is taken from the source of `petgraph` and not
//! proved here.

use petgraph::graph::{EdgeIndex, Graph, NodeIndex};
use petgraph::visit::EdgeRef;
use petgraph::{Directed, Direction};
use vstd::prelude::*;

verus! {

/// `petgraph::graph::Graph`, of which the verifier sees nothing but what the
/// functions below state.
#[verifier::external_type_specification]
#[verifier::external_body]
#[verifier::reject_recursive_types(N)]
#[verifier::reject_recursive_types(E)]
#[verifier::reject_recursive_types(Ty)]
#[verifier::reject_recursive_types(Ix)]
pub struct ExGraph<N, E, Ty, Ix>(Graph<N, E, Ty, Ix>);

/// `petgraph::Directed`, the marker of a graph whose edges have a direction.
#[verifier::external_type_specification]
#[verifier::external_body]
pub struct ExDirected(Directed);

/// One arc of a network: it leaves `tail`, enters `head` and carries `weight`.
#[derive(Clone, Copy, Debug, PartialEq, Eq, Structural)]
pub struct Arc {
    pub tail: usize,
    pub head: usize,
    pub weight: u64,
}

/// The number of nodes in a `petgraph` graph.
pub uninterp spec fn graph_order(g: Graph<(), u64, Directed, u32>) -> nat;

/// The arcs of a `petgraph` graph, by edge index: source, target and weight.
pub uninterp spec fn graph_arcs(g: Graph<(), u64, Directed, u32>) -> Seq<(usize, usize, u64)>;

/// `Graph::with_capacity`: a graph without nodes or edges. The bounds keep the
/// room asked for within what a graph with `u32` indices can hold.
#[verifier::external_body]
fn graph_with_capacity(nodes: usize, edges: usize) -> (g: Graph<(), u64, Directed, u32>)
    requires
        nodes <= u32::MAX,
        edges <= u32::MAX,
    ensures
        graph_order(g) == 0,
        graph_arcs(g) == Seq::<(usize, usize, u64)>::empty(),
{
    Graph::with_capacity(nodes, edges)
}

/// `Graph::node_count`: the number of nodes.
#[verifier::external_body]
fn graph_node_count(g: &Graph<(), u64, Directed, u32>) -> (n: usize)
    ensures
        n == graph_order(*g),
{
    g.node_count()
}

/// `Graph::edge_count`: the number of edges.
#[verifier::external_body]
fn graph_edge_count(g: &Graph<(), u64, Directed, u32>) -> (n: usize)
    ensures
        n == graph_arcs(*g).len(),
{
    g.edge_count()
}

/// `Graph::add_node`: appends one node, which gets the next free index, and
/// leaves the edges alone. It panics once the `u32` indices are used up.
#[verifier::external_body]
fn graph_add_node(g: &mut Graph<(), u64, Directed, u32>) -> (slot: usize)
    requires
        graph_order(*old(g)) < u32::MAX,
    ensures
        graph_order(*final(g)) == graph_order(*old(g)) + 1,
        graph_arcs(*final(g)) == graph_arcs(*old(g)),
        slot == graph_order(*old(g)),
{
    g.add_node(()).index()
}

/// `Graph::add_edge`: appends one edge, which gets the next free edge index,
/// and leaves the nodes and the other edges alone. It panics where an endpoint
/// is no node of the graph, and once the `u32` indices are used up.
#[verifier::external_body]
fn graph_add_edge(g: &mut Graph<(), u64, Directed, u32>, a: usize, b: usize, weight: u64) -> (slot:
    usize)
    requires
        a < graph_order(*old(g)),
        b < graph_order(*old(g)),
        graph_order(*old(g)) <= u32::MAX,
        graph_arcs(*old(g)).len() < u32::MAX,
    ensures
        graph_order(*final(g)) == graph_order(*old(g)),
        graph_arcs(*final(g)) == graph_arcs(*old(g)).push((a, b, weight)),
        slot == graph_arcs(*old(g)).len(),
{
    g.add_edge(NodeIndex::new(a), NodeIndex::new(b), weight).index()
}

/// `Graph::edge_endpoints`: source and target of the edge with index `e`, and
/// `None` where the graph has no such edge.
#[verifier::external_body]
fn graph_edge_endpoints(g: &Graph<(), u64, Directed, u32>, e: usize) -> (ends: Option<
    (usize, usize),
>)
    requires
        e <= u32::MAX,
    ensures
        e < graph_arcs(*g).len() ==> ends == Some(
            (graph_arcs(*g)[e as int].0, graph_arcs(*g)[e as int].1),
        ),
        e >= graph_arcs(*g).len() ==> ends.is_none(),
{
    g.edge_endpoints(EdgeIndex::new(e)).map(|ends| (ends.0.index(), ends.1.index()))
}

/// `Graph::edge_weight`: the weight of the edge with index `e`, and `None`
/// where the graph has no such edge.
#[verifier::external_body]
fn graph_edge_weight(g: &Graph<(), u64, Directed, u32>, e: usize) -> (weight: Option<u64>)
    requires
        e <= u32::MAX,
    ensures
        e < graph_arcs(*g).len() ==> weight == Some(graph_arcs(*g)[e as int].2),
        e >= graph_arcs(*g).len() ==> weight.is_none(),
{
    g.edge_weight(EdgeIndex::new(e)).copied()
}

/// `Graph::edge_weight_mut`, written through: the edge with index `e` gets the
/// weight `weight`; nothing else changes.
#[verifier::external_body]
fn graph_set_edge_weight(g: &mut Graph<(), u64, Directed, u32>, e: usize, weight: u64)
    requires
        e < graph_arcs(*old(g)).len(),
        e <= u32::MAX,
    ensures
        graph_order(*final(g)) == graph_order(*old(g)),
        graph_arcs(*final(g)) == graph_arcs(*old(g)).update(
            e as int,
            (graph_arcs(*old(g))[e as int].0, graph_arcs(*old(g))[e as int].1, weight),
        ),
{
    *g.edge_weight_mut(EdgeIndex::new(e)).unwrap() = weight;
}

/// `Graph::find_edge`: the index of an edge from `a` to `b`, and `None` where
/// the graph has no such edge. Which one it is where several run from `a` to
/// `b` is left open.
#[verifier::external_body]
fn graph_find_edge(g: &Graph<(), u64, Directed, u32>, a: usize, b: usize) -> (found: Option<usize>)
    requires
        a <= u32::MAX,
        b <= u32::MAX,
    ensures
        match found {
            Some(e) => e < graph_arcs(*g).len() && graph_arcs(*g)[e as int].0 == a && graph_arcs(
                *g,
            )[e as int].1 == b,
            None => forall|e: int|
                0 <= e < graph_arcs(*g).len() ==> !(#[trigger] graph_arcs(*g)[e].0 == a
                    && graph_arcs(*g)[e].1 == b),
        },
{
    g.find_edge(NodeIndex::new(a), NodeIndex::new(b)).map(|e| e.index())
}

/// `Graph::edges_directed` with `Outgoing`: the indices of the edges that
/// leave `a`, each of them once. The order is left open.
#[verifier::external_body]
fn graph_edges_from(g: &Graph<(), u64, Directed, u32>, a: usize) -> (out: Vec<usize>)
    requires
        a <= u32::MAX,
    ensures
        out@.no_duplicates(),
        forall|k: int|
            0 <= k < out@.len() ==> #[trigger] out@[k] < graph_arcs(*g).len() && graph_arcs(
                *g,
            )[out@[k] as int].0 == a,
        forall|e: int|
            0 <= e < graph_arcs(*g).len() && (#[trigger] graph_arcs(*g)[e]).0 == a
                ==> out@.contains(e as usize),
{
    g.edges_directed(NodeIndex::new(a), Direction::Outgoing).map(|e| e.id().index()).collect()
}

/// `Clone::clone` of a graph: the same nodes and edges under the same indices.
#[verifier::external_body]
fn graph_clone(g: &Graph<(), u64, Directed, u32>) -> (copy: Graph<(), u64, Directed, u32>)
    ensures
        graph_order(copy) == graph_order(*g),
        graph_arcs(copy) == graph_arcs(*g),
{
    g.clone()
}

/// A directed graph with integer weights on its arcs and a payload of type `N`
/// on each node. Nodes and arcs are numbered from 0 in the order in which they
/// were added, and none is ever removed.
pub struct Network<N> {
    payloads: Vec<N>,
    graph: Graph<(), u64, Directed, u32>,
}

/// What a network holds: the payload of each node and the arcs, each by its
/// number.
pub ghost struct NetworkView<N> {
    pub payloads: Seq<N>,
    pub arcs: Seq<Arc>,
}

/// The largest number of nodes, and of arcs, that a network can hold.
pub const INDEX_LIMIT: usize = 0xFFFF_FFFF;

impl<N> NetworkView<N> {
    /// The number of nodes.
    pub open spec fn order(self) -> nat {
        self.payloads.len()
    }

    /// Every arc runs between two nodes of the network, no two arcs run from
    /// the same node to the same node, and the numbers of nodes and arcs are
    /// within the limit.
    pub open spec fn well_formed(self) -> bool {
        &&& self.payloads.len() <= INDEX_LIMIT
        &&& self.arcs.len() <= INDEX_LIMIT
        &&& arcs_within(self.arcs, self.payloads.len())
        &&& arcs_distinct(self.arcs)
    }
}

/// Every arc of `arcs` runs between two of the nodes `0 .. order`.
pub open spec fn arcs_within(arcs: Seq<Arc>, order: nat) -> bool {
    forall|e: int| 0 <= e < arcs.len() ==> (#[trigger] arcs[e]).tail < order && arcs[e].head < order
}

/// No two arcs of `arcs` run from the same node to the same node.
pub open spec fn arcs_distinct(arcs: Seq<Arc>) -> bool {
    forall|e: int, f: int|
        0 <= e < arcs.len() && 0 <= f < arcs.len() && (#[trigger] arcs[e]).tail == (
        #[trigger] arcs[f]).tail && arcs[e].head == arcs[f].head ==> e == f
}

/// Some arc of `arcs` runs from `a` to `b`.
#[verifier::opaque]
pub open spec fn has_arc(arcs: Seq<Arc>, a: int, b: int) -> bool {
    exists|e: int| 0 <= e < arcs.len() && (#[trigger] arcs[e]).tail == a && arcs[e].head == b
}

/// An arc of `arcs` runs from its tail to its head.
pub proof fn lemma_has_arc(arcs: Seq<Arc>, e: int)
    requires
        0 <= e < arcs.len(),
    ensures
        has_arc(arcs, arcs[e].tail as int, arcs[e].head as int),
{
    reveal(has_arc);
}

/// The number of an arc from `a` to `b`, where there is one.
pub proof fn lemma_arc_between(arcs: Seq<Arc>, a: int, b: int) -> (e: int)
    requires
        has_arc(arcs, a, b),
    ensures
        0 <= e < arcs.len(),
        arcs[e].tail == a,
        arcs[e].head == b,
{
    reveal(has_arc);
    choose|e: int| 0 <= e < arcs.len() && (#[trigger] arcs[e]).tail == a && arcs[e].head == b
}

/// No arc of `arcs` runs from `a` to `b`, where none of them does.
pub proof fn lemma_no_arc(arcs: Seq<Arc>, a: int, b: int)
    requires
        forall|e: int| 0 <= e < arcs.len() ==> !((#[trigger] arcs[e]).tail == a && arcs[e].head
            == b),
    ensures
        !has_arc(arcs, a, b),
{
    reveal(has_arc);
}

/// Each payload of `to` is a clone of the payload of `from` in the same place.
pub open spec fn payloads_cloned<N: Clone>(from: Seq<N>, to: Seq<N>) -> bool {
    &&& from.len() == to.len()
    &&& forall|i: int| 0 <= i < from.len() ==> cloned::<N>(#[trigger] from[i], to[i])
}

/// The arc that an edge of the graph stands for.
spec fn arc_of(t: (usize, usize, u64)) -> Arc {
    Arc { tail: t.0, head: t.1, weight: t.2 }
}

impl<N> View for Network<N> {
    type V = NetworkView<N>;

    closed spec fn view(&self) -> NetworkView<N> {
        NetworkView {
            payloads: self.payloads@,
            arcs: graph_arcs(self.graph).map_values(|t: (usize, usize, u64)| arc_of(t)),
        }
    }
}

impl<N> Network<N> {
    /// The payloads and the graph describe the same nodes.
    pub closed spec fn consistent(&self) -> bool {
        self.payloads@.len() == graph_order(self.graph)
    }

    /// The invariant of a network.
    pub open spec fn wf(&self) -> bool {
        self.consistent() && self@.well_formed()
    }

    /// A network without nodes.
    pub fn new() -> (net: Self)
        ensures
            net.wf(),
            net@.payloads.len() == 0,
            net@.arcs.len() == 0,
    {
        Network { payloads: Vec::new(), graph: graph_with_capacity(0, 0) }
    }

    /// A network without nodes, with room for `nodes` nodes and `edges` arcs.
    pub fn with_capacity(nodes: usize, edges: usize) -> (net: Self)
        requires
            nodes <= INDEX_LIMIT,
            edges <= INDEX_LIMIT,
        ensures
            net.wf(),
            net@.payloads.len() == 0,
            net@.arcs.len() == 0,
    {
        Network { payloads: Vec::with_capacity(nodes), graph: graph_with_capacity(nodes, edges) }
    }

    /// The number of nodes.
    pub fn node_count(&self) -> (n: usize)
        requires
            self.wf(),
        ensures
            n == self@.order(),
    {
        graph_node_count(&self.graph)
    }

    /// The number of arcs.
    pub fn edge_count(&self) -> (n: usize)
        ensures
            n == self@.arcs.len(),
    {
        graph_edge_count(&self.graph)
    }

    /// Adds a node that carries `payload`, and returns its number.
    pub fn add_node(&mut self, payload: N) -> (node: usize)
        requires
            old(self).wf(),
            old(self)@.payloads.len() < INDEX_LIMIT,
        ensures
            final(self).wf(),
            final(self)@.payloads == old(self)@.payloads.push(payload),
            final(self)@.arcs == old(self)@.arcs,
            node == old(self)@.payloads.len(),
    {
        self.payloads.push(payload);
        graph_add_node(&mut self.graph)
    }

    /// Adds an arc from `a` to `b` with the weight `weight`, and returns its
    /// number.
    pub fn add_edge(&mut self, a: usize, b: usize, weight: u64) -> (arc: usize)
        requires
            old(self).wf(),
            a < old(self)@.payloads.len(),
            b < old(self)@.payloads.len(),
            old(self)@.arcs.len() < INDEX_LIMIT,
            !has_arc(old(self)@.arcs, a as int, b as int),
        ensures
            final(self).wf(),
            final(self)@.payloads == old(self)@.payloads,
            final(self)@.arcs == old(self)@.arcs.push(Arc { tail: a, head: b, weight }),
            arc == old(self)@.arcs.len(),
    {
        proof {
            reveal(has_arc);
        }
        let arc = graph_add_edge(&mut self.graph, a, b, weight);
        proof {
            assert(final(self)@.arcs =~= old(self)@.arcs.push(Arc { tail: a, head: b, weight }));
        }
        arc
    }

    /// The payload of node `a`, if the network has such a node.
    pub fn node_weight(&self, a: usize) -> (payload: Option<&N>)
        ensures
            a < self@.payloads.len() ==> payload == Some(&self@.payloads[a as int]),
            a >= self@.payloads.len() ==> payload.is_none(),
    {
        if a < self.payloads.len() {
            Some(&self.payloads[a])
        } else {
            None
        }
    }

    /// The arc with the number `e`, if the network has such an arc.
    pub fn edge(&self, e: usize) -> (arc: Option<Arc>)
        requires
            self.wf(),
        ensures
            e < self@.arcs.len() ==> arc == Some(self@.arcs[e as int]),
            e >= self@.arcs.len() ==> arc.is_none(),
    {
        if e > INDEX_LIMIT {
            return None;
        }
        let ends = graph_edge_endpoints(&self.graph, e);
        let weight = graph_edge_weight(&self.graph, e);
        match (ends, weight) {
            (Some(ends), Some(weight)) => Some(Arc { tail: ends.0, head: ends.1, weight }),
            _ => None,
        }
    }

    /// The number of an arc from `a` to `b`, if the network has one.
    pub fn find_edge(&self, a: usize, b: usize) -> (found: Option<usize>)
        requires
            self.wf(),
        ensures
            match found {
                Some(e) => e < self@.arcs.len() && self@.arcs[e as int].tail == a
                    && self@.arcs[e as int].head == b,
                None => !has_arc(self@.arcs, a as int, b as int),
            },
    {
        if a > INDEX_LIMIT || b > INDEX_LIMIT {
            proof {
                lemma_no_arc(self@.arcs, a as int, b as int);
            }
            return None;
        }
        let found = graph_find_edge(&self.graph, a, b);
        proof {
            if found.is_none() {
                assert forall|e: int| 0 <= e < self@.arcs.len() implies !((
                #[trigger] self@.arcs[e]).tail == a && self@.arcs[e].head == b) by {
                    let t = graph_arcs(self.graph)[e];
                    assert(self@.arcs[e] == arc_of(t));
                }
                lemma_no_arc(self@.arcs, a as int, b as int);
            }
        }
        found
    }

    /// The numbers of the arcs that leave `a`, each of them once.
    pub fn edges_from(&self, a: usize) -> (out: Vec<usize>)
        requires
            self.wf(),
        ensures
            out@.no_duplicates(),
            forall|k: int|
                0 <= k < out@.len() ==> #[trigger] out@[k] < self@.arcs.len()
                    && self@.arcs[out@[k] as int].tail == a,
            forall|e: int|
                0 <= e < self@.arcs.len() && (#[trigger] self@.arcs[e]).tail == a
                    ==> out@.contains(e as usize),
    {
        if a > INDEX_LIMIT {
            return Vec::new();
        }
        let out = graph_edges_from(&self.graph, a);
        proof {
            assert forall|e: int|
                0 <= e < self@.arcs.len() && (#[trigger] self@.arcs[e]).tail == a
                    implies out@.contains(
                e as usize,
            ) by {
                let t = graph_arcs(self.graph)[e];
                assert(self@.arcs[e] == arc_of(t));
            }
        }
        out
    }

    /// Gives the arc with the number `e` the weight `weight`.
    pub fn set_edge_weight(&mut self, e: usize, weight: u64)
        requires
            old(self).wf(),
            e < old(self)@.arcs.len(),
        ensures
            final(self).wf(),
            final(self)@.payloads == old(self)@.payloads,
            final(self)@.arcs == old(self)@.arcs.update(
                e as int,
                Arc { tail: old(self)@.arcs[e as int].tail, head: old(self)@.arcs[e as int].head,
                    weight },
            ),
    {
        graph_set_edge_weight(&mut self.graph, e, weight);
        proof {
            assert(final(self)@.arcs =~= old(self)@.arcs.update(
                e as int,
                Arc {
                    tail: old(self)@.arcs[e as int].tail,
                    head: old(self)@.arcs[e as int].head,
                    weight,
                },
            ));
        }
    }
}

impl<N: Clone> Clone for Network<N> {
    /// A network with the same arcs, whose payloads are clones of this one's.
    fn clone(&self) -> (copy: Self)
        ensures
            self.wf() ==> copy.wf(),
            payloads_cloned(self@.payloads, copy@.payloads),
            copy@.arcs == self@.arcs,
    {
        let payloads = self.payloads.clone();
        let graph = graph_clone(&self.graph);
        Network { payloads, graph }
    }
}

} // verus!
