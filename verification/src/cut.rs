//! The source side of a cut: the nodes that the source still reaches in a
//! residual network.

use crate::network::{Arc, Network};
use crate::search::{breadth_first, lemma_tree_reaches};
use crate::walk::reachable;
use vstd::prelude::*;

verus! {

/// The nodes among `0 .. order` that can be reached from the node `src` along
/// arcs of positive weight; `src` itself is one of them.
pub open spec fn source_side(arcs: Seq<Arc>, order: nat, src: int) -> Set<int> {
    Set::new(|v: int| 0 <= v < order && 0 <= src < order && reachable(arcs, src, v))
}

/// The members of `nodes` below `bound`, in rising order.
pub open spec fn members_below(nodes: Set<int>, bound: int) -> Seq<int>
    decreases bound,
{
    if bound <= 0 {
        Seq::empty()
    } else if nodes.contains(bound - 1) {
        members_below(nodes, bound - 1).push(bound - 1)
    } else {
        members_below(nodes, bound - 1)
    }
}

/// `listed` holds a clone of the payload of each node of `nodes`, in the same
/// order.
pub open spec fn lists_payloads<N: Clone>(
    payloads: Seq<N>,
    nodes: Seq<int>,
    listed: Seq<N>,
) -> bool {
    &&& listed.len() == nodes.len()
    &&& forall|i: int|
        0 <= i < nodes.len() ==> 0 <= #[trigger] nodes[i] < payloads.len() && cloned::<N>(
            payloads[nodes[i]],
            listed[i],
        )
}

/// `one` and `other` are clones of the payload of the same node.
pub open spec fn same_origin<N: Clone>(payloads: Seq<N>, one: N, other: N) -> bool {
    exists|v: int|
        0 <= v < payloads.len() && cloned::<N>(#[trigger] payloads[v], one) && cloned::<N>(
            payloads[v],
            other,
        )
}

/// Two listings of the source side of one residual network have the same
/// length, and in each place both hold a clone of the payload of the same
/// node.
pub proof fn lemma_cut_repeatable<N: Clone>(
    payloads: Seq<N>,
    arcs: Seq<Arc>,
    src: int,
    first: Seq<N>,
    second: Seq<N>,
)
    requires
        lists_payloads(
            payloads,
            members_below(source_side(arcs, payloads.len(), src), payloads.len() as int),
            first,
        ),
        lists_payloads(
            payloads,
            members_below(source_side(arcs, payloads.len(), src), payloads.len() as int),
            second,
        ),
    ensures
        first.len() == second.len(),
        forall|i: int|
            0 <= i < first.len() ==> #[trigger] same_origin(payloads, first[i], second[i]),
{
    let nodes = members_below(source_side(arcs, payloads.len(), src), payloads.len() as int);
    assert forall|i: int| 0 <= i < first.len() implies #[trigger] same_origin(
        payloads,
        first[i],
        second[i],
    ) by {
        let v = nodes[i];
        assert(cloned::<N>(payloads[v], first[i]) && cloned::<N>(payloads[v], second[i]));
    }
}

/// The payloads of the nodes that `src` reaches in the residual network `r`
/// along arcs of positive weight, in the order of the nodes' numbers. The
/// payload of `src` is among them.
pub fn cut_from_residual<N: Clone>(r: &Network<N>, src: usize) -> (cut: Vec<N>)
    requires
        r.wf(),
    ensures
        lists_payloads(
            r@.payloads,
            members_below(
                source_side(r@.arcs, r@.payloads.len(), src as int),
                r@.payloads.len() as int,
            ),
            cut@,
        ),
{
    let tree = breadth_first(r, src);
    let n = r.node_count();
    let ghost side = source_side(r@.arcs, r@.payloads.len(), src as int);
    let mut cut: Vec<N> = Vec::new();
    let mut v: usize = 0;
    while v < n
        invariant
            r.wf(),
            n == r@.payloads.len(),
            v <= n,
            side == source_side(r@.arcs, r@.payloads.len(), src as int),
            tree.rooted(r@.arcs, n as nat, src as int),
            tree.closed(r@.arcs),
            lists_payloads(r@.payloads, members_below(side, v as int), cut@),
        decreases n - v,
    {
        proof {
            lemma_tree_reaches(tree, r@.arcs, n as nat, src as int, v as int);
        }
        if tree.visited[v] {
            let payload = r.node_weight(v).unwrap();
            cut.push(payload.clone());
        }
        v += 1;
    }
    cut
}

} // verus!
