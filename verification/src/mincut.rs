//! The minimum cut between two nodes, by pushing flow along shortest
//! augmenting paths until none is left.

use crate::augment::{find_augmenting_path, is_augmentation};
use crate::cut::{cut_from_residual, lists_payloads, members_below, source_side};
use crate::duality::{
    carries_flow, is_exhausted, is_minimum_cut, lemma_augmentation_carries, lemma_minimum_side,
    lemma_residual_carries, minimum_side,
};
use crate::error::FlowError;
use crate::network::{payloads_cloned, Network, NetworkView, INDEX_LIMIT};
use crate::residual::{has_opposite_arcs, is_residual, residuals};
use crate::walk::{is_walk, reachable};
use crate::weight::{lemma_total_weight_nonnegative, leaving, out_weight};
use vstd::prelude::*;

verus! {

/// The payloads of the nodes on the source side of a minimum cut between
/// `src` and `dst` in the capacity network `g`, in the order of the nodes'
/// numbers. Flow is pushed from `src` to `dst` along one augmenting path after
/// another until none is left; the nodes that `src` then still reaches are
/// the source side. A network that holds an arc together with its reverse is
/// refused.
pub fn min_cut<N: Clone>(g: &Network<N>, src: usize, dst: usize) -> (res: Result<Vec<N>, FlowError>)
    requires
        g.wf(),
        2 * g@.arcs.len() <= INDEX_LIMIT,
        src != dst,
    ensures
        match res {
            Ok(cut) => {
                let order = g@.payloads.len();
                let side = minimum_side(g@.arcs, order, src as int, dst as int);
                &&& !has_opposite_arcs(g@.arcs)
                &&& is_minimum_cut(g@.arcs, order, src as int, dst as int, side)
                &&& exists|r: NetworkView<N>|
                    {
                        &&& payloads_cloned(g@.payloads, r.payloads)
                        &&& is_exhausted(g@.arcs, r.arcs, src as int, dst as int)
                        &&& lists_payloads(r.payloads, members_below(side, order as int), cut@)
                    }
            },
            Err(e) => e == FlowError::MalformedInput && has_opposite_arcs(g@.arcs),
        },
{
    let mut r = match residuals(g) {
        Ok(r) => r,
        Err(e) => {
            return Err(e);
        },
    };
    proof {
        lemma_residual_carries(g@.arcs, src as int, dst as int);
        lemma_total_weight_nonnegative(r@.arcs, leaving(src as int));
    }
    let mut more = true;
    while more
        invariant
            src != dst,
            r.wf(),
            is_residual(r@.arcs),
            payloads_cloned(g@.payloads, r@.payloads),
            carries_flow(g@.arcs, r@.arcs, src as int, dst as int),
            !more ==> !reachable(r@.arcs, src as int, dst as int),
            out_weight(r@.arcs, src as int) >= 0,
        decreases out_weight(r@.arcs, src as int) + (if more { 1int } else { 0int }),
    {
        let ghost before = r@.arcs;
        more = find_augmenting_path(&mut r, src, dst);
        proof {
            lemma_total_weight_nonnegative(r@.arcs, leaving(src as int));
            if more {
                let (walk, amount): (Seq<int>, int) = choose|walk: Seq<int>, amount: int|
                    amount >= 1 && is_augmentation(
                        before,
                        r@.arcs,
                        src as int,
                        dst as int,
                        walk,
                        amount,
                    );
                assert(is_walk(before, walk, src as int, dst as int));
                lemma_augmentation_carries(
                    g@.arcs,
                    before,
                    r@.arcs,
                    src as int,
                    dst as int,
                    walk,
                    amount,
                );
            }
        }
    }
    let cut = cut_from_residual(&r, src);
    proof {
        assert(r@.payloads.len() == g@.payloads.len());
        lemma_minimum_side(g@.arcs, r@.arcs, g@.payloads.len(), src as int, dst as int);
    }
    Ok(cut)
}

} // verus!
