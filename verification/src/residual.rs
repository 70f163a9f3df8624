//! Residual networks: how one is made from a capacity network, and how the
//! flow is read off it.

use crate::error::FlowError;
use crate::network::{
    arcs_distinct, has_arc, lemma_has_arc, payloads_cloned, Arc, Network, INDEX_LIMIT,
};
use vstd::prelude::*;

verus! {

/// Some arc of `arcs` has its reverse in `arcs` too. An arc from a node to
/// itself is its own reverse.
pub open spec fn has_opposite_arcs(arcs: Seq<Arc>) -> bool {
    exists|e: int|
        0 <= e < arcs.len() && has_arc(arcs, (#[trigger] arcs[e]).head as int, arcs[e].tail as int)
}

/// The reverse of `arc`, with the weight `weight`.
pub open spec fn reversed(arc: Arc, weight: u64) -> Arc {
    Arc { tail: arc.head, head: arc.tail, weight }
}

/// The arcs of the residual network of `capacities` before any flow: arc
/// `2 * i` is arc `i` of `capacities`, arc `2 * i + 1` its reverse with weight 0.
pub open spec fn residual_arcs(capacities: Seq<Arc>) -> Seq<Arc> {
    Seq::new(
        2 * capacities.len(),
        |k: int|
            if k % 2 == 0 {
                capacities[k / 2]
            } else {
                reversed(capacities[k / 2], 0)
            },
    )
}

/// The weight of the arc of `arcs` from `a` to `b`.
pub open spec fn arc_weight(arcs: Seq<Arc>, a: int, b: int) -> u64 {
    let e = choose|e: int| 0 <= e < arcs.len() && (#[trigger] arcs[e]).tail == a && arcs[e].head
        == b;
    arcs[e].weight
}

/// The flow that `residual` stands for on the arcs of `capacities`: on each arc
/// the weight of its reverse in `residual`.
pub open spec fn flow_arcs(capacities: Seq<Arc>, residual: Seq<Arc>) -> Seq<Arc> {
    Seq::new(
        capacities.len(),
        |i: int|
            Arc {
                tail: capacities[i].tail,
                head: capacities[i].head,
                weight: arc_weight(residual, capacities[i].head as int, capacities[i].tail as int),
            },
    )
}

/// `residual` holds the reverse of every arc of `capacities`.
pub open spec fn covers_reverses(capacities: Seq<Arc>, residual: Seq<Arc>) -> bool {
    forall|i: int|
        0 <= i < capacities.len() ==> has_arc(
            residual,
            (#[trigger] capacities[i]).head as int,
            capacities[i].tail as int,
        )
}

/// What holds of the arcs of a residual network: no arc runs from a node to
/// itself, every arc has its reverse, and the weights of an arc and its
/// reverse can be added.
pub open spec fn is_residual(arcs: Seq<Arc>) -> bool {
    &&& forall|e: int|
        0 <= e < arcs.len() ==> (#[trigger] arcs[e]).tail != arcs[e].head && has_arc(
            arcs,
            arcs[e].head as int,
            arcs[e].tail as int,
        )
    &&& forall|e: int, f: int|
        0 <= e < arcs.len() && 0 <= f < arcs.len() && are_opposite(
            #[trigger] arcs[e],
            #[trigger] arcs[f],
        ) ==> arcs[e].weight + arcs[f].weight <= u64::MAX
}

/// Each of the two arcs is the reverse of the other.
pub open spec fn are_opposite(a: Arc, b: Arc) -> bool {
    a.tail == b.head && a.head == b.tail
}

/// The two sequences hold the same arcs but for their weights.
pub open spec fn same_shape(a: Seq<Arc>, b: Seq<Arc>) -> bool {
    &&& a.len() == b.len()
    &&& forall|e: int|
        #![trigger a[e]]
        #![trigger b[e]]
        0 <= e < a.len() ==> a[e].tail == b[e].tail && a[e].head == b[e].head
}

/// Arc `i` of the capacities and its reverse stand at `2 * i` and `2 * i + 1`
/// in a residual network.
pub proof fn lemma_residual_pair(capacities: Seq<Arc>, residual: Seq<Arc>, i: int)
    requires
        same_shape(residual_arcs(capacities), residual),
        0 <= i < capacities.len(),
    ensures
        residual.len() == 2 * capacities.len(),
        residual[2 * i].tail == capacities[i].tail,
        residual[2 * i].head == capacities[i].head,
        residual[2 * i + 1].tail == capacities[i].head,
        residual[2 * i + 1].head == capacities[i].tail,
        are_opposite(residual[2 * i], residual[2 * i + 1]),
        residual_arcs(capacities)[2 * i] == capacities[i],
        residual_arcs(capacities)[2 * i + 1] == reversed(capacities[i], 0),
{
    let start = residual_arcs(capacities);
    assert((2 * i) % 2 == 0 && (2 * i) / 2 == i);
    assert((2 * i + 1) % 2 == 1 && (2 * i + 1) / 2 == i);
    assert(start[2 * i].tail == residual[2 * i].tail);
    assert(start[2 * i + 1].tail == residual[2 * i + 1].tail);
}

/// The residual arcs of capacities without opposite arcs are those of a
/// residual network, and no two of them run alike.
pub proof fn lemma_residual_arcs(capacities: Seq<Arc>)
    requires
        arcs_distinct(capacities),
        !has_opposite_arcs(capacities),
    ensures
        is_residual(residual_arcs(capacities)),
        arcs_distinct(residual_arcs(capacities)),
{
    let r = residual_arcs(capacities);
    assert forall|k: int, l: int|
        0 <= k < r.len() && 0 <= l < r.len() && (#[trigger] r[k]).tail == (#[trigger] r[l]).tail
            && r[k].head == r[l].head implies k == l by {
        lemma_residual_pair(capacities, r, k / 2);
        lemma_residual_pair(capacities, r, l / 2);
        if k % 2 != l % 2 {
            lemma_has_arc(capacities, k / 2);
            lemma_has_arc(capacities, l / 2);
        }
    }
    assert forall|k: int| 0 <= k < r.len() implies (#[trigger] r[k]).tail != r[k].head && has_arc(
        r,
        r[k].head as int,
        r[k].tail as int,
    ) by {
        let i = k / 2;
        lemma_residual_pair(capacities, r, i);
        if capacities[i].tail == capacities[i].head {
            lemma_has_arc(capacities, i);
        }
        if k % 2 == 0 {
            lemma_has_arc(r, k + 1);
        } else {
            lemma_has_arc(r, k - 1);
        }
    }
    assert forall|e: int, f: int|
        0 <= e < r.len() && 0 <= f < r.len() && are_opposite(
            #[trigger] r[e],
            #[trigger] r[f],
        ) implies r[e].weight + r[f].weight <= u64::MAX by {
        let partner = if e % 2 == 0 {
            e + 1
        } else {
            e - 1
        };
        lemma_residual_pair(capacities, r, e / 2);
        assert(r[partner].tail == r[f].tail && r[partner].head == r[f].head);
        assert(partner == f);
    }
}

/// The residual network of the capacity network `g`: the same nodes, and for
/// each arc of `g` the arc itself and its reverse with weight 0. A network that
/// holds an arc together with its reverse is refused.
pub fn residuals<N: Clone>(g: &Network<N>) -> (res: Result<Network<N>, FlowError>)
    requires
        g.wf(),
        2 * g@.arcs.len() <= INDEX_LIMIT,
    ensures
        match res {
            Ok(r) => {
                &&& !has_opposite_arcs(g@.arcs)
                &&& r.wf()
                &&& payloads_cloned(g@.payloads, r@.payloads)
                &&& r@.arcs == residual_arcs(g@.arcs)
                &&& is_residual(r@.arcs)
            },
            Err(e) => e == FlowError::MalformedInput && has_opposite_arcs(g@.arcs),
        },
{
    let nodes = g.node_count();
    let mut res = Network::with_capacity(nodes, g.edge_count());
    let mut n: usize = 0;
    while n < nodes
        invariant
            g.wf(),
            nodes == g@.payloads.len(),
            n <= nodes,
            res.wf(),
            res@.arcs.len() == 0,
            res@.payloads.len() == n,
            forall|i: int| 0 <= i < n ==> cloned::<N>(#[trigger] g@.payloads[i], res@.payloads[i]),
        decreases nodes - n,
    {
        let payload = g.node_weight(n).unwrap();
        res.add_node(payload.clone());
        n += 1;
    }
    let arcs = g.edge_count();
    let mut e: usize = 0;
    while e < arcs
        invariant
            g.wf(),
            2 * g@.arcs.len() <= INDEX_LIMIT,
            arcs == g@.arcs.len(),
            e <= arcs,
            res.wf(),
            payloads_cloned(g@.payloads, res@.payloads),
            res@.arcs == residual_arcs(g@.arcs.take(e as int)),
            forall|i: int|
                0 <= i < e ==> !has_arc(
                    g@.arcs,
                    (#[trigger] g@.arcs[i]).head as int,
                    g@.arcs[i].tail as int,
                ),
        decreases arcs - e,
    {
        let arc = g.edge(e).unwrap();
        if g.find_edge(arc.head, arc.tail).is_some() {
            proof {
                reveal(has_arc);
            }
            return Err(FlowError::MalformedInput);
        }
        proof {
            lemma_residual_lacks(g@.arcs, e as int, arc.tail as int, arc.head as int);
            lemma_residual_lacks(g@.arcs, e as int, arc.head as int, arc.tail as int);
        }
        res.add_edge(arc.tail, arc.head, arc.weight);
        res.add_edge(arc.head, arc.tail, 0);
        proof {
            assert(res@.arcs =~= residual_arcs(g@.arcs.take(e as int + 1)));
        }
        e += 1;
    }
    proof {
        assert(g@.arcs.take(arcs as int) =~= g@.arcs);
        lemma_residual_arcs(g@.arcs);
    }
    Ok(res)
}

/// Whether `r` has the arcs of a residual network: no arc from a node to
/// itself, with every arc its reverse, and no arc that weighs more together
/// with its reverse than a weight can hold.
pub fn is_residual_network<N>(r: &Network<N>) -> (ok: bool)
    requires
        r.wf(),
    ensures
        ok == is_residual(r@.arcs),
{
    let arcs = r.edge_count();
    let mut e: usize = 0;
    while e < arcs
        invariant
            r.wf(),
            arcs == r@.arcs.len(),
            e <= arcs,
            forall|i: int|
                0 <= i < e ==> (#[trigger] r@.arcs[i]).tail != r@.arcs[i].head && has_arc(
                    r@.arcs,
                    r@.arcs[i].head as int,
                    r@.arcs[i].tail as int,
                ),
            forall|i: int, f: int|
                0 <= i < e && 0 <= f < arcs && are_opposite(
                    #[trigger] r@.arcs[i],
                    #[trigger] r@.arcs[f],
                ) ==> r@.arcs[i].weight + r@.arcs[f].weight <= u64::MAX,
        decreases arcs - e,
    {
        let arc = r.edge(e).unwrap();
        if arc.tail == arc.head {
            return false;
        }
        match r.find_edge(arc.head, arc.tail) {
            Some(m) => {
                let back = r.edge(m).unwrap();
                if arc.weight > u64::MAX - back.weight {
                    proof {
                        assert(are_opposite(r@.arcs[e as int], r@.arcs[m as int]));
                    }
                    return false;
                }
                proof {
                    lemma_has_arc(r@.arcs, m as int);
                    assert forall|f: int|
                        0 <= f < arcs && are_opposite(
                            r@.arcs[e as int],
                            #[trigger] r@.arcs[f],
                        ) implies r@.arcs[e as int].weight + r@.arcs[f].weight <= u64::MAX by {
                        assert(r@.arcs[f].tail == r@.arcs[m as int].tail);
                        assert(f == m);
                    }
                }
            },
            None => {
                return false;
            },
        }
        e += 1;
    }
    true
}

/// Where no two arcs run alike, the weight of the arc between the ends of an
/// arc is that arc's weight.
pub proof fn lemma_arc_weight(arcs: Seq<Arc>, e: int)
    requires
        arcs_distinct(arcs),
        0 <= e < arcs.len(),
    ensures
        arc_weight(arcs, arcs[e].tail as int, arcs[e].head as int) == arcs[e].weight,
{
    let a = arcs[e].tail as int;
    let b = arcs[e].head as int;
    let f = choose|f: int| 0 <= f < arcs.len() && (#[trigger] arcs[f]).tail == a && arcs[f].head
        == b;
    assert(arcs[f].tail == arcs[e].tail && arcs[f].head == arcs[e].head);
}

/// The flow that the residual network `r` stands for on the capacity network
/// `g`: a network like `g` in which each arc weighs what its reverse weighs in
/// `r`. Where `r` lacks the reverse of an arc of `g`, the two are refused.
pub fn flow_from_residuals<N: Clone>(g: &Network<N>, r: &Network<N>) -> (res: Result<
    Network<N>,
    FlowError,
>)
    requires
        g.wf(),
        r.wf(),
    ensures
        match res {
            Ok(f) => {
                &&& covers_reverses(g@.arcs, r@.arcs)
                &&& f.wf()
                &&& payloads_cloned(g@.payloads, f@.payloads)
                &&& f@.arcs == flow_arcs(g@.arcs, r@.arcs)
            },
            Err(e) => e == FlowError::ContractViolation && !covers_reverses(g@.arcs, r@.arcs),
        },
{
    let mut f = g.clone();
    let arcs = g.edge_count();
    let mut e: usize = 0;
    while e < arcs
        invariant
            g.wf(),
            r.wf(),
            f.wf(),
            arcs == g@.arcs.len(),
            e <= arcs,
            payloads_cloned(g@.payloads, f@.payloads),
            f@.arcs.len() == arcs,
            forall|i: int| 0 <= i < e ==> #[trigger] f@.arcs[i] == flow_arcs(g@.arcs, r@.arcs)[i],
            forall|i: int| e <= i < arcs ==> #[trigger] f@.arcs[i] == g@.arcs[i],
            forall|i: int|
                0 <= i < e ==> has_arc(
                    r@.arcs,
                    (#[trigger] g@.arcs[i]).head as int,
                    g@.arcs[i].tail as int,
                ),
        decreases arcs - e,
    {
        let arc = f.edge(e).unwrap();
        match r.find_edge(arc.head, arc.tail) {
            Some(m) => {
                let back = r.edge(m).unwrap();
                proof {
                    lemma_arc_weight(r@.arcs, m as int);
                    lemma_has_arc(r@.arcs, m as int);
                }
                f.set_edge_weight(e, back.weight);
            },
            None => {
                return Err(FlowError::ContractViolation);
            },
        }
        e += 1;
    }
    proof {
        assert(f@.arcs =~= flow_arcs(g@.arcs, r@.arcs));
    }
    Ok(f)
}

/// The first `done` arcs of `capacities` being without opposite arcs among all
/// of `capacities`, their residual arcs hold no arc from `a` to `b` where `a`,
/// `b` are the ends of a later arc in either direction.
proof fn lemma_residual_lacks(capacities: Seq<Arc>, done: int, a: int, b: int)
    requires
        0 <= done < capacities.len(),
        arcs_distinct(capacities),
        !has_arc(capacities, capacities[done].head as int, capacities[done].tail as int),
        forall|i: int|
            0 <= i < done ==> !has_arc(
                capacities,
                (#[trigger] capacities[i]).head as int,
                capacities[i].tail as int,
            ),
        (a == capacities[done].tail && b == capacities[done].head) || (a == capacities[done].head
            && b == capacities[done].tail),
    ensures
        !has_arc(residual_arcs(capacities.take(done)), a, b),
        a == capacities[done].head ==> !has_arc(
            residual_arcs(capacities.take(done)).push(capacities[done]),
            a,
            b,
        ),
{
    reveal(has_arc);
    let r = residual_arcs(capacities.take(done));
    assert forall|k: int| 0 <= k < r.len() implies !((#[trigger] r[k]).tail == a && r[k].head
        == b) by {
        let i = k / 2;
        assert(capacities.take(done)[i] == capacities[i]);
        let x = capacities[i];
        let y = capacities[done];
        if r[k].tail == a && r[k].head == b {
            if k % 2 == 0 {
                if a == y.tail && b == y.head {
                    assert(i == done);
                } else {
                    assert(has_arc(capacities, y.head as int, y.tail as int));
                }
            } else {
                if a == y.tail && b == y.head {
                    assert(has_arc(capacities, x.head as int, x.tail as int));
                } else {
                    assert(i == done);
                }
            }
        }
    }
    if a == capacities[done].head {
        let y = capacities[done];
        let r2 = r.push(y);
        assert forall|k: int| 0 <= k < r2.len() implies !((#[trigger] r2[k]).tail == a && r2[k].head
            == b) by {
            if k < r.len() {
                assert(r2[k] == r[k]);
            } else {
                if r2[k].tail == a && r2[k].head == b {
                    assert(has_arc(capacities, y.head as int, y.tail as int));
                }
            }
        }
    }
}

} // verus!
