//! Flows and cuts: what a residual network says of the flow that it carries,
//! and why that flow is as large as the smallest cut.

use crate::augment::{augmented, lemma_augmented_keeps_sums, shifted};
use crate::cut::source_side;
use crate::network::{arcs_distinct, arcs_within, Arc};
use crate::residual::{
    flow_arcs, lemma_arc_weight, lemma_residual_pair, residual_arcs, same_shape,
};
use crate::walk::{is_walk, lemma_walk_push, lemma_walk_stays, reachable};
use crate::weight::{
    lemma_total_weight_agree, lemma_total_weight_last_two, lemma_total_weight_nonnegative,
    lemma_total_weight_split, lemma_total_weight_zero, lemma_total_weight_zero_each, leaving,
    net_outflow, out_weight, total_weight,
};
use vstd::prelude::*;

verus! {

/// What is left on arc `i` of the capacities: the weight of the arc itself in
/// the residual network.
pub open spec fn slack_on(residual: Seq<Arc>, i: int) -> int {
    residual[2 * i].weight as int
}

/// The flow on arc `i` of the capacities: the weight of its reverse in the
/// residual network.
pub open spec fn flow_on(residual: Seq<Arc>, i: int) -> int {
    residual[2 * i + 1].weight as int
}

/// `residual` has the arcs of `capacities` and their reverses, and on each arc
/// of `capacities` slack and flow make up the capacity.
pub open spec fn fits(capacities: Seq<Arc>, residual: Seq<Arc>) -> bool {
    &&& same_shape(residual_arcs(capacities), residual)
    &&& forall|i: int|
        0 <= i < capacities.len() ==> slack_on(residual, i) + flow_on(residual, i)
            == (#[trigger] capacities[i]).weight
}

/// `residual` is a residual network of `capacities` with a flow from `src` to
/// `dst`: it has the arcs of `capacities` and their reverses, on each arc flow
/// and slack make up the capacity, and but for `src` and `dst` each node
/// passes on what it gets.
pub open spec fn carries_flow(
    capacities: Seq<Arc>,
    residual: Seq<Arc>,
    src: int,
    dst: int,
) -> bool {
    &&& fits(capacities, residual)
    &&& forall|v: int|
        v != src && v != dst ==> #[trigger] out_weight(residual, v) == out_weight(
            residual_arcs(capacities),
            v,
        )
}

/// The value of the flow in `residual`: what has left `src` and not come back.
pub open spec fn flow_value(capacities: Seq<Arc>, residual: Seq<Arc>, src: int) -> int {
    out_weight(residual_arcs(capacities), src) - out_weight(residual, src)
}

/// A residual network without flow carries the flow zero.
pub proof fn lemma_residual_carries(capacities: Seq<Arc>, src: int, dst: int)
    ensures
        carries_flow(capacities, residual_arcs(capacities), src, dst),
        flow_value(capacities, residual_arcs(capacities), src) == 0,
{
}

/// Pushing flow along a walk from `src` to `dst` leaves a residual network
/// that carries a flow, of a value that is larger by what was pushed.
pub proof fn lemma_augmentation_carries(
    capacities: Seq<Arc>,
    before: Seq<Arc>,
    after: Seq<Arc>,
    src: int,
    dst: int,
    walk: Seq<int>,
    amount: int,
)
    requires
        arcs_distinct(before),
        carries_flow(capacities, before, src, dst),
        forall|i: int| 0 <= i < walk.len() ==> 0 <= #[trigger] walk[i] < before.len(),
        augmented(before, after, walk, amount),
        shifted(before, after, src, dst, amount),
        src != dst,
    ensures
        carries_flow(capacities, after, src, dst),
        flow_value(capacities, after, src) == flow_value(capacities, before, src) + amount,
{
    let start = residual_arcs(capacities);
    assert(same_shape(start, after));
    assert forall|i: int| 0 <= i < capacities.len() implies slack_on(after, i) + flow_on(after, i)
        == (#[trigger] capacities[i]).weight by {
        lemma_residual_pair(capacities, before, i);
        lemma_augmented_keeps_sums(before, after, walk, amount, 2 * i, 2 * i + 1);
    }
    assert forall|v: int| v != src && v != dst implies #[trigger] out_weight(after, v)
        == out_weight(
        start,
        v,
    ) by {
        assert(out_weight(before, v) == out_weight(start, v));
    }
    assert(out_weight(after, src) == out_weight(before, src) - amount);
}

/// Accepts the arcs that lead out of `side`.
pub open spec fn crossing(side: Set<int>) -> spec_fn(int, int) -> bool {
    |tail: int, head: int| side.contains(tail) && !side.contains(head)
}

/// Accepts the arcs that run inside `side`.
pub open spec fn within(side: Set<int>) -> spec_fn(int, int) -> bool {
    |tail: int, head: int| side.contains(tail) && side.contains(head)
}

/// Accepts the arcs that leave a node of `side`.
pub open spec fn from_side(side: Set<int>) -> spec_fn(int, int) -> bool {
    |tail: int, head: int| side.contains(tail)
}

/// The nodes of `side` among `0 .. bound`.
pub open spec fn below(side: Set<int>, bound: int) -> Set<int> {
    Set::new(|v: int| 0 <= v < bound && side.contains(v))
}

/// The capacity of the cut with the source side `side`: the sum of the
/// capacities of the arcs that lead out of `side`.
pub open spec fn cut_capacity(capacities: Seq<Arc>, side: Set<int>) -> int {
    total_weight(capacities, crossing(side))
}

/// `side` is the source side of a cut between `src` and `dst` of the least
/// capacity that such a cut can have.
pub open spec fn is_minimum_cut(
    capacities: Seq<Arc>,
    order: nat,
    src: int,
    dst: int,
    side: Set<int>,
) -> bool {
    &&& 0 <= src < order ==> side.contains(src)
    &&& !side.contains(dst)
    &&& forall|other: Set<int>|
        other.contains(src) && !other.contains(dst) ==> cut_capacity(capacities, side)
            <= #[trigger] cut_capacity(capacities, other)
}

/// A residual network without its last two arcs fits the capacities without
/// their last arc.
proof fn lemma_fits_prefix(capacities: Seq<Arc>, residual: Seq<Arc>)
    requires
        fits(capacities, residual),
        capacities.len() > 0,
    ensures
        residual.len() == 2 * capacities.len(),
        fits(capacities.drop_last(), residual.take(residual.len() - 2)),
        residual_arcs(capacities.drop_last()) == residual_arcs(capacities).take(
            residual.len() - 2,
        ),
{
    let fewer = capacities.drop_last();
    let shorter = residual.take(residual.len() - 2);
    assert(residual_arcs(fewer) =~= residual_arcs(capacities).take(residual.len() - 2));
    assert forall|i: int| 0 <= i < fewer.len() implies slack_on(shorter, i) + flow_on(shorter, i)
        == (#[trigger] fewer[i]).weight by {
        assert(capacities[i] == fewer[i]);
        assert(shorter[2 * i] == residual[2 * i]);
        assert(shorter[2 * i + 1] == residual[2 * i + 1]);
    }
}

/// The arcs inside a set of nodes weigh as much in a residual network as in
/// the capacities: what one arc of a pair loses the other gains.
proof fn lemma_within_kept(capacities: Seq<Arc>, residual: Seq<Arc>, side: Set<int>)
    requires
        fits(capacities, residual),
    ensures
        total_weight(residual, within(side)) == total_weight(capacities, within(side)),
    decreases capacities.len(),
{
    if capacities.len() > 0 {
        let last = capacities.len() - 1;
        lemma_fits_prefix(capacities, residual);
        lemma_within_kept(capacities.drop_last(), residual.take(residual.len() - 2), side);
        lemma_total_weight_last_two(residual, within(side));
        lemma_residual_pair(capacities, residual, last);
        assert(capacities[last].weight == slack_on(residual, last) + flow_on(residual, last));
        assert(capacities.last() == capacities[last]);
    } else {
        assert(residual.len() == 0);
    }
}

/// Before any flow, the arcs that lead out of a set of nodes weigh as much in
/// the residual network as in the capacities.
proof fn lemma_crossing_start(capacities: Seq<Arc>, side: Set<int>)
    ensures
        total_weight(residual_arcs(capacities), crossing(side)) == cut_capacity(capacities, side),
    decreases capacities.len(),
{
    let start = residual_arcs(capacities);
    if capacities.len() > 0 {
        let last = capacities.len() - 1;
        lemma_residual_carries(capacities, 0, 0);
        lemma_fits_prefix(capacities, start);
        lemma_crossing_start(capacities.drop_last(), side);
        lemma_total_weight_last_two(start, crossing(side));
        lemma_residual_pair(capacities, start, last);
        assert(capacities.last() == capacities[last]);
    } else {
        assert(start.len() == 0);
    }
}

/// No weight leaves what is no node of the network.
proof fn lemma_out_weight_outside(arcs: Seq<Arc>, order: nat, v: int)
    requires
        arcs_within(arcs, order),
        !(0 <= v < order),
    ensures
        out_weight(arcs, v) == 0,
{
    lemma_total_weight_zero(arcs, leaving(v));
}

/// The arcs of a residual network run between the nodes between which the
/// capacities run.
proof fn lemma_fits_within(capacities: Seq<Arc>, residual: Seq<Arc>, order: nat)
    requires
        fits(capacities, residual),
        arcs_within(capacities, order),
    ensures
        arcs_within(residual, order),
        arcs_within(residual_arcs(capacities), order),
{
    assert forall|k: int| 0 <= k < residual.len() implies (#[trigger] residual[k]).tail < order
        && residual[k].head < order by {
        lemma_residual_pair(capacities, residual, k / 2);
        assert(capacities[k / 2].tail < order);
    }
    lemma_residual_carries(capacities, 0, 0);
    let start = residual_arcs(capacities);
    assert forall|k: int| 0 <= k < start.len() implies (#[trigger] start[k]).tail < order
        && start[k].head < order by {
        lemma_residual_pair(capacities, start, k / 2);
        assert(capacities[k / 2].tail < order);
    }
}

/// Where every node but `src` and `dst` lets as much weight leave in `now` as
/// in `start`, the weight that leaves the nodes of `side` below `bound`, taken
/// together, differs by what leaves `src`, if `src` is among them, and is the
/// same otherwise.
proof fn lemma_side_value(
    start: Seq<Arc>,
    now: Seq<Arc>,
    src: int,
    dst: int,
    side: Set<int>,
    bound: int,
)
    requires
        forall|v: int|
            v != src && v != dst ==> #[trigger] out_weight(now, v) == out_weight(start, v),
        !side.contains(dst),
        0 <= bound,
    ensures
        total_weight(start, from_side(below(side, bound))) - total_weight(
            now,
            from_side(below(side, bound)),
        ) == if below(side, bound).contains(src) {
            out_weight(start, src) - out_weight(now, src)
        } else {
            0
        },
    decreases bound,
{
    let whole = from_side(below(side, bound));
    if bound == 0 {
        lemma_total_weight_zero(start, whole);
        lemma_total_weight_zero(now, whole);
    } else {
        let v = bound - 1;
        let before = from_side(below(side, v));
        let added = |tail: int, head: int| side.contains(v) && tail == v;
        lemma_side_value(start, now, src, dst, side, v);
        lemma_total_weight_split(start, whole, before, added);
        lemma_total_weight_split(now, whole, before, added);
        if side.contains(v) {
            lemma_total_weight_agree(start, added, leaving(v));
            lemma_total_weight_agree(now, added, leaving(v));
            if v != src {
                assert(out_weight(now, v) == out_weight(start, v));
            }
        } else {
            lemma_total_weight_zero(start, added);
            lemma_total_weight_zero(now, added);
        }
    }
}

/// The value of a flow is the capacity of any cut between `src` and `dst`,
/// less what is left on the arcs that lead out of the source side and what
/// flows back into it.
pub proof fn lemma_flow_across_cut(
    capacities: Seq<Arc>,
    residual: Seq<Arc>,
    order: nat,
    src: int,
    dst: int,
    side: Set<int>,
)
    requires
        arcs_within(capacities, order),
        carries_flow(capacities, residual, src, dst),
        side.contains(src) || !(0 <= src < order),
        !side.contains(dst),
    ensures
        flow_value(capacities, residual, src) == cut_capacity(capacities, side) - total_weight(
            residual,
            crossing(side),
        ),
        total_weight(residual, crossing(side)) >= 0,
{
    let start = residual_arcs(capacities);
    let inner = below(side, order as int);
    lemma_fits_within(capacities, residual, order);
    lemma_residual_carries(capacities, src, dst);
    lemma_side_value(start, residual, src, dst, side, order as int);
    if !(0 <= src < order) {
        lemma_out_weight_outside(start, order, src);
        lemma_out_weight_outside(residual, order, src);
    }
    // Only the nodes of the network count.
    lemma_total_weight_agree(start, from_side(inner), from_side(side));
    lemma_total_weight_agree(residual, from_side(inner), from_side(side));
    // What leaves the side stays inside it or leads out of it.
    lemma_total_weight_split(start, from_side(side), within(side), crossing(side));
    lemma_total_weight_split(residual, from_side(side), within(side), crossing(side));
    lemma_within_kept(capacities, start, side);
    lemma_within_kept(capacities, residual, side);
    lemma_crossing_start(capacities, side);
    lemma_total_weight_nonnegative(residual, crossing(side));
}

/// No residual weight is left on an arc that leads from a node that `src`
/// reaches to one that it does not reach.
pub proof fn lemma_source_side_closed(residual: Seq<Arc>, order: nat, src: int, e: int)
    requires
        arcs_within(residual, order),
        0 <= e < residual.len(),
        source_side(residual, order, src).contains(residual[e].tail as int),
        !source_side(residual, order, src).contains(residual[e].head as int),
    ensures
        residual[e].weight == 0,
{
    if residual[e].weight > 0 {
        let walk = choose|walk: Seq<int>| is_walk(residual, walk, src, residual[e].tail as int);
        lemma_walk_push(residual, walk, src, residual[e].tail as int, e);
    }
}

/// Once no augmenting path is left, the cut around the nodes that `src` still
/// reaches is saturated: an arc of the capacities that leads out of them
/// carries its whole capacity, and one that leads into them carries nothing.
pub proof fn lemma_cut_saturated(
    capacities: Seq<Arc>,
    residual: Seq<Arc>,
    order: nat,
    src: int,
    dst: int,
    i: int,
)
    requires
        arcs_within(capacities, order),
        carries_flow(capacities, residual, src, dst),
        0 <= i < capacities.len(),
    ensures
        ({
            let side = source_side(residual, order, src);
            let tail = capacities[i].tail as int;
            let head = capacities[i].head as int;
            &&& side.contains(tail) && !side.contains(head) ==> flow_on(residual, i)
                == capacities[i].weight
            &&& !side.contains(tail) && side.contains(head) ==> flow_on(residual, i) == 0
        }),
{
    let side = source_side(residual, order, src);
    lemma_fits_within(capacities, residual, order);
    lemma_residual_pair(capacities, residual, i);
    if side.contains(capacities[i].tail as int) && !side.contains(capacities[i].head as int) {
        lemma_source_side_closed(residual, order, src, 2 * i);
    }
    if !side.contains(capacities[i].tail as int) && side.contains(capacities[i].head as int) {
        lemma_source_side_closed(residual, order, src, 2 * i + 1);
    }
}

/// The value of a flow is at most the capacity of any cut between `src` and
/// `dst`.
pub proof fn lemma_flow_at_most_cut(
    capacities: Seq<Arc>,
    residual: Seq<Arc>,
    order: nat,
    src: int,
    dst: int,
    side: Set<int>,
)
    requires
        arcs_within(capacities, order),
        carries_flow(capacities, residual, src, dst),
        side.contains(src),
        !side.contains(dst),
    ensures
        flow_value(capacities, residual, src) <= cut_capacity(capacities, side),
{
    lemma_flow_across_cut(capacities, residual, order, src, dst, side);
}

/// Once no augmenting path is left, the value of the flow is the capacity of
/// the cut around the nodes that `src` still reaches, and no cut between
/// `src` and `dst` has a smaller capacity. So the value does not depend on
/// which augmenting paths were taken.
pub proof fn lemma_max_flow_min_cut(
    capacities: Seq<Arc>,
    residual: Seq<Arc>,
    order: nat,
    src: int,
    dst: int,
)
    requires
        arcs_within(capacities, order),
        carries_flow(capacities, residual, src, dst),
        !reachable(residual, src, dst),
    ensures
        flow_value(capacities, residual, src) == cut_capacity(
            capacities,
            source_side(residual, order, src),
        ),
        is_minimum_cut(capacities, order, src, dst, source_side(residual, order, src)),
{
    let side = source_side(residual, order, src);
    lemma_fits_within(capacities, residual, order);
    if 0 <= src < order {
        assert(is_walk(residual, Seq::<int>::empty(), src, src));
    }
    lemma_flow_across_cut(capacities, residual, order, src, dst, side);
    assert forall|e: int|
        0 <= e < residual.len() && crossing(side)(
            (#[trigger] residual[e]).tail as int,
            residual[e].head as int,
        ) implies residual[e].weight == 0 by {
        lemma_source_side_closed(residual, order, src, e);
    }
    lemma_total_weight_zero(residual, crossing(side));
    assert forall|other: Set<int>| other.contains(src) && !other.contains(dst) implies cut_capacity(
        capacities,
        side,
    ) <= #[trigger] cut_capacity(capacities, other) by {
        lemma_flow_at_most_cut(capacities, residual, order, src, dst, other);
    }
}

/// Whatever augmenting paths were taken, the flow has the same value once
/// none is left.
pub proof fn lemma_max_flow_unique(
    capacities: Seq<Arc>,
    one: Seq<Arc>,
    other: Seq<Arc>,
    order: nat,
    src: int,
    dst: int,
)
    requires
        arcs_within(capacities, order),
        carries_flow(capacities, one, src, dst),
        carries_flow(capacities, other, src, dst),
        !reachable(one, src, dst),
        !reachable(other, src, dst),
    ensures
        flow_value(capacities, one, src) == flow_value(capacities, other, src),
{
    lemma_max_flow_min_cut(capacities, one, order, src, dst);
    lemma_max_flow_min_cut(capacities, other, order, src, dst);
    lemma_flow_across_cut(capacities, one, order, src, dst, source_side(other, order, src));
    lemma_flow_across_cut(capacities, other, order, src, dst, source_side(one, order, src));
}

/// Whatever augmenting paths were taken, `src` reaches the same nodes once
/// none is left: the source side of the cut found does not depend on them.
pub proof fn lemma_source_side_unique(
    capacities: Seq<Arc>,
    one: Seq<Arc>,
    other: Seq<Arc>,
    order: nat,
    src: int,
    dst: int,
)
    requires
        arcs_within(capacities, order),
        carries_flow(capacities, one, src, dst),
        carries_flow(capacities, other, src, dst),
        !reachable(one, src, dst),
        !reachable(other, src, dst),
    ensures
        source_side(one, order, src) == source_side(other, order, src),
{
    lemma_source_side_within(capacities, one, other, order, src, dst);
    lemma_source_side_within(capacities, other, one, order, src, dst);
    assert(source_side(one, order, src) =~= source_side(other, order, src));
}

/// `residual` carries a flow from `src` to `dst` that no augmenting path can
/// make larger.
pub open spec fn is_exhausted(
    capacities: Seq<Arc>,
    residual: Seq<Arc>,
    src: int,
    dst: int,
) -> bool {
    carries_flow(capacities, residual, src, dst) && !reachable(residual, src, dst)
}

/// The source side of the minimum cut that lies closest to `src`: the nodes
/// that `src` reaches once flow has been pushed from `src` to `dst` until no
/// augmenting path is left.
pub open spec fn minimum_side(capacities: Seq<Arc>, order: nat, src: int, dst: int) -> Set<int> {
    source_side(
        choose|residual: Seq<Arc>| is_exhausted(capacities, residual, src, dst),
        order,
        src,
    )
}

/// In whatever residual network without an augmenting path, `src` reaches
/// the nodes of the minimum side, which is the source side of a minimum cut.
pub proof fn lemma_minimum_side(
    capacities: Seq<Arc>,
    residual: Seq<Arc>,
    order: nat,
    src: int,
    dst: int,
)
    requires
        arcs_within(capacities, order),
        is_exhausted(capacities, residual, src, dst),
    ensures
        source_side(residual, order, src) == minimum_side(capacities, order, src, dst),
        is_minimum_cut(capacities, order, src, dst, minimum_side(capacities, order, src, dst)),
        flow_value(capacities, residual, src) == cut_capacity(
            capacities,
            minimum_side(capacities, order, src, dst),
        ),
{
    let chosen = choose|chosen: Seq<Arc>| is_exhausted(capacities, chosen, src, dst);
    lemma_source_side_unique(capacities, residual, chosen, order, src, dst);
    lemma_max_flow_min_cut(capacities, residual, order, src, dst);
}

/// Of two residual networks without an augmenting path, `src` reaches in the
/// second no node that it does not reach in the first.
proof fn lemma_source_side_within(
    capacities: Seq<Arc>,
    one: Seq<Arc>,
    other: Seq<Arc>,
    order: nat,
    src: int,
    dst: int,
)
    requires
        arcs_within(capacities, order),
        carries_flow(capacities, one, src, dst),
        carries_flow(capacities, other, src, dst),
        !reachable(one, src, dst),
        !reachable(other, src, dst),
    ensures
        source_side(other, order, src).subset_of(source_side(one, order, src)),
{
    let side = source_side(one, order, src);
    lemma_fits_within(capacities, one, order);
    lemma_fits_within(capacities, other, order);
    if 0 <= src < order {
        assert(is_walk(one, Seq::<int>::empty(), src, src));
        // The flow in `other` is as large as the cut around `side`, so it
        // leaves nothing on the arcs that lead out of `side`.
        lemma_max_flow_unique(capacities, one, other, order, src, dst);
        lemma_max_flow_min_cut(capacities, one, order, src, dst);
        lemma_flow_across_cut(capacities, other, order, src, dst, side);
        lemma_total_weight_zero_each(other, crossing(side));
        assert forall|v: int| source_side(other, order, src).contains(v) implies side.contains(
            v,
        ) by {
            let walk = choose|walk: Seq<int>| is_walk(other, walk, src, v);
            assert forall|e: int|
                0 <= e < other.len() && side.contains((#[trigger] other[e]).tail as int)
                    && other[e].weight > 0 implies side.contains(other[e].head as int) by {
                if !side.contains(other[e].head as int) {
                    assert(crossing(side)(other[e].tail as int, other[e].head as int));
                }
            }
            lemma_walk_stays(other, walk, src, v, side);
        }
    }
}

/// The flow on each arc of the capacities, read off the reverses in a
/// residual network.
pub open spec fn flows(capacities: Seq<Arc>, residual: Seq<Arc>) -> Seq<Arc> {
    Seq::new(
        capacities.len(),
        |i: int|
            Arc {
                tail: capacities[i].tail,
                head: capacities[i].head,
                weight: residual[2 * i + 1].weight,
            },
    )
}

/// Read off a residual network that fits the capacities, the flow on each arc
/// is what stands at the arc's reverse, and it lies between 0 and the arc's
/// capacity.
pub proof fn lemma_flow_within_capacity(capacities: Seq<Arc>, residual: Seq<Arc>)
    requires
        fits(capacities, residual),
        arcs_distinct(residual),
    ensures
        flow_arcs(capacities, residual) == flows(capacities, residual),
        forall|i: int|
            0 <= i < capacities.len() ==> 0 <= (#[trigger] flow_arcs(
                capacities,
                residual,
            )[i]).weight <= capacities[i].weight,
{
    assert forall|i: int| 0 <= i < capacities.len() implies (#[trigger] flow_arcs(
        capacities,
        residual,
    )[i]) == flows(capacities, residual)[i] && flows(capacities, residual)[i].weight
        <= capacities[i].weight by {
        lemma_residual_pair(capacities, residual, i);
        lemma_arc_weight(residual, 2 * i + 1);
        assert(slack_on(residual, i) + flow_on(residual, i) == capacities[i].weight);
    }
    assert(flow_arcs(capacities, residual) =~= flows(capacities, residual));
}

/// Of what left `v` before any flow, the part that no longer leaves it is the
/// flow out of `v` less the flow into it.
proof fn lemma_net_outflow(capacities: Seq<Arc>, residual: Seq<Arc>, v: int)
    requires
        fits(capacities, residual),
    ensures
        out_weight(residual_arcs(capacities), v) - out_weight(residual, v) == net_outflow(
            flows(capacities, residual),
            v,
        ),
    decreases capacities.len(),
{
    let start = residual_arcs(capacities);
    let flow = flows(capacities, residual);
    if capacities.len() > 0 {
        let last = capacities.len() - 1;
        let fewer = capacities.drop_last();
        let shorter = residual.take(residual.len() - 2);
        lemma_residual_carries(capacities, 0, 0);
        lemma_fits_prefix(capacities, residual);
        lemma_fits_prefix(capacities, start);
        lemma_net_outflow(fewer, shorter, v);
        assert(flows(fewer, shorter) =~= flow.drop_last());
        lemma_total_weight_last_two(residual, leaving(v));
        lemma_total_weight_last_two(start, leaving(v));
        lemma_residual_pair(capacities, residual, last);
        lemma_residual_pair(capacities, start, last);
        assert(capacities[last].weight == slack_on(residual, last) + flow_on(residual, last));
        assert(flow.last() == flow[last]);
    } else {
        assert(start.len() == 0);
        assert(residual.len() == 0);
    }
}

/// The flow read off a residual network carries into each node but `src` and
/// `dst` as much as it carries out of it.
pub proof fn lemma_flow_conserved(
    capacities: Seq<Arc>,
    residual: Seq<Arc>,
    src: int,
    dst: int,
    v: int,
)
    requires
        carries_flow(capacities, residual, src, dst),
        arcs_distinct(residual),
        v != src,
        v != dst,
    ensures
        net_outflow(flow_arcs(capacities, residual), v) == 0,
{
    lemma_flow_within_capacity(capacities, residual);
    lemma_net_outflow(capacities, residual, v);
}

/// The value of the flow in a residual network is what the flow read off it
/// carries out of `src`, less what it carries into `src`.
pub proof fn lemma_flow_value(capacities: Seq<Arc>, residual: Seq<Arc>, src: int)
    requires
        fits(capacities, residual),
        arcs_distinct(residual),
    ensures
        flow_value(capacities, residual, src) == net_outflow(flow_arcs(capacities, residual), src),
{
    lemma_flow_within_capacity(capacities, residual);
    lemma_net_outflow(capacities, residual, src);
}

} // verus!
