//! Walks along arcs of positive weight, and what can be reached by them.

use crate::network::{arcs_within, Arc};
use vstd::prelude::*;

verus! {

/// `walk` lists the numbers of arcs of positive weight that lead from `from`
/// to `to`, each arc leaving the node that the arc before it enters.
pub open spec fn is_walk(arcs: Seq<Arc>, walk: Seq<int>, from: int, to: int) -> bool {
    &&& forall|i: int|
        0 <= i < walk.len() ==> 0 <= #[trigger] walk[i] < arcs.len() && arcs[walk[i]].weight > 0
    &&& forall|i: int| 0 <= i < walk.len() - 1 ==> #[trigger] joined(arcs, walk, i)
    &&& if walk.len() == 0 {
        from == to
    } else {
        arcs[walk[0]].tail == from && arcs[walk.last()].head == to
    }
}

/// Arc `i + 1` of `walk` leaves the node that arc `i` enters.
pub open spec fn joined(arcs: Seq<Arc>, walk: Seq<int>, i: int) -> bool {
    arcs[walk[i]].head == arcs[walk[i + 1]].tail
}

/// Some walk along arcs of positive weight leads from `from` to `to`.
pub open spec fn reachable(arcs: Seq<Arc>, from: int, to: int) -> bool {
    exists|walk: Seq<int>| is_walk(arcs, walk, from, to)
}

/// The walk `walk` from `from` enters no node twice and never comes back to
/// `from`.
pub open spec fn is_simple(arcs: Seq<Arc>, walk: Seq<int>, from: int) -> bool {
    &&& forall|i: int| 0 <= i < walk.len() ==> arcs[#[trigger] walk[i]].head != from
    &&& forall|i: int, j: int|
        0 <= i < j < walk.len() ==> arcs[#[trigger] walk[i]].head != arcs[#[trigger] walk[j]].head
}

/// No walk from `from` to `to` has fewer arcs than `walk`.
pub open spec fn is_shortest(arcs: Seq<Arc>, walk: Seq<int>, from: int, to: int) -> bool {
    forall|other: Seq<int>| #[trigger] is_walk(arcs, other, from, to) ==> walk.len() <= other.len()
}

/// `amount` is the least weight of an arc of `walk`.
pub open spec fn is_bottleneck(arcs: Seq<Arc>, walk: Seq<int>, amount: int) -> bool {
    &&& forall|i: int| 0 <= i < walk.len() ==> amount <= arcs[#[trigger] walk[i]].weight
    &&& exists|i: int| 0 <= i < walk.len() && amount == arcs[#[trigger] walk[i]].weight
}

/// The walk followed by one more arc is a walk to that arc's head.
pub proof fn lemma_walk_push(arcs: Seq<Arc>, walk: Seq<int>, from: int, via: int, e: int)
    requires
        is_walk(arcs, walk, from, via),
        0 <= e < arcs.len(),
        arcs[e].tail == via,
        arcs[e].weight > 0,
    ensures
        is_walk(arcs, walk.push(e), from, arcs[e].head as int),
{
    let longer = walk.push(e);
    assert forall|i: int| 0 <= i < longer.len() - 1 implies #[trigger] joined(arcs, longer, i) by {
        if i < walk.len() - 1 {
            assert(joined(arcs, walk, i));
            assert(longer[i] == walk[i]);
            assert(longer[i + 1] == walk[i + 1]);
        } else {
            assert(longer[i] == walk.last());
        }
    }
    if walk.len() > 0 {
        assert(longer[0] == walk[0]);
    }
}

/// A walk that starts with one more arc is a walk from that arc's tail.
pub proof fn lemma_walk_prepend(arcs: Seq<Arc>, walk: Seq<int>, via: int, to: int, e: int)
    requires
        is_walk(arcs, walk, via, to),
        0 <= e < arcs.len(),
        arcs[e].head == via,
        arcs[e].weight > 0,
    ensures
        is_walk(arcs, seq![e] + walk, arcs[e].tail as int, to),
{
    let longer = seq![e] + walk;
    assert forall|i: int| 0 <= i < longer.len() implies 0 <= #[trigger] longer[i] < arcs.len()
        && arcs[longer[i]].weight > 0 by {
        if i > 0 {
            assert(longer[i] == walk[i - 1]);
        }
    }
    assert forall|i: int| 0 <= i < longer.len() - 1 implies #[trigger] joined(arcs, longer, i) by {
        assert(longer[i + 1] == walk[i]);
        if i > 0 {
            assert(joined(arcs, walk, i - 1));
            assert(longer[i] == walk[i - 1]);
        }
    }
    if walk.len() > 0 {
        assert(longer.last() == walk.last());
    }
}

/// A walk without its last arc is a walk to that arc's tail.
pub proof fn lemma_walk_drop_last(arcs: Seq<Arc>, walk: Seq<int>, from: int, to: int)
    requires
        is_walk(arcs, walk, from, to),
        walk.len() > 0,
    ensures
        is_walk(arcs, walk.drop_last(), from, arcs[walk.last()].tail as int),
        0 <= walk.last() < arcs.len(),
        arcs[walk.last()].weight > 0,
        arcs[walk.last()].head == to,
{
    let shorter = walk.drop_last();
    assert forall|i: int| 0 <= i < shorter.len() implies 0 <= #[trigger] shorter[i] < arcs.len()
        && arcs[shorter[i]].weight > 0 by {
        assert(shorter[i] == walk[i]);
    }
    assert forall|i: int| 0 <= i < shorter.len() - 1
        implies #[trigger] joined(arcs, shorter, i) by {
        assert(joined(arcs, walk, i));
        assert(shorter[i] == walk[i]);
        assert(shorter[i + 1] == walk[i + 1]);
    }
    if shorter.len() > 0 {
        assert(shorter[0] == walk[0]);
        assert(shorter.last() == walk[walk.len() - 2]);
        assert(joined(arcs, walk, walk.len() - 2));
    }
}

/// A set of nodes that holds the tail of a walk and is closed under the arcs
/// of positive weight holds the walk's end too.
pub proof fn lemma_walk_stays(arcs: Seq<Arc>, walk: Seq<int>, from: int, to: int, inside: Set<int>)
    requires
        is_walk(arcs, walk, from, to),
        inside.contains(from),
        forall|e: int|
            0 <= e < arcs.len() && inside.contains((#[trigger] arcs[e]).tail as int)
                && arcs[e].weight
                > 0 ==> inside.contains(arcs[e].head as int),
    ensures
        inside.contains(to),
    decreases walk.len(),
{
    if walk.len() > 0 {
        lemma_walk_drop_last(arcs, walk, from, to);
        lemma_walk_stays(arcs, walk.drop_last(), from, arcs[walk.last()].tail as int, inside);
    }
}

/// A walk between nodes of the network never leaves them; one from anywhere
/// else has no arc.
pub proof fn lemma_walk_within(arcs: Seq<Arc>, order: nat, walk: Seq<int>, from: int, to: int)
    requires
        is_walk(arcs, walk, from, to),
        arcs_within(arcs, order),
    ensures
        0 <= from < order ==> 0 <= to < order,
        !(0 <= from < order) ==> walk.len() == 0 && to == from,
{
    if walk.len() > 0 {
        assert(arcs[walk[0]].tail < order);
        assert(arcs[walk.last()].head < order);
    }
}

} // verus!
