//! Sums of arc weights.

use crate::network::Arc;
use vstd::prelude::*;

verus! {

/// The sum of the weights of the arcs whose tail and head `pick` accepts.
pub open spec fn total_weight(arcs: Seq<Arc>, pick: spec_fn(int, int) -> bool) -> int
    decreases arcs.len(),
{
    if arcs.len() == 0 {
        0
    } else {
        total_weight(arcs.drop_last(), pick) + if pick(
            arcs.last().tail as int,
            arcs.last().head as int,
        ) {
            arcs.last().weight as int
        } else {
            0
        }
    }
}

/// Accepts the arcs that leave `v`.
pub open spec fn leaving(v: int) -> spec_fn(int, int) -> bool {
    |tail: int, head: int| tail == v
}

/// Accepts the arcs that enter `v`.
pub open spec fn entering(v: int) -> spec_fn(int, int) -> bool {
    |tail: int, head: int| head == v
}

/// What leaves `v` less what enters it.
pub open spec fn net_outflow(arcs: Seq<Arc>, v: int) -> int {
    total_weight(arcs, leaving(v)) - total_weight(arcs, entering(v))
}

/// The sum of the weights of the arcs that leave `v`.
pub open spec fn out_weight(arcs: Seq<Arc>, v: int) -> int {
    total_weight(arcs, leaving(v))
}

/// The arc with the number `e` of `arcs`, with the weight `weight`.
pub open spec fn reweighted(arcs: Seq<Arc>, e: int, weight: u64) -> Arc {
    Arc { tail: arcs[e].tail, head: arcs[e].head, weight }
}

/// A sum of weights is not negative.
pub proof fn lemma_total_weight_nonnegative(arcs: Seq<Arc>, pick: spec_fn(int, int) -> bool)
    ensures
        total_weight(arcs, pick) >= 0,
    decreases arcs.len(),
{
    if arcs.len() > 0 {
        lemma_total_weight_nonnegative(arcs.drop_last(), pick);
    }
}

/// Giving one arc another weight changes a sum by the difference, if the sum
/// counts the arc at all.
pub proof fn lemma_total_weight_update(
    arcs: Seq<Arc>,
    e: int,
    weight: u64,
    pick: spec_fn(int, int) -> bool,
)
    requires
        0 <= e < arcs.len(),
    ensures
        total_weight(arcs.update(e, reweighted(arcs, e, weight)), pick) == total_weight(arcs, pick)
            + if pick(arcs[e].tail as int, arcs[e].head as int) {
            weight - arcs[e].weight
        } else {
            0
        },
    decreases arcs.len(),
{
    let after = arcs.update(e, reweighted(arcs, e, weight));
    if e == arcs.len() - 1 {
        assert(after.drop_last() =~= arcs.drop_last());
    } else {
        assert(after.drop_last() =~= arcs.drop_last().update(
            e,
            reweighted(arcs.drop_last(), e, weight),
        ));
        lemma_total_weight_update(arcs.drop_last(), e, weight, pick);
    }
}

/// Two ways of picking that agree on every arc give the same sum.
pub proof fn lemma_total_weight_agree(
    arcs: Seq<Arc>,
    one: spec_fn(int, int) -> bool,
    other: spec_fn(int, int) -> bool,
)
    requires
        forall|e: int|
            0 <= e < arcs.len() ==> one((#[trigger] arcs[e]).tail as int, arcs[e].head as int)
                == other(arcs[e].tail as int, arcs[e].head as int),
    ensures
        total_weight(arcs, one) == total_weight(arcs, other),
    decreases arcs.len(),
{
    if arcs.len() > 0 {
        let rest = arcs.drop_last();
        assert forall|e: int| 0 <= e < rest.len() implies one(
            (#[trigger] rest[e]).tail as int,
            rest[e].head as int,
        ) == other(rest[e].tail as int, rest[e].head as int) by {
            assert(rest[e] == arcs[e]);
        }
        lemma_total_weight_agree(rest, one, other);
        assert(arcs.last() == arcs[arcs.len() - 1]);
    }
}

/// Where every arc that `whole` picks is picked by exactly one of `one` and
/// `other`, and no other arc by either, the sum over `whole` is the sum of the
/// two sums.
pub proof fn lemma_total_weight_split(
    arcs: Seq<Arc>,
    whole: spec_fn(int, int) -> bool,
    one: spec_fn(int, int) -> bool,
    other: spec_fn(int, int) -> bool,
)
    requires
        forall|e: int|
            0 <= e < arcs.len() ==> {
                let t = (#[trigger] arcs[e]).tail as int;
                let h = arcs[e].head as int;
                whole(t, h) == (one(t, h) || other(t, h)) && !(one(t, h) && other(t, h))
            },
    ensures
        total_weight(arcs, whole) == total_weight(arcs, one) + total_weight(arcs, other),
    decreases arcs.len(),
{
    if arcs.len() > 0 {
        let rest = arcs.drop_last();
        assert forall|e: int| 0 <= e < rest.len() implies {
            let t = (#[trigger] rest[e]).tail as int;
            let h = rest[e].head as int;
            whole(t, h) == (one(t, h) || other(t, h)) && !(one(t, h) && other(t, h))
        } by {
            assert(rest[e] == arcs[e]);
        }
        lemma_total_weight_split(rest, whole, one, other);
        assert(arcs.last() == arcs[arcs.len() - 1]);
    }
}

/// A sum that counts only arcs of weight 0 is 0.
pub proof fn lemma_total_weight_zero(arcs: Seq<Arc>, pick: spec_fn(int, int) -> bool)
    requires
        forall|e: int|
            0 <= e < arcs.len() && pick((#[trigger] arcs[e]).tail as int, arcs[e].head as int)
                ==> arcs[e].weight == 0,
    ensures
        total_weight(arcs, pick) == 0,
    decreases arcs.len(),
{
    if arcs.len() > 0 {
        let rest = arcs.drop_last();
        assert forall|e: int|
            0 <= e < rest.len() && pick(
                (#[trigger] rest[e]).tail as int,
                rest[e].head as int,
            ) implies rest[e].weight == 0 by {
            assert(rest[e] == arcs[e]);
        }
        lemma_total_weight_zero(rest, pick);
        assert(arcs.last() == arcs[arcs.len() - 1]);
    }
}

/// Where a sum is 0, every arc that it counts weighs 0.
pub proof fn lemma_total_weight_zero_each(arcs: Seq<Arc>, pick: spec_fn(int, int) -> bool)
    requires
        total_weight(arcs, pick) == 0,
    ensures
        forall|e: int|
            0 <= e < arcs.len() && pick((#[trigger] arcs[e]).tail as int, arcs[e].head as int)
                ==> arcs[e].weight == 0,
    decreases arcs.len(),
{
    if arcs.len() > 0 {
        let rest = arcs.drop_last();
        lemma_total_weight_nonnegative(rest, pick);
        lemma_total_weight_zero_each(rest, pick);
        assert forall|e: int|
            0 <= e < arcs.len() && pick(
                (#[trigger] arcs[e]).tail as int,
                arcs[e].head as int,
            ) implies arcs[e].weight == 0 by {
            if e < rest.len() {
                assert(rest[e] == arcs[e]);
            } else {
                assert(arcs[e] == arcs.last());
            }
        }
    }
}

/// The sum over a sequence that ends in two arcs is the sum over what comes
/// before them and what the two add.
pub proof fn lemma_total_weight_last_two(arcs: Seq<Arc>, pick: spec_fn(int, int) -> bool)
    requires
        arcs.len() >= 2,
    ensures
        total_weight(arcs, pick) == total_weight(arcs.take(arcs.len() - 2), pick) + counted(
            arcs[arcs.len() - 2],
            pick,
        ) + counted(arcs[arcs.len() - 1], pick),
{
    let shorter = arcs.drop_last();
    assert(shorter.drop_last() =~= arcs.take(arcs.len() - 2));
    assert(shorter.last() == arcs[arcs.len() - 2]);
    assert(total_weight(shorter, pick) == total_weight(shorter.drop_last(), pick) + counted(
        shorter.last(),
        pick,
    ));
}

/// What `arc` adds to a sum over the arcs that `pick` accepts.
pub open spec fn counted(arc: Arc, pick: spec_fn(int, int) -> bool) -> int {
    if pick(arc.tail as int, arc.head as int) {
        arc.weight as int
    } else {
        0
    }
}

} // verus!
