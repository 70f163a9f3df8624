//! Augmenting paths: finding one breadth first, and pushing flow along it.

use crate::network::{arcs_distinct, has_arc, lemma_arc_between, lemma_has_arc, Arc, Network};
use crate::residual::{are_opposite, is_residual, same_shape};
use crate::search::{breadth_first, lemma_tree_depth_least, lemma_tree_reaches, SearchTree};
use crate::walk::{
    is_bottleneck, is_shortest, is_simple, is_walk, joined, lemma_walk_prepend, lemma_walk_within,
    reachable,
};
use crate::weight::{
    lemma_total_weight_nonnegative, lemma_total_weight_update, leaving, out_weight, reweighted,
};
use vstd::prelude::*;

verus! {

/// The arc with the number `e` is the reverse of an arc of `walk`.
pub open spec fn against_walk(arcs: Seq<Arc>, walk: Seq<int>, e: int) -> bool {
    exists|i: int| 0 <= i < walk.len() && are_opposite(arcs[#[trigger] walk[i]], arcs[e])
}

/// What pushing `amount` along `walk` adds to the weight of the arc with the
/// number `e`: an arc of the walk loses `amount`, the reverse of one gains it.
pub open spec fn change_on(arcs: Seq<Arc>, walk: Seq<int>, e: int, amount: int) -> int {
    (if against_walk(arcs, walk, e) {
        amount
    } else {
        0
    }) - (if walk.contains(e) {
        amount
    } else {
        0
    })
}

/// `after` is `before` with `amount` taken from the weight of each arc of
/// `walk` and added to the weight of its reverse.
pub open spec fn augmented(
    before: Seq<Arc>,
    after: Seq<Arc>,
    walk: Seq<int>,
    amount: int,
) -> bool {
    &&& same_shape(before, after)
    &&& forall|e: int|
        0 <= e < before.len() ==> (#[trigger] after[e]).weight == before[e].weight + change_on(
            before,
            walk,
            e,
            amount,
        )
}

/// What pushing `amount` from `src` to `dst` adds to the weight that leaves
/// `v`.
pub open spec fn change_at(v: int, src: int, dst: int, amount: int) -> int {
    (if v == dst {
        amount
    } else {
        0
    }) - (if v == src {
        amount
    } else {
        0
    })
}

/// From `before` to `after`, the weight that leaves `src` went down by
/// `amount`, the weight that leaves `dst` went up by `amount`, and the weight
/// that leaves any other node stayed.
pub open spec fn shifted(
    before: Seq<Arc>,
    after: Seq<Arc>,
    src: int,
    dst: int,
    amount: int,
) -> bool {
    forall|v: int|
        #![trigger out_weight(after, v)]
        #![trigger out_weight(before, v)]
        out_weight(after, v) == out_weight(before, v) + change_at(v, src, dst, amount)
}

/// `after` comes from `before` by pushing `amount`, the least weight on
/// `walk`, along `walk`, a shortest walk from `src` to `dst`, which enters no
/// node twice.
pub open spec fn is_augmentation(
    before: Seq<Arc>,
    after: Seq<Arc>,
    src: int,
    dst: int,
    walk: Seq<int>,
    amount: int,
) -> bool {
    &&& is_walk(before, walk, src, dst)
    &&& is_shortest(before, walk, src, dst)
    &&& is_simple(before, walk, src)
    &&& is_bottleneck(before, walk, amount)
    &&& augmented(before, after, walk, amount)
    &&& shifted(before, after, src, dst, amount)
}

/// Each augmentation lowers the weight that leaves `src` by what it pushes,
/// which is at least 1, and that weight is never negative: one residual
/// network allows only finitely many augmentations.
pub proof fn lemma_augmentation_progress(
    before: Seq<Arc>,
    after: Seq<Arc>,
    src: int,
    dst: int,
    walk: Seq<int>,
    amount: int,
)
    requires
        is_augmentation(before, after, src, dst, walk, amount),
        src != dst,
    ensures
        amount >= 1,
        out_weight(after, src) == out_weight(before, src) - amount,
        out_weight(after, src) >= 0,
{
    let i = choose|i: int| 0 <= i < walk.len() && amount == before[#[trigger] walk[i]].weight;
    assert(before[walk[i]].weight > 0);
    assert(out_weight(after, src) == out_weight(before, src) - amount);
    lemma_total_weight_nonnegative(after, leaving(src));
}

/// From entry `i` of `states` to the next, flow was pushed along an
/// augmenting path from `src` to `dst`.
pub open spec fn is_augmented_at(states: Seq<Seq<Arc>>, i: int, src: int, dst: int) -> bool {
    exists|walk: Seq<int>, amount: int| #[trigger]
        is_augmentation(states[i], states[i + 1], src, dst, walk, amount)
}

/// A residual network allows no more augmentations, one after another, than
/// the weight that leaves `src` in it: however the paths are chosen, pushing
/// flow comes to an end.
pub proof fn lemma_augmentations_bounded(states: Seq<Seq<Arc>>, src: int, dst: int)
    requires
        states.len() > 0,
        src != dst,
        forall|i: int|
            0 <= i < states.len() - 1 ==> #[trigger] is_augmented_at(states, i, src, dst),
    ensures
        states.len() - 1 + out_weight(states.last(), src) <= out_weight(states[0], src),
        states.len() - 1 <= out_weight(states[0], src),
    decreases states.len(),
{
    lemma_total_weight_nonnegative(states.last(), leaving(src));
    if states.len() > 1 {
        let earlier = states.drop_last();
        let last = states.len() - 2;
        assert forall|i: int| 0 <= i < earlier.len() - 1 implies #[trigger] is_augmented_at(
            earlier,
            i,
            src,
            dst,
        ) by {
            assert(is_augmented_at(states, i, src, dst));
            assert(earlier[i] == states[i] && earlier[i + 1] == states[i + 1]);
        }
        lemma_augmentations_bounded(earlier, src, dst);
        assert(is_augmented_at(states, last, src, dst));
        let (walk, amount): (Seq<int>, int) = choose|walk: Seq<int>, amount: int| #[trigger]
            is_augmentation(states[last], states[last + 1], src, dst, walk, amount);
        lemma_augmentation_progress(states[last], states[last + 1], src, dst, walk, amount);
        assert(earlier.last() == states[last]);
    }
}

/// The walk that `path` holds from its end to its start.
pub open spec fn walk_of(path: Seq<usize>) -> Seq<int> {
    Seq::new(path.len(), |i: int| path[path.len() - 1 - i] as int)
}

/// A walk that enters no node twice holds no arc twice, and no arc together
/// with its reverse.
pub proof fn lemma_simple_walk(arcs: Seq<Arc>, walk: Seq<int>, src: int, dst: int)
    requires
        is_walk(arcs, walk, src, dst),
        is_simple(arcs, walk, src),
    ensures
        walk.no_duplicates(),
        forall|i: int, j: int|
            0 <= i < walk.len() && 0 <= j < walk.len() ==> !are_opposite(
                arcs[#[trigger] walk[i]],
                arcs[#[trigger] walk[j]],
            ),
{
    assert forall|i: int, j: int| 0 <= i < walk.len() && 0 <= j < walk.len() && i != j
        implies walk[i]
        != walk[j] by {
        if i < j {
            assert(arcs[walk[i]].head != arcs[walk[j]].head);
        } else {
            assert(arcs[walk[j]].head != arcs[walk[i]].head);
        }
    }
    assert forall|i: int, j: int| 0 <= i < walk.len() && 0 <= j < walk.len() implies !are_opposite(
        arcs[#[trigger] walk[i]],
        arcs[#[trigger] walk[j]],
    ) by {
        if are_opposite(arcs[walk[i]], arcs[walk[j]]) {
            // The tail of each arc is the head of the other: each would have
            // to come right after the other.
            lemma_tail_is_head(arcs, walk, src, dst, i, j);
            lemma_tail_is_head(arcs, walk, src, dst, j, i);
        }
    }
}

/// On a walk that enters no node twice, an arc whose tail is the head of
/// another arc of the walk comes right after it.
proof fn lemma_tail_is_head(arcs: Seq<Arc>, walk: Seq<int>, src: int, dst: int, i: int, j: int)
    requires
        is_walk(arcs, walk, src, dst),
        is_simple(arcs, walk, src),
        0 <= i < walk.len(),
        0 <= j < walk.len(),
        arcs[walk[i]].tail == arcs[walk[j]].head,
    ensures
        i == j + 1,
{
    if i == 0 {
        assert(arcs[walk[j]].head != src);
    } else {
        assert(joined(arcs, walk, i - 1));
        if i - 1 < j {
            assert(arcs[walk[i - 1]].head != arcs[walk[j]].head);
        } else if j < i - 1 {
            assert(arcs[walk[j]].head != arcs[walk[i - 1]].head);
        }
    }
}

/// Arcs that are opposite in `before` keep the sum of their weights when flow
/// is pushed along a walk: neither ever weighs more than the two did together.
pub proof fn lemma_augmented_keeps_sums(
    before: Seq<Arc>,
    after: Seq<Arc>,
    walk: Seq<int>,
    amount: int,
    e: int,
    f: int,
)
    requires
        arcs_distinct(before),
        augmented(before, after, walk, amount),
        forall|i: int| 0 <= i < walk.len() ==> 0 <= #[trigger] walk[i] < before.len(),
        0 <= e < before.len(),
        0 <= f < before.len(),
        are_opposite(before[e], before[f]),
    ensures
        after[e].weight + after[f].weight == before[e].weight + before[f].weight,
        after[e].weight <= before[e].weight + before[f].weight,
{
    lemma_opposite_on_walk(before, walk, e, f);
    lemma_opposite_on_walk(before, walk, f, e);
}

/// An arc is on a walk exactly if its reverse is the reverse of an arc of the
/// walk.
proof fn lemma_opposite_on_walk(arcs: Seq<Arc>, walk: Seq<int>, e: int, f: int)
    requires
        arcs_distinct(arcs),
        forall|i: int| 0 <= i < walk.len() ==> 0 <= #[trigger] walk[i] < arcs.len(),
        0 <= e < arcs.len(),
        0 <= f < arcs.len(),
        are_opposite(arcs[e], arcs[f]),
    ensures
        walk.contains(e) <==> against_walk(arcs, walk, f),
{
    if walk.contains(e) {
        let i = choose|i: int| 0 <= i < walk.len() && walk[i] == e;
        assert(are_opposite(arcs[walk[i]], arcs[f]));
    }
    if against_walk(arcs, walk, f) {
        let i = choose|i: int| 0 <= i < walk.len()
            && are_opposite(arcs[#[trigger] walk[i]], arcs[f]);
        assert(arcs[walk[i]].tail == arcs[e].tail);
        assert(walk[i] == e);
    }
}

/// Pushing flow along a walk of a residual network leaves a residual network.
pub proof fn lemma_augmented_residual(
    before: Seq<Arc>,
    after: Seq<Arc>,
    walk: Seq<int>,
    amount: int,
)
    requires
        arcs_distinct(before),
        is_residual(before),
        augmented(before, after, walk, amount),
        forall|i: int| 0 <= i < walk.len() ==> 0 <= #[trigger] walk[i] < before.len(),
    ensures
        is_residual(after),
        arcs_distinct(after),
{
    assert forall|e: int| 0 <= e < after.len() implies (#[trigger] after[e]).tail != after[e].head
        && has_arc(after, after[e].head as int, after[e].tail as int) by {
        assert(before[e].tail != before[e].head);
        let f = lemma_arc_between(before, before[e].head as int, before[e].tail as int);
        assert(after[f].tail == after[e].head);
        lemma_has_arc(after, f);
    }
    assert forall|e: int, f: int|
        0 <= e < after.len() && 0 <= f < after.len() && are_opposite(
            #[trigger] after[e],
            #[trigger] after[f],
        ) implies after[e].weight + after[f].weight <= u64::MAX by {
        assert(are_opposite(before[e], before[f]));
        lemma_augmented_keeps_sums(before, after, walk, amount, e, f);
    }
    assert forall|e: int, f: int|
        0 <= e < after.len() && 0 <= f < after.len() && (#[trigger] after[e]).tail == (
        #[trigger] after[f]).tail && after[e].head == after[f].head implies e == f by {
        assert(before[e].tail == before[f].tail && before[e].head == before[f].head);
    }
}

/// While flow is pushed along a walk from its end, the arc before the part
/// that is done, and its reverse, still have the weights that they had.
proof fn lemma_push_fresh(
    before: Seq<Arc>,
    now: Seq<Arc>,
    walk: Seq<int>,
    src: int,
    dst: int,
    k: int,
    amount: int,
    e: int,
    m: int,
)
    requires
        arcs_distinct(before),
        is_residual(before),
        is_walk(before, walk, src, dst),
        is_simple(before, walk, src),
        0 <= k < walk.len(),
        e == walk[walk.len() - 1 - k],
        augmented(before, now, walk.skip(walk.len() - k), amount),
        0 <= m < before.len(),
        are_opposite(before[m], before[e]),
    ensures
        e != m,
        now[e].weight == before[e].weight,
        now[m].weight == before[m].weight,
        !walk.skip(walk.len() - k).contains(e),
        !walk.skip(walk.len() - k).contains(m),
        !against_walk(before, walk.skip(walk.len() - k), e),
        !against_walk(before, walk.skip(walk.len() - k), m),
{
    let len = walk.len() as int;
    let done = walk.skip(len - k);
    lemma_simple_walk(before, walk, src, dst);
    assert(before[e].tail != before[e].head);
    assert forall|i: int| 0 <= i < done.len() implies done[i] == walk[len - k + i] by {}
    if done.contains(e) {
        let i = choose|i: int| 0 <= i < done.len() && done[i] == e;
        assert(walk[len - k + i] == walk[len - 1 - k]);
    }
    if against_walk(before, done, e) {
        let i = choose|i: int| 0 <= i < done.len()
            && are_opposite(before[#[trigger] done[i]], before[e]);
        assert(are_opposite(before[walk[len - k + i]], before[walk[len - 1 - k]]));
    }
    if done.contains(m) {
        let i = choose|i: int| 0 <= i < done.len() && done[i] == m;
        assert(are_opposite(before[walk[len - k + i]], before[walk[len - 1 - k]]));
    }
    if against_walk(before, done, m) {
        let i = choose|i: int| 0 <= i < done.len()
            && are_opposite(before[#[trigger] done[i]], before[m]);
        assert(before[done[i]].tail == before[e].tail);
        assert(done[i] == e);
    }
}

/// One step of pushing flow along a walk from its end: the arc before the
/// part that is done gives `amount` to its reverse.
proof fn lemma_push_step(
    before: Seq<Arc>,
    now: Seq<Arc>,
    walk: Seq<int>,
    src: int,
    dst: int,
    k: int,
    amount: int,
    e: int,
    m: int,
    down: u64,
    up: u64,
)
    requires
        arcs_distinct(before),
        is_residual(before),
        is_walk(before, walk, src, dst),
        is_simple(before, walk, src),
        0 <= k < walk.len(),
        e == walk[walk.len() - 1 - k],
        augmented(before, now, walk.skip(walk.len() - k), amount),
        0 <= m < before.len(),
        are_opposite(before[m], before[e]),
        down == now[e].weight - amount,
        up == now[m].weight + amount,
    ensures
        ({
            let mid = now.update(e, reweighted(now, e, down));
            let next = mid.update(m, reweighted(mid, m, up));
            augmented(before, next, walk.skip(walk.len() - k - 1), amount)
        }),
{
    let len = walk.len() as int;
    let done = walk.skip(len - k);
    let more = walk.skip(len - k - 1);
    lemma_push_fresh(before, now, walk, src, dst, k, amount, e, m);
    assert(more[0] == e);
    assert forall|i: int| 0 <= i < done.len() implies done[i] == more[i + 1] by {}
    let mid = now.update(e, reweighted(now, e, down));
    let next = mid.update(m, reweighted(mid, m, up));
    assert forall|x: int| 0 <= x < before.len() implies (#[trigger] next[x]).weight
        == before[x].weight + change_on(before, more, x, amount) by {
        // `x` is on the longer part exactly if it is `e` or on the part done.
        if done.contains(x) {
            let i = choose|i: int| 0 <= i < done.len() && done[i] == x;
            assert(more[i + 1] == x);
        }
        if more.contains(x) && x != e {
            let i = choose|i: int| 0 <= i < more.len() && more[i] == x;
            assert(done[i - 1] == x);
        }
        // `x` is against the longer part exactly if it is `m` or against the
        // part done.
        if against_walk(before, done, x) {
            let i = choose|i: int| 0 <= i < done.len()
                && are_opposite(before[#[trigger] done[i]], before[x]);
            assert(are_opposite(before[more[i + 1]], before[x]));
        }
        if x == m {
            assert(are_opposite(before[more[0]], before[x]));
        }
        if against_walk(before, more, x) && x != m {
            let i = choose|i: int| 0 <= i < more.len()
                && are_opposite(before[#[trigger] more[i]], before[x]);
            if i == 0 {
                assert(before[x].tail == before[m].tail);
            } else {
                assert(are_opposite(before[done[i - 1]], before[x]));
            }
        }
    }
}

/// One step of pushing flow, seen from the nodes: the tail of the arc loses
/// what its head gains.
proof fn lemma_shift_step(
    before: Seq<Arc>,
    now: Seq<Arc>,
    front: int,
    dst: int,
    amount: int,
    e: int,
    m: int,
    down: u64,
    up: u64,
)
    requires
        shifted(before, now, front, dst, amount),
        0 <= e < now.len(),
        0 <= m < now.len(),
        e != m,
        are_opposite(now[m], now[e]),
        now[e].head == front,
        down == now[e].weight - amount,
        up == now[m].weight + amount,
    ensures
        ({
            let mid = now.update(e, reweighted(now, e, down));
            let next = mid.update(m, reweighted(mid, m, up));
            shifted(before, next, now[e].tail as int, dst, amount)
        }),
{
    let mid = now.update(e, reweighted(now, e, down));
    let next = mid.update(m, reweighted(mid, m, up));
    assert forall|v: int|
        #![trigger out_weight(next, v)]
        #![trigger out_weight(before, v)]
        out_weight(next, v) == out_weight(before, v) + change_at(
            v,
            now[e].tail as int,
            dst,
            amount,
        ) by {
        lemma_total_weight_update(now, e, down, leaving(v));
        lemma_total_weight_update(mid, m, up, leaving(v));
        assert(out_weight(now, v) == out_weight(before, v) + change_at(v, front, dst, amount));
    }
}

/// Follows the parent arcs of `tree` from `dst` back to `src`. Returns the
/// arcs passed, the one into `dst` first, and the least of their weights.
fn trace_back<N>(r: &Network<N>, tree: &SearchTree, src: usize, dst: usize) -> (found: (
    Vec<usize>,
    u64,
))
    requires
        r.wf(),
        tree.rooted(r@.arcs, r@.payloads.len(), src as int),
        src != dst,
        dst < r@.payloads.len(),
        tree.visited@[dst as int],
    ensures
        is_walk(r@.arcs, walk_of(found.0@), src as int, dst as int),
        is_simple(r@.arcs, walk_of(found.0@), src as int),
        is_bottleneck(r@.arcs, walk_of(found.0@), found.1 as int),
        found.1 >= 1,
        found.0@.len() == tree.depth@[dst as int],
{
    let ghost arcs = r@.arcs;
    let ghost order = r@.payloads.len();
    let mut path: Vec<usize> = Vec::new();
    let mut current = dst;
    let mut least: u64 = u64::MAX;
    let ghost mut walk: Seq<int> = Seq::empty();
    proof {
        assert(walk =~= walk_of(path@));
    }
    while current != src
        invariant
            r.wf(),
            arcs == r@.arcs,
            order == r@.payloads.len(),
            tree.rooted(arcs, order, src as int),
            current < order,
            tree.visited@[current as int],
            walk == walk_of(path@),
            is_walk(arcs, walk, current as int, dst as int),
            forall|i: int|
                0 <= i < walk.len() ==> tree.depth@[arcs[#[trigger] walk[i]].head as int]
                    == tree.depth@[current as int] + 1 + i,
            forall|i: int| 0 <= i < walk.len() ==> least <= arcs[#[trigger] walk[i]].weight,
            walk.len() > 0 ==> exists|i: int|
                0 <= i < walk.len() && least == arcs[#[trigger] walk[i]].weight,
            walk.len() == 0 ==> least == u64::MAX,
            least >= 1,
            walk.len() + tree.depth@[current as int] == tree.depth@[dst as int],
        decreases tree.depth@[current as int],
    {
        proof {
            assert(tree.hangs(arcs, current as int));
        }
        let e = tree.parent[current];
        let arc = r.edge(e).unwrap();
        let ghost shorter = walk;
        let ghost least_then = least;
        if arc.weight < least {
            least = arc.weight;
        }
        path.push(e);
        proof {
            walk = seq![e as int] + shorter;
            assert(walk =~= walk_of(path@));
            lemma_walk_prepend(arcs, shorter, current as int, dst as int, e as int);
            assert(walk[0] == e);
            assert forall|i: int| 0 <= i < walk.len()
                implies tree.depth@[arcs[#[trigger] walk[i]].head as int]
                == tree.depth@[arc.tail as int] + 1 + i by {
                if i > 0 {
                    assert(walk[i] == shorter[i - 1]);
                }
            }
            assert forall|i: int| 0 <= i < walk.len() implies least
                <= arcs[#[trigger] walk[i]].weight by {
                if i > 0 {
                    assert(walk[i] == shorter[i - 1]);
                }
            }
            if arc.weight >= least_then && shorter.len() > 0 {
                let i = choose|i: int| 0 <= i < shorter.len() && least_then
                    == arcs[#[trigger] shorter[i]].weight;
                assert(walk[i + 1] == shorter[i]);
            } else {
                assert(least == arcs[walk[0]].weight);
            }
        }
        current = arc.tail;
    }
    proof {
        assert(walk.len() > 0);
        assert forall|i: int, j: int| 0 <= i < j < walk.len() implies arcs[#[trigger] walk[i]].head
            != arcs[#[trigger] walk[j]].head by {
            assert(tree.depth@[arcs[walk[i]].head as int] == i + 1);
            assert(tree.depth@[arcs[walk[j]].head as int] == j + 1);
        }
    }
    (path, least)
}

/// Takes `amount` from the weight of each arc of `path` and adds it to the
/// weight of the arc's reverse.
fn push_along<N>(
    r: &mut Network<N>,
    path: &Vec<usize>,
    amount: u64,
    Ghost(src): Ghost<int>,
    Ghost(dst): Ghost<int>,
)
    requires
        old(r).wf(),
        is_residual(old(r)@.arcs),
        is_walk(old(r)@.arcs, walk_of(path@), src, dst),
        is_simple(old(r)@.arcs, walk_of(path@), src),
        forall|i: int|
            0 <= i < path@.len() ==> amount <= old(r)@.arcs[#[trigger] walk_of(path@)[i]].weight,
    ensures
        final(r).wf(),
        final(r)@.payloads == old(r)@.payloads,
        augmented(old(r)@.arcs, final(r)@.arcs, walk_of(path@), amount as int),
        shifted(old(r)@.arcs, final(r)@.arcs, src, dst, amount as int),
{
    let ghost before = r@.arcs;
    let ghost walk = walk_of(path@);
    let ghost len = walk.len() as int;
    let ghost mut front = dst;
    let mut k: usize = 0;
    proof {
        assert(walk.skip(len) =~= Seq::<int>::empty());
    }
    while k < path.len()
        invariant
            k <= path@.len(),
            walk == walk_of(path@),
            len == walk.len(),
            before == old(r)@.arcs,
            r.wf(),
            r@.payloads == old(r)@.payloads,
            old(r).wf(),
            is_residual(before),
            is_walk(before, walk, src, dst),
            is_simple(before, walk, src),
            forall|i: int| 0 <= i < len ==> amount <= before[#[trigger] walk[i]].weight,
            augmented(before, r@.arcs, walk.skip(len - k), amount as int),
            shifted(before, r@.arcs, front, dst, amount as int),
            front == (if k == 0 {
                dst
            } else {
                before[walk[len - k]].tail as int
            }),
        decreases path@.len() - k,
    {
        let ghost now = r@.arcs;
        let e = path[k];
        proof {
            assert(walk[len - 1 - k] == e);
            assert(0 <= walk[len - 1 - k] < before.len());
            assert(amount <= before[walk[len - 1 - k]].weight);
            if k == 0 {
                assert(before[e as int].head == dst);
            } else {
                assert(joined(before, walk, len - 1 - k));
            }
        }
        let arc = r.edge(e).unwrap();
        let found = r.find_edge(arc.head, arc.tail);
        proof {
            if found.is_none() {
                let f = lemma_arc_between(
                    before,
                    before[e as int].head as int,
                    before[e as int].tail as int,
                );
                assert(now[f].tail == arc.head);
                lemma_has_arc(now, f);
            }
        }
        let m = found.unwrap();
        let back = r.edge(m).unwrap();
        proof {
            assert(are_opposite(before[m as int], before[e as int]));
            lemma_push_fresh(before, now, walk, src, dst, k as int, amount as int, e as int,
                m as int);
            lemma_push_step(
                before,
                now,
                walk,
                src,
                dst,
                k as int,
                amount as int,
                e as int,
                m as int,
                (arc.weight - amount) as u64,
                (back.weight + amount) as u64,
            );
            lemma_shift_step(
                before,
                now,
                front,
                dst,
                amount as int,
                e as int,
                m as int,
                (arc.weight - amount) as u64,
                (back.weight + amount) as u64,
            );
        }
        r.set_edge_weight(e, arc.weight - amount);
        r.set_edge_weight(m, back.weight + amount);
        proof {
            front = arc.tail as int;
        }
        k += 1;
    }
    proof {
        assert(walk.skip(0) =~= walk);
    }
}

/// Looks breadth first for a walk from `src` to `dst` along arcs of positive
/// weight. Where there is none, the network stays as it is. Otherwise the
/// least weight on the walk found is taken from each of its arcs and added to
/// the arc's reverse.
pub fn find_augmenting_path<N: Clone>(r: &mut Network<N>, src: usize, dst: usize) -> (found: bool)
    requires
        old(r).wf(),
        is_residual(old(r)@.arcs),
        src != dst,
    ensures
        final(r).wf(),
        is_residual(final(r)@.arcs),
        final(r)@.payloads == old(r)@.payloads,
        found == reachable(old(r)@.arcs, src as int, dst as int),
        !found ==> final(r)@.arcs == old(r)@.arcs,
        found ==> exists|walk: Seq<int>, amount: int|
            amount >= 1 && is_augmentation(
                old(r)@.arcs,
                final(r)@.arcs,
                src as int,
                dst as int,
                walk,
                amount,
            ),
{
    let tree = breadth_first(r, src);
    let n = r.node_count();
    let ghost before = r@.arcs;
    if dst >= n {
        proof {
            if reachable(before, src as int, dst as int) {
                let walk = choose|walk: Seq<int>| is_walk(before, walk, src as int, dst as int);
                lemma_walk_within(before, n as nat, walk, src as int, dst as int);
            }
        }
        return false;
    }
    proof {
        lemma_tree_reaches(tree, before, n as nat, src as int, dst as int);
    }
    if !tree.visited[dst] {
        return false;
    }
    let (path, amount) = trace_back(r, &tree, src, dst);
    let ghost walk = walk_of(path@);
    push_along(r, &path, amount, Ghost(src as int), Ghost(dst as int));
    proof {
        lemma_augmented_residual(before, r@.arcs, walk, amount as int);
        assert forall|other: Seq<int>| #[trigger]
            is_walk(before, other, src as int, dst as int) implies walk.len() <= other.len() by {
            lemma_tree_depth_least(tree, before, n as nat, src as int, other, dst as int);
        }
        assert(is_augmentation(before, r@.arcs, src as int, dst as int, walk, amount as int));
    }
    true
}

} // verus!
