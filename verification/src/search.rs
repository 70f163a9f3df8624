//! Breadth-first search along the arcs of positive weight.

use crate::network::{arcs_within, Arc, Network};
use crate::walk::{
    is_walk, lemma_walk_drop_last, lemma_walk_push, lemma_walk_stays, lemma_walk_within, reachable,
};
use std::collections::VecDeque;
use vstd::prelude::*;

verus! {

/// What a search from one node found: the nodes that it reached and, for each
/// of them but the first, the arc by which it was reached.
pub struct SearchTree {
    /// For each node, whether the search reached it.
    pub visited: Vec<bool>,
    /// For each node reached, the number of the arc by which it was reached.
    pub parent: Vec<usize>,
    /// For each node reached, the number of arcs between the start and it.
    pub depth: Ghost<Seq<nat>>,
}

impl SearchTree {
    /// Node `v` was reached by its parent arc from a node reached before it.
    pub open spec fn hangs(&self, arcs: Seq<Arc>, v: int) -> bool {
        let e = self.parent@[v] as int;
        &&& e < arcs.len()
        &&& arcs[e].head == v
        &&& arcs[e].weight > 0
        &&& arcs[e].tail < self.visited@.len()
        &&& self.visited@[arcs[e].tail as int]
        &&& self.depth@[v] == self.depth@[arcs[e].tail as int] + 1
    }

    /// The tree covers `order` nodes, holds `src` if that is one of them, and
    /// every other node in it hangs by its parent arc.
    pub open spec fn rooted(&self, arcs: Seq<Arc>, order: nat, src: int) -> bool {
        &&& self.visited@.len() == order
        &&& self.parent@.len() == order
        &&& self.depth@.len() == order
        &&& (0 <= src < order ==> self.visited@[src] && self.depth@[src] == 0)
        &&& forall|v: int|
            0 <= v < order && self.visited@[v] && v != src ==> #[trigger] self.hangs(arcs, v)
    }

    /// No arc of positive weight leads out of the tree.
    pub open spec fn closed(&self, arcs: Seq<Arc>) -> bool {
        forall|e: int|
            0 <= e < arcs.len() && (#[trigger] arcs[e]).tail < self.visited@.len()
                && self.visited@[arcs[e].tail as int] && arcs[e].weight > 0
                ==> arcs[e].head < self.visited@.len() && self.visited@[arcs[e].head as int]
    }

    /// No arc of positive weight leads from a node of the tree to a node that
    /// is more than one arc deeper.
    pub open spec fn levelled(&self, arcs: Seq<Arc>) -> bool {
        forall|e: int|
            0 <= e < arcs.len() && (#[trigger] arcs[e]).tail < self.visited@.len()
                && self.visited@[arcs[e].tail as int] && arcs[e].weight > 0 && arcs[e].head
                < self.visited@.len() ==> self.depth@[arcs[e].head as int]
                    <= self.depth@[arcs[e].tail as int]
                + 1
    }

    /// The nodes of the tree.
    pub open spec fn nodes(&self) -> Set<int> {
        Set::new(|v: int| 0 <= v < self.visited@.len() && self.visited@[v])
    }

    /// Every entry of `queue` is a node of the tree, at least `floor` deep.
    spec fn holds(&self, queue: Seq<usize>, floor: nat) -> bool {
        forall|i: int|
            0 <= i < queue.len() ==> #[trigger] queue[i] < self.visited@.len()
                && self.visited@[queue[i] as int] && self.depth@[queue[i] as int] >= floor
    }

    /// No entry of `queue` is deeper than an entry before it.
    spec fn deepest_first(&self, queue: Seq<usize>) -> bool {
        forall|i: int, j: int|
            0 <= i < j < queue.len() ==> self.depth@[#[trigger] queue[i] as int]
                >= self.depth@[#[trigger] queue[j] as int]
    }

    /// No node of the tree is deeper than `limit`.
    spec fn at_most_deep(&self, limit: nat) -> bool {
        forall|u: int|
            0 <= u < self.visited@.len() && #[trigger] self.visited@[u] ==> self.depth@[u] <= limit
    }

    /// Every node of the tree is in `done` or in `queue`.
    spec fn accounted(&self, done: Set<int>, queue: Seq<usize>) -> bool {
        forall|u: int|
            0 <= u < self.visited@.len() && #[trigger] self.visited@[u] ==> done.contains(u)
                || queue.contains(u as usize)
    }

    /// The nodes in `done` are nodes of the tree, and an arc of positive
    /// weight that leaves one of them enters a node of the tree that is at
    /// most one arc deeper.
    spec fn settled(&self, arcs: Seq<Arc>, done: Set<int>) -> bool {
        &&& forall|u: int| done.contains(u) ==> 0 <= u < self.visited@.len() && self.visited@[u]
        &&& forall|e: int|
            0 <= e < arcs.len() && done.contains((#[trigger] arcs[e]).tail as int) && arcs[e].weight
                > 0 ==> self.reaches(arcs[e])
    }

    /// The head of `arc` is a node of the tree, at most one arc deeper than
    /// the tail.
    spec fn reaches(&self, arc: Arc) -> bool {
        &&& arc.head < self.visited@.len()
        &&& self.visited@[arc.head as int]
        &&& self.depth@[arc.head as int] <= self.depth@[arc.tail as int] + 1
    }
}

/// The number of entries of `marks` that are not set.
pub open spec fn count_unset(marks: Seq<bool>) -> nat
    decreases marks.len(),
{
    if marks.len() == 0 {
        0
    } else {
        count_unset(marks.drop_last()) + if marks.last() {
            0nat
        } else {
            1nat
        }
    }
}

/// Setting an entry that was not set lowers the count by one.
pub proof fn lemma_count_unset_update(marks: Seq<bool>, at: int)
    requires
        0 <= at < marks.len(),
        !marks[at],
    ensures
        count_unset(marks.update(at, true)) + 1 == count_unset(marks),
    decreases marks.len(),
{
    let after = marks.update(at, true);
    if at == marks.len() - 1 {
        assert(after.drop_last() =~= marks.drop_last());
    } else {
        assert(after.drop_last() =~= marks.drop_last().update(at, true));
        lemma_count_unset_update(marks.drop_last(), at);
    }
}

/// A walk from the start to a node of the tree, as long as the node is deep.
pub proof fn lemma_tree_walk(
    tree: SearchTree,
    arcs: Seq<Arc>,
    order: nat,
    src: int,
    v: int,
) -> (walk: Seq<int>)
    requires
        tree.rooted(arcs, order, src),
        0 <= v < order,
        tree.visited@[v],
    ensures
        is_walk(arcs, walk, src, v),
        walk.len() == tree.depth@[v],
    decreases tree.depth@[v],
{
    if v == src {
        Seq::empty()
    } else {
        assert(tree.hangs(arcs, v));
        let e = tree.parent@[v] as int;
        let before = lemma_tree_walk(tree, arcs, order, src, arcs[e].tail as int);
        lemma_walk_push(arcs, before, src, arcs[e].tail as int, e);
        before.push(e)
    }
}

/// A closed tree holds exactly the nodes that can be reached from its start.
pub proof fn lemma_tree_reaches(tree: SearchTree, arcs: Seq<Arc>, order: nat, src: int, v: int)
    requires
        tree.rooted(arcs, order, src),
        tree.closed(arcs),
        arcs_within(arcs, order),
        0 <= v < order,
    ensures
        tree.visited@[v] <==> 0 <= src < order && reachable(arcs, src, v),
{
    if tree.visited@[v] {
        let walk = lemma_tree_walk(tree, arcs, order, src, v);
        lemma_walk_within(arcs, order, walk, src, v);
    }
    if 0 <= src < order && reachable(arcs, src, v) {
        let walk = choose|walk: Seq<int>| is_walk(arcs, walk, src, v);
        lemma_walk_stays(arcs, walk, src, v, tree.nodes());
    }
}

/// In a closed and levelled tree no node lies deeper than a walk from the
/// start to it is long.
pub proof fn lemma_tree_depth_least(
    tree: SearchTree,
    arcs: Seq<Arc>,
    order: nat,
    src: int,
    walk: Seq<int>,
    v: int,
)
    requires
        tree.rooted(arcs, order, src),
        tree.closed(arcs),
        tree.levelled(arcs),
        arcs_within(arcs, order),
        0 <= src < order,
        is_walk(arcs, walk, src, v),
    ensures
        0 <= v < order,
        tree.visited@[v],
        tree.depth@[v] <= walk.len(),
    decreases walk.len(),
{
    if walk.len() > 0 {
        let e = walk.last();
        lemma_walk_drop_last(arcs, walk, src, v);
        lemma_tree_depth_least(tree, arcs, order, src, walk.drop_last(), arcs[e].tail as int);
        assert(arcs[e].head < order);
    }
}

/// A vector of `n` entries, each of them `value`.
fn filled<T: Copy>(n: usize, value: T) -> (v: Vec<T>)
    ensures
        v@.len() == n,
        forall|i: int| 0 <= i < n ==> v@[i] == value,
{
    let mut v: Vec<T> = Vec::new();
    let mut i: usize = 0;
    while i < n
        invariant
            i <= n,
            v@.len() == i,
            forall|j: int| 0 <= j < i ==> v@[j] == value,
        decreases n - i,
    {
        v.push(value);
        i += 1;
    }
    v
}

/// Searches the network breadth first from `src`, along the arcs of positive
/// weight, entering each node once. The tree found holds the nodes that `src`
/// reaches, each as deep as the shortest walk from `src` to it is long.
pub fn breadth_first<N>(r: &Network<N>, src: usize) -> (tree: SearchTree)
    requires
        r.wf(),
    ensures
        tree.rooted(r@.arcs, r@.payloads.len(), src as int),
        tree.closed(r@.arcs),
        tree.levelled(r@.arcs),
{
    let n = r.node_count();
    let ghost arcs = r@.arcs;
    let mut tree = SearchTree {
        visited: filled(n, false),
        parent: filled(n, 0usize),
        depth: Ghost(Seq::new(n as nat, |i: int| 0nat)),
    };
    let mut queue: VecDeque<usize> = VecDeque::new();
    if src < n {
        tree.visited.set(src, true);
        queue.push_front(src);
        assert(queue@[0] == src);
    }
    let ghost mut finished: Set<int> = Set::empty();
    while queue.len() > 0
        invariant
            r.wf(),
            arcs == r@.arcs,
            n == r@.payloads.len(),
            tree.rooted(arcs, n as nat, src as int),
            tree.holds(queue@, 0),
            tree.deepest_first(queue@),
            tree.accounted(finished, queue@),
            tree.settled(arcs, finished),
            queue@.len() > 0 ==> tree.at_most_deep(tree.depth@[queue@.last() as int] + 1),
        decreases 2 * count_unset(tree.visited@) + queue@.len(),
    {
        let ghost waiting = queue@;
        let ghost measure = 2 * count_unset(tree.visited@) + queue@.len();
        let v = queue.pop_back().unwrap();
        let ghost level = tree.depth@[v as int];
        let out = r.edges_from(v);
        let mut k: usize = 0;
        proof {
            assert(v == waiting[waiting.len() - 1]);
            assert forall|i: int| 0 <= i < queue@.len() implies #[trigger] queue@[i] < n
                && tree.visited@[queue@[i] as int] && tree.depth@[queue@[i] as int] >= level by {
                assert(queue@[i] == waiting[i]);
            }
            assert forall|i: int, j: int| 0 <= i < j < queue@.len() implies tree.depth@[(
            #[trigger] queue@[i]) as int] >= tree.depth@[(#[trigger] queue@[j]) as int] by {
                assert(queue@[i] == waiting[i]);
                assert(queue@[j] == waiting[j]);
            }
            assert forall|u: int| 0 <= u < n && #[trigger] tree.visited@[u] implies finished.insert(
                v as int,
            ).contains(u) || queue@.contains(u as usize) by {
                if !finished.contains(u) && u != v {
                    let i = choose|i: int| 0 <= i < waiting.len() && waiting[i] == u as usize;
                    assert(queue@[i] == u as usize);
                }
            }
        }
        while k < out.len()
            invariant
                r.wf(),
                arcs == r@.arcs,
                n == r@.payloads.len(),
                v < n,
                tree.visited@[v as int],
                level == tree.depth@[v as int],
                k <= out@.len(),
                forall|j: int|
                    0 <= j < out@.len() ==> #[trigger] out@[j] < arcs.len()
                        && arcs[out@[j] as int].tail
                        == v,
                forall|j: int|
                    0 <= j < k && arcs[#[trigger] out@[j] as int].weight > 0 ==> tree.reaches(
                        arcs[out@[j] as int],
                    ),
                tree.rooted(arcs, n as nat, src as int),
                tree.holds(queue@, level),
                tree.deepest_first(queue@),
                tree.accounted(finished.insert(v as int), queue@),
                tree.settled(arcs, finished),
                tree.at_most_deep(level + 1),
                2 * count_unset(tree.visited@) + queue@.len() < measure,
            decreases out@.len() - k,
        {
            let e = out[k];
            let arc = r.edge(e).unwrap();
            if arc.weight > 0 && !tree.visited[arc.head] {
                let ghost earlier = tree;
                let ghost waiting = queue@;
                proof {
                    lemma_count_unset_update(tree.visited@, arc.head as int);
                }
                tree.visited.set(arc.head, true);
                tree.parent.set(arc.head, e);
                tree.depth = Ghost(tree.depth@.update(arc.head as int, level + 1));
                queue.push_front(arc.head);
                proof {
                    assert(queue@[0] == arc.head);
                    assert forall|i: int| 0 < i < queue@.len() implies queue@[i] == waiting[i - 1]
                        && earlier.visited@[waiting[i - 1] as int] by {}
                    assert forall|u: int| 0 <= u < n && tree.visited@[u] && u != src
                        implies #[trigger] tree.hangs(
                        arcs,
                        u,
                    ) by {
                        if u != arc.head {
                            assert(earlier.hangs(arcs, u));
                        }
                    }
                    assert forall|u: int| 0 <= u < n && #[trigger] tree.visited@[u]
                        implies finished.insert(
                        v as int,
                    ).contains(u) || queue@.contains(u as usize) by {
                        if u != arc.head && !finished.contains(u) && u != v {
                            assert(earlier.visited@[u]);
                            let i = choose|i: int| 0 <= i < waiting.len() && waiting[i]
                                == u as usize;
                            assert(queue@[i + 1] == u as usize);
                        }
                    }
                    assert forall|x: int|
                        0 <= x < arcs.len() && finished.contains((#[trigger] arcs[x]).tail as int)
                            && arcs[x].weight > 0 implies tree.reaches(arcs[x]) by {
                        assert(earlier.reaches(arcs[x]));
                        assert(earlier.visited@[arcs[x].tail as int]);
                    }
                    assert forall|j: int|
                        0 <= j < k && arcs[#[trigger] out@[j] as int].weight > 0
                            implies tree.reaches(
                        arcs[out@[j] as int],
                    ) by {
                        assert(earlier.reaches(arcs[out@[j] as int]));
                    }
                }
            }
            k += 1;
        }
        proof {
            let done = finished.insert(v as int);
            assert forall|e: int|
                0 <= e < arcs.len() && done.contains((#[trigger] arcs[e]).tail as int)
                    && arcs[e].weight
                    > 0 implies tree.reaches(arcs[e]) by {
                if arcs[e].tail == v {
                    let j = choose|j: int| 0 <= j < out@.len() && out@[j] == e as usize;
                    assert(arcs[out@[j] as int].weight > 0);
                }
            }
            finished = done;
        }
    }
    proof {
        assert forall|e: int|
            0 <= e < arcs.len() && (#[trigger] arcs[e]).tail < n
                && tree.visited@[arcs[e].tail as int]
                && arcs[e].weight > 0 implies tree.reaches(arcs[e]) by {
            let t = arcs[e].tail as int;
            assert(tree.visited@[t]);
            assert(finished.contains(t) || queue@.contains(t as usize));
        }
    }
    tree
}

} // verus!
