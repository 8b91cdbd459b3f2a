//! Breadth-first layers: what a registry that is filled in breadth-first
//! order knows about the graph, and why its parent chains are shortest walks.
//!
//! The registry is read as three sequences of one length: the nodes in the
//! order of their discovery, the position of each node's parent (`usize::MAX`
//! for a start node), and each node's depth. A cursor parts the nodes whose
//! successors have all been looked at from the nodes that still wait.

use crate::graph::{
    lemma_walk_prefix, lemma_walk_take, lemma_walk_turned, reverses, step_at,
    walk_from,
};
use vstd::prelude::*;

verus! {

/// `b` is registered at a depth of at most `d`.
pub open spec fn reached_within(nodes: Seq<u64>, depth: Seq<nat>, b: u64, d: nat) -> bool {
    exists|k: int| 0 <= k < nodes.len() && #[trigger] nodes[k] == b && depth[k] <= d
}

/// The entry at `j` is a start node at depth 0, or hangs by a step of `may`
/// below an earlier entry, one level deeper than it.
pub open spec fn hangs(
    may: spec_fn(u64, u64) -> bool,
    starts: Seq<u64>,
    nodes: Seq<u64>,
    link: Seq<usize>,
    depth: Seq<nat>,
    j: int,
) -> bool {
    if depth[j] == 0 {
        starts.contains(nodes[j]) && link[j] == usize::MAX
    } else {
        &&& link[j] < j
        &&& depth[j] == depth[link[j] as int] + 1
        &&& may(nodes[link[j] as int], nodes[j])
    }
}

/// The state of a breadth-first exploration from `starts`: the entries are
/// in the order of their depth, no entry lies more than one level below the
/// cursor, and every `must` successor of a node before the cursor is
/// registered no more than one level below that node.
#[verifier::opaque]
pub open spec fn layered(
    may: spec_fn(u64, u64) -> bool,
    must: spec_fn(u64, u64) -> bool,
    starts: Seq<u64>,
    nodes: Seq<u64>,
    link: Seq<usize>,
    depth: Seq<nat>,
    cursor: int,
) -> bool {
    &&& nodes.no_duplicates()
    &&& nodes.len() <= usize::MAX
    &&& link.len() == nodes.len()
    &&& depth.len() == nodes.len()
    &&& 0 <= cursor <= nodes.len()
    &&& forall|s: u64| #[trigger] starts.contains(s) ==> reached_within(nodes, depth, s, 0)
    &&& forall|j: int| 0 <= j < nodes.len() ==> #[trigger] hangs(may, starts, nodes, link, depth, j)
    &&& forall|j: int, k: int| 0 <= j <= k < nodes.len() ==> #[trigger] depth[j] <= #[trigger] depth[k]
    &&& forall|j: int| 0 <= j < nodes.len() && cursor < nodes.len() ==> #[trigger] depth[j] <= depth[cursor] + 1
    &&& forall|j: int, b: u64|
        0 <= j < cursor && #[trigger] must(nodes[j], b) ==> reached_within(nodes, depth, b, depth[j] + 1)
}

/// The position before `k` in `trail` is the parent of the position at `k`.
pub open spec fn hangs_at(link: Seq<usize>, trail: Seq<int>, k: int) -> bool {
    link[trail[k]] == trail[k - 1]
}

/// The positions from a start node down to `end`, each the parent of the
/// next.
pub open spec fn is_trail(link: Seq<usize>, trail: Seq<int>, end: int) -> bool {
    &&& trail.len() >= 1
    &&& trail.last() == end
    &&& forall|k: int| 0 <= k < trail.len() ==> 0 <= #[trigger] trail[k] < link.len()
    &&& link[trail[0]] >= link.len()
    &&& forall|k: int| 1 <= k < trail.len() ==> #[trigger] hangs_at(link, trail, k)
}

/// The nodes at the positions of `trail`.
pub open spec fn nodes_at(nodes: Seq<u64>, trail: Seq<int>) -> Seq<u64> {
    Seq::new(trail.len(), |k: int| nodes[trail[k]])
}

/// A registry that holds the start nodes and nothing else, each at depth 0
/// and without a parent, is the state before the first node is expanded.
pub proof fn lemma_seeded(
    may: spec_fn(u64, u64) -> bool,
    must: spec_fn(u64, u64) -> bool,
    starts: Seq<u64>,
    nodes: Seq<u64>,
    link: Seq<usize>,
    depth: Seq<nat>,
)
    requires
        nodes.no_duplicates(),
        nodes.len() <= usize::MAX,
        link.len() == nodes.len(),
        depth.len() == nodes.len(),
        forall|j: int|
            0 <= j < nodes.len() ==> {
                &&& starts.contains(#[trigger] nodes[j])
                &&& link[j] == usize::MAX
                &&& depth[j] == 0
            },
        forall|t: int| 0 <= t < starts.len() ==> nodes.contains(#[trigger] starts[t]),
    ensures
        layered(may, must, starts, nodes, link, depth, 0),
{
    reveal(layered);
    assert forall|x: u64| #[trigger] starts.contains(x)
        implies reached_within(nodes, depth, x, 0) by {
        let t = choose|t: int| 0 <= t < starts.len() && starts[t] == x;
        assert(nodes.contains(starts[t]));
        let k = choose|k: int| 0 <= k < nodes.len() && nodes[k] == x;
        assert(nodes[k] == x && depth[k] == 0);
    }
    assert forall|j: int| 0 <= j < nodes.len()
        implies #[trigger] hangs(may, starts, nodes, link, depth, j) by {
        assert(starts.contains(nodes[j]));
    }
    assert forall|j: int| 0 <= j < nodes.len() implies #[trigger] depth[j] == 0 by {
        assert(starts.contains(nodes[j]));
    }
}

/// The plain facts of a layered state: the three sequences have one length,
/// the cursor is a position or the length, and each parent stands before its
/// child.
pub proof fn lemma_layered_shape(
    may: spec_fn(u64, u64) -> bool,
    must: spec_fn(u64, u64) -> bool,
    starts: Seq<u64>,
    nodes: Seq<u64>,
    link: Seq<usize>,
    depth: Seq<nat>,
    cursor: int,
)
    requires
        layered(may, must, starts, nodes, link, depth, cursor),
    ensures
        nodes.no_duplicates(),
        nodes.len() <= usize::MAX,
        link.len() == nodes.len(),
        depth.len() == nodes.len(),
        0 <= cursor <= nodes.len(),
        forall|j: int| 0 <= j < nodes.len() && #[trigger] link[j] < nodes.len() ==> link[j] < j,
{
    reveal(layered);
    assert forall|j: int| 0 <= j < nodes.len() && #[trigger] link[j] < nodes.len()
        implies link[j] < j by {
        assert(hangs(may, starts, nodes, link, depth, j));
    }
}

/// Registering one more node takes nothing back from what was turned down.
pub proof fn lemma_turned_down_push(
    must: spec_fn(u64, u64) -> bool,
    reject: spec_fn(u64) -> bool,
    starts: Seq<u64>,
    nodes: Seq<u64>,
    cursor: int,
    least: nat,
    b: u64,
)
    requires
        turned_down(must, reject, starts, nodes, cursor, least),
        cursor <= nodes.len(),
    ensures
        turned_down(must, reject, starts, nodes.push(b), cursor, least),
{
    reveal(turned_down);
    let after = nodes.push(b);
    assert forall|j: int, c: u64| 0 <= j < cursor && #[trigger] must(after[j], c)
        implies reject(c) by {
        assert(after[j] == nodes[j]);
    }
}

/// Once each `must` successor of the node at the cursor was turned down, the
/// cursor moves on.
pub proof fn lemma_turned_down_advance(
    must: spec_fn(u64, u64) -> bool,
    reject: spec_fn(u64) -> bool,
    starts: Seq<u64>,
    nodes: Seq<u64>,
    cursor: int,
    least: nat,
)
    requires
        turned_down(must, reject, starts, nodes, cursor, least),
        0 <= cursor < nodes.len(),
        forall|b: u64| #[trigger] must(nodes[cursor], b) ==> reject(b),
    ensures
        turned_down(must, reject, starts, nodes, cursor + 1, least),
{
    reveal(turned_down);
}

/// A new node found among the successors of the node at the cursor goes to
/// the end of the registry, one level below the cursor.
#[verifier::rlimit(50)]
pub proof fn lemma_discover(
    may: spec_fn(u64, u64) -> bool,
    must: spec_fn(u64, u64) -> bool,
    starts: Seq<u64>,
    nodes: Seq<u64>,
    link: Seq<usize>,
    depth: Seq<nat>,
    cursor: int,
    b: u64,
)
    requires
        layered(may, must, starts, nodes, link, depth, cursor),
        cursor < nodes.len(),
        nodes.len() < usize::MAX,
        !nodes.contains(b),
        may(nodes[cursor], b),
    ensures
        layered(
            may,
            must,
            starts,
            nodes.push(b),
            link.push(cursor as usize),
            depth.push(depth[cursor] + 1),
            cursor,
        ),
{
    reveal(layered);
    let nodes2 = nodes.push(b);
    let link2 = link.push(cursor as usize);
    let depth2 = depth.push(depth[cursor] + 1);
    assert forall|x: int, y: int| 0 <= x < nodes2.len() && 0 <= y < nodes2.len() && x != y implies nodes2[x]
        != nodes2[y] by {
        if x == nodes.len() {
            assert(nodes.contains(nodes[y]));
        } else if y == nodes.len() {
            assert(nodes.contains(nodes[x]));
        }
    }
    assert forall|s: u64| #[trigger] starts.contains(s)
        implies reached_within(nodes2, depth2, s, 0) by {
        assert(reached_within(nodes, depth, s, 0));
        let k = choose|k: int| 0 <= k < nodes.len() && #[trigger] nodes[k] == s && depth[k] <= 0;
        assert(nodes2[k] == s && depth2[k] <= 0);
    }
    assert forall|j: int| 0 <= j < nodes2.len()
        implies #[trigger] hangs(may, starts, nodes2, link2, depth2, j) by {
        if j < nodes.len() {
            assert(hangs(may, starts, nodes, link, depth, j));
        }
    }
    assert forall|j: int, k: int| 0 <= j <= k < nodes2.len()
        implies #[trigger] depth2[j] <= #[trigger] depth2[k] by {
        if k < nodes.len() {
            assert(depth[j] <= depth[k]);
        } else if j < nodes.len() {
            assert(depth[j] <= depth[cursor] + 1);
        }
    }
    assert forall|j: int| 0 <= j < nodes2.len() && cursor < nodes2.len() implies #[trigger] depth2[j]
        <= depth2[cursor] + 1 by {
        if j < nodes.len() {
            assert(depth[j] <= depth[cursor] + 1);
        }
    }
    assert forall|j: int, c: u64| 0 <= j < cursor && #[trigger] must(nodes2[j], c) implies reached_within(
        nodes2,
        depth2,
        c,
        depth2[j] + 1,
    ) by {
        assert(must(nodes[j], c));
        assert(reached_within(nodes, depth, c, depth[j] + 1));
        let k = choose|k: int|
            0 <= k < nodes.len() && #[trigger] nodes[k] == c && depth[k] <= depth[j] + 1;
        assert(nodes2[k] == c && depth2[k] <= depth2[j] + 1);
    }
}

/// Once every `must` successor of the node at the cursor is registered, the
/// cursor moves on.
pub proof fn lemma_advance(
    may: spec_fn(u64, u64) -> bool,
    must: spec_fn(u64, u64) -> bool,
    starts: Seq<u64>,
    nodes: Seq<u64>,
    link: Seq<usize>,
    depth: Seq<nat>,
    cursor: int,
)
    requires
        layered(may, must, starts, nodes, link, depth, cursor),
        cursor < nodes.len(),
        forall|b: u64| #[trigger] must(nodes[cursor], b) ==> nodes.contains(b),
    ensures
        layered(may, must, starts, nodes, link, depth, cursor + 1),
{
    reveal(layered);
    assert forall|j: int| 0 <= j < nodes.len() && cursor + 1 < nodes.len() implies #[trigger] depth[j]
        <= depth[cursor + 1] + 1 by {
        assert(depth[j] <= depth[cursor] + 1);
        assert(depth[cursor] <= depth[cursor + 1]);
    }
    assert forall|j: int, b: u64| 0 <= j < cursor + 1 && #[trigger] must(nodes[j], b) implies reached_within(
        nodes,
        depth,
        b,
        depth[j] + 1,
    ) by {
        if j == cursor {
            assert(nodes.contains(b));
            let k = choose|k: int| 0 <= k < nodes.len() && nodes[k] == b;
            assert(depth[k] <= depth[cursor] + 1);
            assert(nodes[k] == b);
        }
    }
}

/// The depth of a registered node is the length of the shortest `must` walk
/// that reaches it from a start node; and every such walk that is no longer
/// than the depth of the cursor ends in a registered node.
#[verifier::rlimit(50)]
pub proof fn lemma_walk_depth(
    may: spec_fn(u64, u64) -> bool,
    must: spec_fn(u64, u64) -> bool,
    starts: Seq<u64>,
    nodes: Seq<u64>,
    link: Seq<usize>,
    depth: Seq<nat>,
    cursor: int,
    q: Seq<u64>,
)
    requires
        layered(may, must, starts, nodes, link, depth, cursor),
        walk_from(must, starts, q),
    ensures
        forall|k: int| 0 <= k < nodes.len() && #[trigger] nodes[k] == q.last() ==> depth[k] <= q.len() - 1,
        (cursor == nodes.len() || q.len() - 1 <= depth[cursor]) ==> nodes.contains(q.last()),
    decreases q.len(),
{
    reveal(layered);
    let m = q.len() - 1;
    let x = q.last();
    if m == 0 {
        assert(starts.contains(x));
        assert(reached_within(nodes, depth, x, 0));
    } else {
        let q1 = q.drop_last();
        lemma_walk_prefix(must, q);
        assert(q1[0] == q[0]);
        lemma_walk_depth(may, must, starts, nodes, link, depth, cursor, q1);
        let y = q1.last();
        assert(y == q[m - 1]);
        assert(step_at(must, q, m - 1));
        assert(must(y, x));
        if nodes.contains(y) {
            let ky = choose|k: int| 0 <= k < nodes.len() && nodes[k] == y;
            assert(nodes[ky] == y);
            assert(depth[ky] <= m - 1);
            if ky < cursor {
                assert(reached_within(nodes, depth, x, depth[ky] + 1));
            } else {
                assert(depth[cursor] <= depth[ky]);
                assert forall|k: int| 0 <= k < nodes.len() && #[trigger] nodes[k] == x
                    implies depth[k] <= m by {
                    assert(depth[k] <= depth[cursor] + 1);
                }
            }
        } else {
            assert forall|k: int| 0 <= k < nodes.len() && #[trigger] nodes[k] == x
                implies depth[k] <= m by {
                assert(depth[k] <= depth[cursor] + 1);
            }
        }
    }
}

/// Every node that the search has tested was turned down: the start nodes,
/// where the search tests them, and each `must` successor of a node before
/// the cursor.
#[verifier::opaque]
pub open spec fn turned_down(
    must: spec_fn(u64, u64) -> bool,
    reject: spec_fn(u64) -> bool,
    starts: Seq<u64>,
    nodes: Seq<u64>,
    cursor: int,
    least: nat,
) -> bool {
    &&& least <= 1 ==> forall|s: u64| #[trigger] starts.contains(s) ==> reject(s)
    &&& forall|j: int, b: u64| 0 <= j < cursor && #[trigger] must(nodes[j], b) ==> reject(b)
}

/// A walk from a start node with no more steps than the depth of the cursor
/// ends in a node that was turned down; once the cursor has passed every
/// entry, each walk from a start node does.
pub proof fn lemma_short_walk_turned_down(
    may: spec_fn(u64, u64) -> bool,
    must: spec_fn(u64, u64) -> bool,
    reject: spec_fn(u64) -> bool,
    starts: Seq<u64>,
    nodes: Seq<u64>,
    link: Seq<usize>,
    depth: Seq<nat>,
    cursor: int,
    least: nat,
    q: Seq<u64>,
)
    requires
        layered(may, must, starts, nodes, link, depth, cursor),
        turned_down(must, reject, starts, nodes, cursor, least),
        walk_from(must, starts, q),
        q.len() >= least,
        cursor == nodes.len() || q.len() - 1 <= depth[cursor],
    ensures
        reject(q.last()),
{
    reveal(turned_down);
    reveal(layered);
    let m = q.len() - 1;
    if m == 0 {
        assert(starts.contains(q.last()));
    } else {
        let q1 = q.drop_last();
        lemma_walk_prefix(must, q);
        assert(q1[0] == q[0]);
        lemma_walk_depth(may, must, starts, nodes, link, depth, cursor, q1);
        let y = q1.last();
        assert(nodes.contains(y));
        let ky = choose|k: int| 0 <= k < nodes.len() && nodes[k] == y;
        assert(nodes[ky] == y);
        assert(depth[ky] <= m - 1);
        if ky >= cursor {
            assert(depth[cursor] <= depth[ky]);
        }
        assert(must(nodes[ky], q.last()));
    }
}

/// Along a trail the depth grows by one from entry to entry, starting at 0.
pub proof fn lemma_trail_depth(
    may: spec_fn(u64, u64) -> bool,
    must: spec_fn(u64, u64) -> bool,
    starts: Seq<u64>,
    nodes: Seq<u64>,
    link: Seq<usize>,
    depth: Seq<nat>,
    cursor: int,
    trail: Seq<int>,
    end: int,
    k: int,
)
    requires
        layered(may, must, starts, nodes, link, depth, cursor),
        is_trail(link, trail, end),
        0 <= k < trail.len(),
    ensures
        depth[trail[k]] == k,
    decreases k,
{
    reveal(layered);
    let j = trail[k];
    assert(hangs(may, starts, nodes, link, depth, j));
    if k > 0 {
        lemma_trail_depth(may, must, starts, nodes, link, depth, cursor, trail, end, k - 1);
        assert(hangs_at(link, trail, k));
    }
}

/// The nodes along a trail form a walk of `may` steps from a start node, with
/// as many steps as the depth of the trail's end.
pub proof fn lemma_trail_walk(
    may: spec_fn(u64, u64) -> bool,
    must: spec_fn(u64, u64) -> bool,
    starts: Seq<u64>,
    nodes: Seq<u64>,
    link: Seq<usize>,
    depth: Seq<nat>,
    cursor: int,
    trail: Seq<int>,
    end: int,
)
    requires
        layered(may, must, starts, nodes, link, depth, cursor),
        is_trail(link, trail, end),
    ensures
        walk_from(may, starts, nodes_at(nodes, trail)),
        nodes_at(nodes, trail).len() == depth[end] + 1,
        nodes_at(nodes, trail).last() == nodes[end],
{
    reveal(layered);
    let p = nodes_at(nodes, trail);
    lemma_trail_depth(may, must, starts, nodes, link, depth, cursor, trail, end, trail.len() - 1);
    lemma_trail_depth(may, must, starts, nodes, link, depth, cursor, trail, end, 0);
    assert(hangs(may, starts, nodes, link, depth, trail[0]));
    assert forall|k: int| 0 <= k < p.len() - 1 implies #[trigger] step_at(may, p, k) by {
        lemma_trail_depth(may, must, starts, nodes, link, depth, cursor, trail, end, k + 1);
        let j = trail[k + 1];
        assert(hangs_at(link, trail, k + 1));
        assert(hangs(may, starts, nodes, link, depth, j));
    }
}

/// Every entry has a trail: the chain of parents from a start node down to
/// it.
pub proof fn lemma_trail_exists(
    may: spec_fn(u64, u64) -> bool,
    must: spec_fn(u64, u64) -> bool,
    starts: Seq<u64>,
    nodes: Seq<u64>,
    link: Seq<usize>,
    depth: Seq<nat>,
    cursor: int,
    end: int,
) -> (trail: Seq<int>)
    requires
        layered(may, must, starts, nodes, link, depth, cursor),
        0 <= end < nodes.len(),
    ensures
        is_trail(link, trail, end),
    decreases end,
{
    reveal(layered);
    assert(hangs(may, starts, nodes, link, depth, end));
    if depth[end] == 0 {
        seq![end]
    } else {
        let above = lemma_trail_exists(may, must, starts, nodes, link, depth, cursor, link[end] as int);
        let trail = above.push(end);
        assert forall|k: int| 1 <= k < trail.len() implies #[trigger] hangs_at(link, trail, k) by {
            if k < above.len() {
                assert(hangs_at(link, above, k));
                assert(trail[k] == above[k]);
                assert(trail[k - 1] == above[k - 1]);
            }
        }
        assert(trail[0] == above[0]);
        trail
    }
}

/// Breadth-first order: a node that was registered no later than another is
/// reached by a walk of `may` steps that is no longer than any walk of
/// `must` steps to the other.
pub proof fn lemma_earlier_is_nearer(
    may: spec_fn(u64, u64) -> bool,
    must: spec_fn(u64, u64) -> bool,
    starts: Seq<u64>,
    nodes: Seq<u64>,
    link: Seq<usize>,
    depth: Seq<nat>,
    cursor: int,
    j: int,
    k: int,
    q: Seq<u64>,
) -> (p: Seq<u64>)
    requires
        layered(may, must, starts, nodes, link, depth, cursor),
        0 <= j <= k < nodes.len(),
        walk_from(must, starts, q),
        q.last() == nodes[k],
    ensures
        walk_from(may, starts, p),
        p.last() == nodes[j],
        p.len() <= q.len(),
{
    let trail = lemma_trail_exists(may, must, starts, nodes, link, depth, cursor, j);
    lemma_trail_walk(may, must, starts, nodes, link, depth, cursor, trail, j);
    lemma_walk_depth(may, must, starts, nodes, link, depth, cursor, q);
    reveal(layered);
    assert(depth[j] <= depth[k]);
    nodes_at(nodes, trail)
}

/// Once the cursor has passed every entry, the registry holds exactly what
/// can be reached: each node at the end of a walk of `must` steps from a
/// start node is registered.
pub proof fn lemma_exhausted_holds_all(
    may: spec_fn(u64, u64) -> bool,
    must: spec_fn(u64, u64) -> bool,
    starts: Seq<u64>,
    nodes: Seq<u64>,
    link: Seq<usize>,
    depth: Seq<nat>,
    q: Seq<u64>,
)
    requires
        layered(may, must, starts, nodes, link, depth, nodes.len() as int),
        walk_from(must, starts, q),
    ensures
        nodes.contains(q.last()),
{
    lemma_walk_depth(may, must, starts, nodes, link, depth, nodes.len() as int, q);
}

/// The cursor stands at the first entry of the deepest layer, or past the
/// last entry.
pub open spec fn at_boundary(depth: Seq<nat>, cursor: int) -> bool {
    cursor < depth.len() ==> forall|j: int| 0 <= j < depth.len() ==> #[trigger] depth[j] <= depth[cursor]
}

/// No successor of a node before the cursor of one side is registered on
/// the other side: the search from both ends has not met there.
#[verifier::opaque]
pub open spec fn unmet(must: spec_fn(u64, u64) -> bool, nodes: Seq<u64>, cursor: int, far: Seq<u64>) -> bool {
    forall|j: int, b: u64| 0 <= j < cursor && j < nodes.len() && #[trigger] must(nodes[j], b) ==> !far.contains(b)
}

/// Before a side has expanded a node, it has met nothing.
pub proof fn lemma_unmet_start(must: spec_fn(u64, u64) -> bool, nodes: Seq<u64>, far: Seq<u64>)
    ensures
        unmet(must, nodes, 0, far),
{
    reveal(unmet);
}

/// Once no successor of the node at the cursor was found on the other side,
/// the cursor moves on.
pub proof fn lemma_unmet_advance(must: spec_fn(u64, u64) -> bool, nodes: Seq<u64>, cursor: int, far: Seq<u64>)
    requires
        unmet(must, nodes, cursor, far),
        0 <= cursor < nodes.len(),
        forall|b: u64| #[trigger] must(nodes[cursor], b) ==> !far.contains(b),
    ensures
        unmet(must, nodes, cursor + 1, far),
{
    reveal(unmet);
}

/// A node that is new on a side takes nothing back from what that side has
/// not met.
pub proof fn lemma_unmet_push(
    must: spec_fn(u64, u64) -> bool,
    nodes: Seq<u64>,
    cursor: int,
    far: Seq<u64>,
    x: u64,
)
    requires
        unmet(must, nodes, cursor, far),
        cursor <= nodes.len(),
    ensures
        unmet(must, nodes.push(x), cursor, far),
{
    reveal(unmet);
    let longer = nodes.push(x);
    assert forall|j: int, b: u64|
        0 <= j < cursor && j < longer.len() && #[trigger] must(longer[j], b) implies !far.contains(b) by {
        assert(longer[j] == nodes[j]);
    }
}

/// A node that is not registered on a side can be registered on the other
/// side: it is no successor of a node that the first side has expanded, for
/// those are all registered there.
pub proof fn lemma_unmet_other_grows(
    may: spec_fn(u64, u64) -> bool,
    must: spec_fn(u64, u64) -> bool,
    roots: Seq<u64>,
    nodes: Seq<u64>,
    link: Seq<usize>,
    depth: Seq<nat>,
    cursor: int,
    far: Seq<u64>,
    x: u64,
)
    requires
        layered(may, must, roots, nodes, link, depth, cursor),
        unmet(must, nodes, cursor, far),
        !nodes.contains(x),
    ensures
        unmet(must, nodes, cursor, far.push(x)),
{
    reveal(unmet);
    reveal(layered);
    let longer = far.push(x);
    assert forall|j: int, b: u64|
        0 <= j < cursor && j < nodes.len() && #[trigger] must(nodes[j], b) implies !longer.contains(b) by {
        assert(!far.contains(b));
        assert(reached_within(nodes, depth, b, depth[j] + 1));
        assert(nodes.contains(b));
        if longer.contains(b) {
            let k = choose|k: int| 0 <= k < longer.len() && longer[k] == b;
            if k < far.len() {
                assert(far[k] == b);
                assert(far.contains(b));
            }
        }
    }
}

/// The walk `q` runs inside one side of a search from both ends for its
/// first `a` steps: the node at each position up to `a` is registered, and
/// from position 1 on it is a successor of a node before the cursor.
pub open spec fn runs_inside(
    must: spec_fn(u64, u64) -> bool,
    nodes: Seq<u64>,
    cursor: int,
    q: Seq<u64>,
    a: int,
) -> bool {
    forall|k: int|
        0 <= k <= a ==> #[trigger] nodes.contains(q[k]) && (k >= 1 ==> exists|j: int|
            0 <= j < cursor && j < nodes.len() && nodes[j] == q[k - 1])
}

/// A walk from a root runs inside the side of that root for as many steps as
/// the depth of the cursor, or for all its steps once the cursor has passed
/// every entry.
pub proof fn lemma_runs_inside(
    may: spec_fn(u64, u64) -> bool,
    must: spec_fn(u64, u64) -> bool,
    roots: Seq<u64>,
    nodes: Seq<u64>,
    link: Seq<usize>,
    depth: Seq<nat>,
    cursor: int,
    q: Seq<u64>,
    a: int,
)
    requires
        layered(may, must, roots, nodes, link, depth, cursor),
        walk_from(must, roots, q),
        0 <= a < q.len(),
        cursor == nodes.len() || a <= depth[cursor],
    ensures
        runs_inside(must, nodes, cursor, q, a),
{
    lemma_layered_shape(may, must, roots, nodes, link, depth, cursor);
    lemma_depth_order(may, must, roots, nodes, link, depth, cursor);
    assert forall|k: int| 0 <= k <= a implies #[trigger] nodes.contains(q[k]) && (k >= 1 ==> exists|j: int|
        0 <= j < cursor && j < nodes.len() && nodes[j] == q[k - 1]) by {
        let front = q.take(k + 1);
        lemma_walk_take(must, q, k + 1);
        assert(front[0] == q[0]);
        assert(front.last() == q[k]);
        lemma_walk_depth(may, must, roots, nodes, link, depth, cursor, front);
        if k >= 1 {
            let before = q.take(k);
            lemma_walk_take(must, q, k);
            assert(before[0] == q[0]);
            assert(before.last() == q[k - 1]);
            lemma_walk_depth(may, must, roots, nodes, link, depth, cursor, before);
            let j = choose|j: int| 0 <= j < nodes.len() && nodes[j] == q[k - 1];
            assert(nodes[j] == before.last());
            assert(depth[j] <= k - 1);
            if cursor < nodes.len() && j >= cursor {
                assert(depth[cursor] <= depth[j]);
            }
            assert(0 <= j < cursor && j < nodes.len() && nodes[j] == q[k - 1]);
        }
    }
}

/// While the two sides of a search from both ends have not met, every walk
/// with a step in it that leads from a start node to an end node has more
/// steps than the two sides have explored between them: more than the depths
/// of the two cursors together. If one side has explored all that it can
/// reach, there is no such walk.
pub proof fn lemma_sides_unmet(
    may_s: spec_fn(u64, u64) -> bool,
    must_s: spec_fn(u64, u64) -> bool,
    starts: Seq<u64>,
    nodes_f: Seq<u64>,
    link_f: Seq<usize>,
    depth_f: Seq<nat>,
    cursor_f: int,
    may_p: spec_fn(u64, u64) -> bool,
    must_p: spec_fn(u64, u64) -> bool,
    ends: Seq<u64>,
    nodes_b: Seq<u64>,
    link_b: Seq<usize>,
    depth_b: Seq<nat>,
    cursor_b: int,
    q: Seq<u64>,
)
    requires
        layered(may_s, must_s, starts, nodes_f, link_f, depth_f, cursor_f),
        layered(may_p, must_p, ends, nodes_b, link_b, depth_b, cursor_b),
        unmet(must_s, nodes_f, cursor_f, nodes_b),
        unmet(must_p, nodes_b, cursor_b, nodes_f),
        reverses(must_s, must_p),
        walk_from(must_s, starts, q),
        ends.contains(q.last()),
        q.len() >= 2,
    ensures
        cursor_f < nodes_f.len(),
        cursor_b < nodes_b.len(),
        q.len() - 1 >= depth_f[cursor_f] + 1 + depth_b[cursor_b],
{
    lemma_layered_shape(may_s, must_s, starts, nodes_f, link_f, depth_f, cursor_f);
    lemma_layered_shape(may_p, must_p, ends, nodes_b, link_b, depth_b, cursor_b);
    let m = q.len() - 1;
    let a = if cursor_f == nodes_f.len() || m <= depth_f[cursor_f] {
        m
    } else {
        depth_f[cursor_f] as int
    };
    let b = if cursor_b == nodes_b.len() || m <= depth_b[cursor_b] {
        m
    } else {
        depth_b[cursor_b] as int
    };
    if m <= a + b {
        let back = q.reverse();
        lemma_walk_turned(must_s, must_p, q, 0);
        assert(q.skip(0) =~= q);
        assert(back[0] == q.last());
        lemma_runs_inside(may_s, must_s, starts, nodes_f, link_f, depth_f, cursor_f, q, a);
        lemma_runs_inside(may_p, must_p, ends, nodes_b, link_b, depth_b, cursor_b, back, b);
        reveal(unmet);
        if a >= 1 {
            // the node at `a` is registered on the backward side, and is a
            // successor of a node that the forward side has expanded
            assert(nodes_f.contains(q[a]));
            let j = choose|j: int| 0 <= j < cursor_f && j < nodes_f.len() && nodes_f[j] == q[a - 1];
            assert(step_at(must_s, q, a - 1));
            assert(must_s(nodes_f[j], q[a]));
            assert(nodes_b.contains(back[m - a]));
            assert(back[m - a] == q[a]);
            assert(false);
        } else {
            // the first node is registered on the forward side, and is a
            // predecessor of a node that the backward side has expanded
            assert(b == m);
            assert(nodes_b.contains(back[m]));
            let j = choose|j: int| 0 <= j < cursor_b && j < nodes_b.len() && nodes_b[j] == back[m - 1];
            assert(step_at(must_p, back, m - 1));
            assert(must_p(nodes_b[j], back[m]));
            assert(back[m] == q[0]);
            assert(starts.contains(q[0]));
            reveal(layered);
            assert(reached_within(nodes_f, depth_f, q[0], 0));
            assert(nodes_f.contains(q[0]));
            assert(false);
        }
    }
}

/// What the parent position of an entry says: an entry whose parent
/// position is no position is a start node at depth 0, and any other entry
/// lies one level below its parent, a step of `may` away from it.
pub proof fn lemma_link_step(
    may: spec_fn(u64, u64) -> bool,
    must: spec_fn(u64, u64) -> bool,
    starts: Seq<u64>,
    nodes: Seq<u64>,
    link: Seq<usize>,
    depth: Seq<nat>,
    cursor: int,
    j: int,
)
    requires
        layered(may, must, starts, nodes, link, depth, cursor),
        0 <= j < nodes.len(),
    ensures
        link[j] >= nodes.len() ==> starts.contains(nodes[j]) && depth[j] == 0,
        link[j] < nodes.len() ==> {
            &&& link[j] < j
            &&& depth[j] == depth[link[j] as int] + 1
            &&& may(nodes[link[j] as int], nodes[j])
        },
{
    reveal(layered);
    assert(hangs(may, starts, nodes, link, depth, j));
}

/// The entries stand in the order of their depth, and none lies more than
/// one level below the cursor.
pub proof fn lemma_depth_order(
    may: spec_fn(u64, u64) -> bool,
    must: spec_fn(u64, u64) -> bool,
    starts: Seq<u64>,
    nodes: Seq<u64>,
    link: Seq<usize>,
    depth: Seq<nat>,
    cursor: int,
)
    requires
        layered(may, must, starts, nodes, link, depth, cursor),
    ensures
        forall|k: int| 0 <= k < nodes.len() && cursor < nodes.len() ==> #[trigger] depth[k] <= depth[cursor] + 1,
        forall|a: int, b: int| 0 <= a <= b < nodes.len() ==> #[trigger] depth[a] <= #[trigger] depth[b],
{
    reveal(layered);
}

} // verus!
