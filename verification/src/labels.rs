//! Cost labels: what the registry and the frontier of a cost-guided search
//! know at each moment, and why the first goal that leaves the frontier is a
//! cheapest one.
//!
//! Each registered node carries the least cost at which the search has
//! reached it so far. A node is *done* once the search has looked at all its
//! successors at that cost; until then a candidate for it, at that very cost,
//! waits in the frontier. A candidate whose node has since been reached more
//! cheaply stays in the frontier and counts for nothing.

use crate::cost::{
    lemma_total_nonnegative, lemma_total_split, lemma_total_take, sat_add, sat_total, total,
};
use crate::directed::lex_below;
use crate::frontier::SmallestCostHolder;
use crate::graph::{admissible, is_route, lemma_route_skip};
use crate::layers::{hangs_at, is_trail, nodes_at};
use vstd::multiset::Multiset;
use vstd::prelude::*;

verus! {

/// `b` is registered at a cost of at most `bound`.
pub open spec fn within(nodes: Seq<u64>, cost: Seq<u64>, b: u64, bound: int) -> bool {
    exists|j: int| 0 <= j < nodes.len() && #[trigger] nodes[j] == b && cost[j] <= bound
}

/// Every `must` successor of the node at `i` is registered at no more than
/// the cost of that node and the cost of the step to it.
pub open spec fn settled(must: spec_fn(u64, u64, u64) -> bool, nodes: Seq<u64>, cost: Seq<u64>, i: int) -> bool {
    forall|b: u64, c: u64| #[trigger]
        must(nodes[i], b, c) ==> within(nodes, cost, b, sat_add(cost[i] as int, c as int))
}

/// A candidate for the node at `i`, at the cost recorded for that node,
/// waits in the frontier.
pub open spec fn live(heap: Multiset<SmallestCostHolder>, cost: Seq<u64>, i: int) -> bool {
    exists|x: SmallestCostHolder| #[trigger] heap.count(x) > 0 && x.index == i && x.cost == cost[i]
}

/// A candidate makes sense: its node is registered at no more than the
/// candidate's cost, and its estimate is its cost, or its cost and an
/// estimate that the heuristic may give for its node.
pub open spec fn candidate(
    estimate: spec_fn(u64, u64) -> bool,
    nodes: Seq<u64>,
    cost: Seq<u64>,
    x: SmallestCostHolder,
) -> bool {
    &&& x.index < nodes.len()
    &&& x.cost >= cost[x.index as int]
    &&& x.estimated_cost >= x.cost
    &&& x.estimated_cost == x.cost || exists|h: u64| #[trigger]
        estimate(nodes[x.index as int], h) && x.estimated_cost == sat_add(x.cost as int, h as int)
}

/// The state of a cost-guided search from `start`. `busy` is the position
/// of the node whose successors are being looked at, or -1. `found` says
/// that a goal has left the frontier; until then every node that is done
/// was turned down as a goal.
#[verifier::opaque]
pub open spec fn labelled(
    must: spec_fn(u64, u64, u64) -> bool,
    reject: spec_fn(u64) -> bool,
    estimate: spec_fn(u64, u64) -> bool,
    start: u64,
    nodes: Seq<u64>,
    cost: Seq<u64>,
    done: Seq<bool>,
    heap: Multiset<SmallestCostHolder>,
    busy: int,
    found: bool,
) -> bool {
    &&& nodes.no_duplicates()
    &&& nodes.len() >= 1
    &&& nodes.len() <= usize::MAX
    &&& cost.len() == nodes.len()
    &&& done.len() == nodes.len()
    &&& nodes[0] == start
    &&& cost[0] == 0
    &&& forall|x: SmallestCostHolder| #[trigger] heap.count(x) > 0 ==> candidate(estimate, nodes, cost, x)
    &&& forall|i: int| 0 <= i < nodes.len() ==> #[trigger] done[i] || i == busy || live(heap, cost, i)
    &&& forall|i: int|
        0 <= i < nodes.len() && #[trigger] done[i] ==> (found || reject(nodes[i])) && settled(
            must,
            nodes,
            cost,
            i,
        )
}

/// The search begins with the start node registered at cost 0 and one
/// candidate for it.
pub proof fn lemma_labelled_start(
    must: spec_fn(u64, u64, u64) -> bool,
    reject: spec_fn(u64) -> bool,
    estimate: spec_fn(u64, u64) -> bool,
    start: u64,
)
    ensures
        labelled(
            must,
            reject,
            estimate,
            start,
            seq![start],
            seq![0u64],
            seq![false],
            Multiset::empty().insert(SmallestCostHolder { estimated_cost: 0, cost: 0, index: 0 }),
            -1,
            false,
        ),
{
    reveal(labelled);
    broadcast use vstd::multiset::group_multiset_axioms;

    let first = SmallestCostHolder { estimated_cost: 0, cost: 0, index: 0 };
    let heap = Multiset::empty().insert(first);
    assert(heap.count(first) > 0);
    assert(live(heap, seq![0u64], 0));
}

/// The plain facts of a labelled state.
pub proof fn lemma_labelled_shape(
    must: spec_fn(u64, u64, u64) -> bool,
    reject: spec_fn(u64) -> bool,
    estimate: spec_fn(u64, u64) -> bool,
    start: u64,
    nodes: Seq<u64>,
    cost: Seq<u64>,
    done: Seq<bool>,
    heap: Multiset<SmallestCostHolder>,
    busy: int,
    found: bool,
)
    requires
        labelled(must, reject, estimate, start, nodes, cost, done, heap, busy, found),
    ensures
        nodes.len() >= 1,
        cost.len() == nodes.len(),
        done.len() == nodes.len(),
        nodes[0] == start,
        cost[0] == 0,
        forall|x: SmallestCostHolder| #[trigger] heap.count(x) > 0 ==> candidate(estimate, nodes, cost, x),
{
    reveal(labelled);
}

/// A candidate leaves the frontier. If it is the candidate at the cost
/// recorded for its node, the search turns to that node; else it counts for
/// nothing.
pub proof fn lemma_labelled_pop(
    must: spec_fn(u64, u64, u64) -> bool,
    reject: spec_fn(u64) -> bool,
    estimate: spec_fn(u64, u64) -> bool,
    start: u64,
    nodes: Seq<u64>,
    cost: Seq<u64>,
    done: Seq<bool>,
    heap: Multiset<SmallestCostHolder>,
    x: SmallestCostHolder,
    found: bool,
)
    requires
        labelled(must, reject, estimate, start, nodes, cost, done, heap, -1, found),
        heap.count(x) > 0,
    ensures
        x.index < nodes.len(),
        x.cost >= cost[x.index as int],
        x.estimated_cost >= x.cost,
        x.cost == cost[x.index as int] ==> labelled(
            must,
            reject,
            estimate,
            start,
            nodes,
            cost,
            done,
            heap.remove(x),
            x.index as int,
            found,
        ),
        x.cost > cost[x.index as int] ==> labelled(
            must,
            reject,
            estimate,
            start,
            nodes,
            cost,
            done,
            heap.remove(x),
            -1,
            found,
        ),
{
    reveal(labelled);
    broadcast use vstd::multiset::group_multiset_axioms;

    let rest = heap.remove(x);
    assert(candidate(estimate, nodes, cost, x));
    assert forall|y: SmallestCostHolder| #[trigger] rest.count(y) > 0 implies candidate(
        estimate,
        nodes,
        cost,
        y,
    ) by {
        assert(heap.count(y) > 0);
    }
    let busy = if x.cost == cost[x.index as int] {
        x.index as int
    } else {
        -1
    };
    assert forall|i: int| 0 <= i < nodes.len()
        implies #[trigger] done[i] || i == busy || live(rest, cost, i) by {
        if !done[i] && i != busy {
            assert(live(heap, cost, i));
            let y = choose|y: SmallestCostHolder|
                #[trigger] heap.count(y) > 0 && y.index == i && y.cost == cost[i];
            assert(y != x);
            assert(rest.count(y) > 0);
        }
    }
}

/// A successor that was not registered before is registered at the cost of
/// the route through the busy node, with a candidate of its own.
#[verifier::rlimit(50)]
pub proof fn lemma_labelled_discover(
    must: spec_fn(u64, u64, u64) -> bool,
    reject: spec_fn(u64) -> bool,
    estimate: spec_fn(u64, u64) -> bool,
    start: u64,
    nodes: Seq<u64>,
    cost: Seq<u64>,
    done: Seq<bool>,
    heap: Multiset<SmallestCostHolder>,
    busy: int,
    b: u64,
    x: SmallestCostHolder,
    found: bool,
)
    requires
        labelled(must, reject, estimate, start, nodes, cost, done, heap, busy, found),
        !nodes.contains(b),
        nodes.len() < usize::MAX,
        x.index == nodes.len(),
        x.estimated_cost >= x.cost,
        exists|h: u64| #[trigger] estimate(b, h) && x.estimated_cost == sat_add(x.cost as int, h as int),
    ensures
        labelled(
            must,
            reject,
            estimate,
            start,
            nodes.push(b),
            cost.push(x.cost),
            done.push(false),
            heap.insert(x),
            busy,
            found,
        ),
{
    reveal(labelled);
    broadcast use vstd::multiset::group_multiset_axioms;

    let nodes2 = nodes.push(b);
    let cost2 = cost.push(x.cost);
    let done2 = done.push(false);
    let heap2 = heap.insert(x);
    assert forall|s: int, t: int| 0 <= s < nodes2.len() && 0 <= t < nodes2.len() && s != t implies nodes2[s]
        != nodes2[t] by {
        if s == nodes.len() {
            assert(nodes.contains(nodes[t]));
        } else if t == nodes.len() {
            assert(nodes.contains(nodes[s]));
        }
    }
    assert forall|y: SmallestCostHolder| #[trigger] heap2.count(y) > 0 implies candidate(
        estimate,
        nodes2,
        cost2,
        y,
    ) by {
        if y == x {
            let h = choose|h: u64|
                #[trigger] estimate(b, h) && x.estimated_cost == sat_add(x.cost as int, h as int);
            assert(estimate(nodes2[x.index as int], h));
        } else {
            assert(heap.count(y) > 0);
            assert(candidate(estimate, nodes, cost, y));
            if y.estimated_cost != y.cost {
                let h = choose|h: u64| #[trigger]
                    estimate(nodes[y.index as int], h) && y.estimated_cost == sat_add(y.cost as int, h as int);
                assert(estimate(nodes2[y.index as int], h));
            }
        }
    }
    assert forall|i: int| 0 <= i < nodes2.len() implies #[trigger] done2[i] || i == busy || live(
        heap2,
        cost2,
        i,
    ) by {
        if i == nodes.len() {
            assert(heap2.count(x) > 0);
        } else if !done[i] && i != busy {
            assert(live(heap, cost, i));
            let y = choose|y: SmallestCostHolder|
                #[trigger] heap.count(y) > 0 && y.index == i && y.cost == cost[i];
            assert(heap2.count(y) > 0);
        }
    }
    assert forall|i: int| 0 <= i < nodes2.len() && #[trigger] done2[i] implies (found || reject(nodes2[i])) && settled(
        must,
        nodes2,
        cost2,
        i,
    ) by {
        assert(done[i]);
        assert(settled(must, nodes, cost, i));
        assert forall|d: u64, c: u64| #[trigger] must(nodes2[i], d, c) implies within(
            nodes2,
            cost2,
            d,
            sat_add(cost2[i] as int, c as int),
        ) by {
            assert(must(nodes[i], d, c));
            let j = choose|j: int| 0 <= j < nodes.len() && #[trigger] nodes[j] == d && cost[j] <= sat_add(cost[i] as int, c as int);
            assert(nodes2[j] == d && cost2[j] <= sat_add(cost2[i] as int, c as int));
        }
    }
}

/// A registered node that is reached more cheaply through the busy node gets
/// the lower cost and a new candidate, and is no longer done.
#[verifier::rlimit(50)]
pub proof fn lemma_labelled_improve(
    must: spec_fn(u64, u64, u64) -> bool,
    reject: spec_fn(u64) -> bool,
    estimate: spec_fn(u64, u64) -> bool,
    start: u64,
    nodes: Seq<u64>,
    cost: Seq<u64>,
    done: Seq<bool>,
    heap: Multiset<SmallestCostHolder>,
    busy: int,
    x: SmallestCostHolder,
    found: bool,
)
    requires
        labelled(must, reject, estimate, start, nodes, cost, done, heap, busy, found),
        x.index < nodes.len(),
        x.cost < cost[x.index as int],
        x.estimated_cost >= x.cost,
        exists|h: u64| #[trigger]
            estimate(nodes[x.index as int], h) && x.estimated_cost == sat_add(x.cost as int, h as int),
    ensures
        labelled(
            must,
            reject,
            estimate,
            start,
            nodes,
            cost.update(x.index as int, x.cost),
            done.update(x.index as int, false),
            heap.insert(x),
            busy,
            found,
        ),
{
    reveal(labelled);
    broadcast use vstd::multiset::group_multiset_axioms;

    let n = x.index as int;
    let cost2 = cost.update(n, x.cost);
    let done2 = done.update(n, false);
    let heap2 = heap.insert(x);
    assert forall|y: SmallestCostHolder| #[trigger] heap2.count(y) > 0 implies candidate(
        estimate,
        nodes,
        cost2,
        y,
    ) by {
        if y != x {
            assert(heap.count(y) > 0);
            assert(candidate(estimate, nodes, cost, y));
        }
    }
    assert forall|i: int| 0 <= i < nodes.len() implies #[trigger] done2[i] || i == busy || live(
        heap2,
        cost2,
        i,
    ) by {
        if i == n {
            assert(heap2.count(x) > 0);
        } else if !done[i] && i != busy {
            assert(live(heap, cost, i));
            let y = choose|y: SmallestCostHolder|
                #[trigger] heap.count(y) > 0 && y.index == i && y.cost == cost[i];
            assert(heap2.count(y) > 0);
        }
    }
    assert forall|i: int| 0 <= i < nodes.len() && #[trigger] done2[i] implies (found || reject(nodes[i])) && settled(
        must,
        nodes,
        cost2,
        i,
    ) by {
        assert(done[i]);
        assert(settled(must, nodes, cost, i));
        assert forall|d: u64, c: u64| #[trigger] must(nodes[i], d, c) implies within(
            nodes,
            cost2,
            d,
            sat_add(cost2[i] as int, c as int),
        ) by {
            let j = choose|j: int| 0 <= j < nodes.len() && #[trigger] nodes[j] == d && cost[j] <= sat_add(cost[i] as int, c as int);
            assert(nodes[j] == d && cost2[j] <= sat_add(cost2[i] as int, c as int));
        }
    }
}

/// Once all the successors of the busy node have been looked at, and the
/// node was turned down as a goal, the node is done.
pub proof fn lemma_labelled_finish(
    must: spec_fn(u64, u64, u64) -> bool,
    reject: spec_fn(u64) -> bool,
    estimate: spec_fn(u64, u64) -> bool,
    start: u64,
    nodes: Seq<u64>,
    cost: Seq<u64>,
    done: Seq<bool>,
    heap: Multiset<SmallestCostHolder>,
    busy: int,
    found: bool,
)
    requires
        labelled(must, reject, estimate, start, nodes, cost, done, heap, busy, found),
        0 <= busy < nodes.len(),
        found || reject(nodes[busy]),
        settled(must, nodes, cost, busy),
    ensures
        labelled(must, reject, estimate, start, nodes, cost, done.update(busy, true), heap, -1, found),
{
    reveal(labelled);
    let done2 = done.update(busy, true);
    assert forall|i: int| 0 <= i < nodes.len()
        implies #[trigger] done2[i] || i == -1 || live(heap, cost, i) by {
        if i != busy {
            assert(done[i] || i == busy || live(heap, cost, i));
        }
    }
    assert forall|i: int| 0 <= i < nodes.len() && #[trigger] done2[i] implies (found || reject(nodes[i])) && settled(
        must,
        nodes,
        cost,
        i,
    ) by {
        if i != busy {
            assert(done[i]);
        }
    }
}

/// Once a goal has left the frontier, what was known before is still
/// known.
pub proof fn lemma_labelled_found(
    must: spec_fn(u64, u64, u64) -> bool,
    reject: spec_fn(u64) -> bool,
    estimate: spec_fn(u64, u64) -> bool,
    start: u64,
    nodes: Seq<u64>,
    cost: Seq<u64>,
    done: Seq<bool>,
    heap: Multiset<SmallestCostHolder>,
    busy: int,
    found: bool,
)
    requires
        labelled(must, reject, estimate, start, nodes, cost, done, heap, busy, found),
    ensures
        labelled(must, reject, estimate, start, nodes, cost, done, heap, busy, true),
{
    reveal(labelled);
}

/// A route from the start node runs into the frontier: unless its last node
/// was turned down, a candidate waits whose estimate, if the heuristic is
/// admissible, is no more than the cost of the whole route.
///
/// `k` is a position of the route whose node is registered at no more than
/// the cost of the route up to it; the lemma is called with 0.
#[verifier::rlimit(50)]
pub proof fn lemma_route_meets_frontier(
    must: spec_fn(u64, u64, u64) -> bool,
    reject: spec_fn(u64) -> bool,
    estimate: spec_fn(u64, u64) -> bool,
    start: u64,
    nodes: Seq<u64>,
    cost: Seq<u64>,
    done: Seq<bool>,
    heap: Multiset<SmallestCostHolder>,
    q: Seq<u64>,
    costs: Seq<u64>,
    k: int,
) -> (x: SmallestCostHolder)
    requires
        labelled(must, reject, estimate, start, nodes, cost, done, heap, -1, false),
        is_route(must, q, costs),
        0 <= k < q.len(),
        within(nodes, cost, q[k], sat_total(costs.take(k))),
        !reject(q.last()),
    ensures
        heap.count(x) > 0,
        admissible(must, reject, estimate) ==> x.estimated_cost <= sat_total(costs),
    decreases q.len() - k,
{
    reveal(labelled);
    let j = choose|j: int|
        0 <= j < nodes.len() && #[trigger] nodes[j] == q[k] && cost[j] <= sat_total(costs.take(k));
    lemma_total_split(costs, k);
    lemma_total_nonnegative(costs.take(k));
    lemma_total_nonnegative(costs.skip(k));
    if done[j] {
        assert(reject(nodes[j]));
        assert(k < q.len() - 1);
        assert(settled(must, nodes, cost, j));
        assert(must(q[k], q[k + 1], costs[k]));
        assert(within(nodes, cost, q[k + 1], sat_add(cost[j] as int, costs[k] as int)));
        lemma_total_take(costs, k);
        let i = choose|i: int| 0 <= i < nodes.len() && #[trigger] nodes[i] == q[k + 1] && cost[i] <= sat_add(cost[j] as int, costs[k] as int);
        assert(nodes[i] == q[k + 1] && cost[i] <= sat_total(costs.take(k + 1)));
        lemma_route_meets_frontier(must, reject, estimate, start, nodes, cost, done, heap, q, costs, k + 1)
    } else {
        assert(live(heap, cost, j));
        let x = choose|x: SmallestCostHolder|
            #[trigger] heap.count(x) > 0 && x.index == j && x.cost == cost[j];
        assert(candidate(estimate, nodes, cost, x));
        if admissible(must, reject, estimate) && x.estimated_cost != x.cost {
            let h = choose|h: u64| #[trigger]
                estimate(nodes[x.index as int], h) && x.estimated_cost == sat_add(x.cost as int, h as int);
            lemma_route_skip(must, q, costs, k);
            assert(is_route(must, q.skip(k), costs.skip(k)));
            assert(h <= sat_total(costs.skip(k)));
        }
        x
    }
}

/// The cost recorded in each entry of a registry of parents and costs.
pub open spec fn costs_of(entries: Seq<(usize, u64)>) -> Seq<u64> {
    Seq::new(entries.len(), |i: int| entries[i].1)
}

/// The parent position recorded in each entry.
pub open spec fn parents_of(entries: Seq<(usize, u64)>) -> Seq<usize> {
    Seq::new(entries.len(), |i: int| entries[i].0)
}

/// The order in which the parents of a cost-guided search descend: by cost,
/// then by the time of the last change.
pub open spec fn ranks_of(entries: Seq<(usize, u64)>, stamp: Seq<nat>) -> Seq<(nat, nat)> {
    Seq::new(entries.len(), |i: int| (entries[i].1 as nat, stamp[i]))
}

/// The entry at `i` is the start node at cost 0, without a parent, or hangs
/// below its parent by a step of `may` at the cost `step[i]`, at no less
/// than the parent's cost and the step's cost, and later in rank.
pub open spec fn hooked(
    may: spec_fn(u64, u64, u64) -> bool,
    start: u64,
    nodes: Seq<u64>,
    entries: Seq<(usize, u64)>,
    step: Seq<u64>,
    stamp: Seq<nat>,
    i: int,
) -> bool {
    let p = entries[i].0 as int;
    if p == usize::MAX {
        nodes[i] == start && entries[i].1 == 0
    } else {
        &&& p < nodes.len()
        &&& may(nodes[p], nodes[i], step[i])
        &&& entries[i].1 >= sat_add(entries[p].1 as int, step[i] as int)
        &&& lex_below((entries[p].1 as nat, stamp[p]), (entries[i].1 as nat, stamp[i]))
    }
}

/// The parents recorded by a cost-guided search form a tree below the start
/// node, and the cost recorded for a node is no less than the cost of the
/// steps down to it.
#[verifier::opaque]
pub open spec fn rooted(
    may: spec_fn(u64, u64, u64) -> bool,
    start: u64,
    nodes: Seq<u64>,
    entries: Seq<(usize, u64)>,
    step: Seq<u64>,
    stamp: Seq<nat>,
    clock: nat,
) -> bool {
    &&& nodes.len() <= usize::MAX
    &&& entries.len() == nodes.len()
    &&& step.len() == nodes.len()
    &&& stamp.len() == nodes.len()
    &&& forall|i: int| 0 <= i < nodes.len() ==> #[trigger] stamp[i] < clock
    &&& forall|i: int| 0 <= i < nodes.len() ==> #[trigger] hooked(may, start, nodes, entries, step, stamp, i)
}

/// The start node alone is a tree.
pub proof fn lemma_rooted_start(may: spec_fn(u64, u64, u64) -> bool, start: u64)
    ensures
        rooted(may, start, seq![start], seq![(usize::MAX, 0u64)], seq![0u64], seq![0nat], 1),
{
    reveal(rooted);
    assert(hooked(may, start, seq![start], seq![(usize::MAX, 0u64)], seq![0u64], seq![0nat], 0));
}

/// Along the parents of a tree the rank descends, which is what the
/// reconstruction of a path needs to come to an end.
pub proof fn lemma_rooted_ranks(
    may: spec_fn(u64, u64, u64) -> bool,
    start: u64,
    nodes: Seq<u64>,
    entries: Seq<(usize, u64)>,
    step: Seq<u64>,
    stamp: Seq<nat>,
    clock: nat,
)
    requires
        rooted(may, start, nodes, entries, step, stamp, clock),
    ensures
        entries.len() == nodes.len(),
        step.len() == nodes.len(),
        stamp.len() == nodes.len(),
        forall|j: int|
            0 <= j < nodes.len() && parents_of(entries)[j] < nodes.len() ==> lex_below(
                #[trigger] ranks_of(entries, stamp)[parents_of(entries)[j] as int],
                ranks_of(entries, stamp)[j],
            ),
{
    reveal(rooted);
    assert forall|j: int| 0 <= j < nodes.len() && parents_of(entries)[j] < nodes.len() implies lex_below(
        #[trigger] ranks_of(entries, stamp)[parents_of(entries)[j] as int],
        ranks_of(entries, stamp)[j],
    ) by {
        assert(hooked(may, start, nodes, entries, step, stamp, j));
    }
}

/// A new node hangs below the node through which it was discovered.
pub proof fn lemma_rooted_discover(
    may: spec_fn(u64, u64, u64) -> bool,
    start: u64,
    nodes: Seq<u64>,
    entries: Seq<(usize, u64)>,
    step: Seq<u64>,
    stamp: Seq<nat>,
    clock: nat,
    above: int,
    b: u64,
    c: u64,
    reached: u64,
)
    requires
        rooted(may, start, nodes, entries, step, stamp, clock),
        nodes.len() < usize::MAX,
        0 <= above < nodes.len(),
        may(nodes[above], b, c),
        reached == sat_add(entries[above].1 as int, c as int),
    ensures
        rooted(
            may,
            start,
            nodes.push(b),
            entries.push((above as usize, reached)),
            step.push(c),
            stamp.push(clock),
            clock + 1,
        ),
{
    reveal(rooted);
    let nodes2 = nodes.push(b);
    let entries2 = entries.push((above as usize, reached));
    let step2 = step.push(c);
    let stamp2 = stamp.push(clock);
    assert forall|i: int| 0 <= i < nodes2.len() implies #[trigger] hooked(
        may,
        start,
        nodes2,
        entries2,
        step2,
        stamp2,
        i,
    ) by {
        if i < nodes.len() {
            assert(hooked(may, start, nodes, entries, step, stamp, i));
        } else {
            assert(stamp[above] < clock);
        }
    }
    assert forall|i: int| 0 <= i < nodes2.len() implies #[trigger] stamp2[i] < clock + 1 by {
        if i < nodes.len() {
            assert(stamp[i] < clock);
        }
    }
}

/// A node that is reached more cheaply hangs below the node through which
/// the cheaper route came.
pub proof fn lemma_rooted_improve(
    may: spec_fn(u64, u64, u64) -> bool,
    start: u64,
    nodes: Seq<u64>,
    entries: Seq<(usize, u64)>,
    step: Seq<u64>,
    stamp: Seq<nat>,
    clock: nat,
    above: int,
    n: int,
    c: u64,
    reached: u64,
)
    requires
        rooted(may, start, nodes, entries, step, stamp, clock),
        0 <= above < nodes.len(),
        0 <= n < nodes.len(),
        may(nodes[above], nodes[n], c),
        reached == sat_add(entries[above].1 as int, c as int),
        reached < entries[n].1,
    ensures
        rooted(
            may,
            start,
            nodes,
            entries.update(n, (above as usize, reached)),
            step.update(n, c),
            stamp.update(n, clock),
            clock + 1,
        ),
{
    reveal(rooted);
    let entries2 = entries.update(n, (above as usize, reached));
    let step2 = step.update(n, c);
    let stamp2 = stamp.update(n, clock);
    assert(above != n);
    assert forall|i: int| 0 <= i < nodes.len() implies #[trigger] hooked(
        may,
        start,
        nodes,
        entries2,
        step2,
        stamp2,
        i,
    ) by {
        assert(hooked(may, start, nodes, entries, step, stamp, i));
        if i == n {
            assert(stamp[above] < clock);
        } else if entries[i].0 == n {
            assert(hooked(may, start, nodes, entries, step, stamp, n));
        }
    }
    assert forall|i: int| 0 <= i < nodes.len() implies #[trigger] stamp2[i] < clock + 1 by {
        assert(stamp[i] < clock);
    }
}

/// The step costs along a trail.
pub open spec fn steps_at(step: Seq<u64>, trail: Seq<int>) -> Seq<u64> {
    Seq::new((trail.len() - 1) as nat, |k: int| step[trail[k + 1]])
}

/// Down a trail, the cost of the steps so far is no more than the cost
/// recorded for the entry reached.
pub proof fn lemma_trail_cost(
    may: spec_fn(u64, u64, u64) -> bool,
    start: u64,
    nodes: Seq<u64>,
    entries: Seq<(usize, u64)>,
    step: Seq<u64>,
    stamp: Seq<nat>,
    clock: nat,
    trail: Seq<int>,
    end: int,
    m: int,
)
    requires
        rooted(may, start, nodes, entries, step, stamp, clock),
        is_trail(parents_of(entries), trail, end),
        0 <= m < trail.len(),
    ensures
        sat_total(steps_at(step, trail).take(m)) <= entries[trail[m]].1,
    decreases m,
{
    reveal(rooted);
    let costs = steps_at(step, trail);
    if m == 0 {
        assert(costs.take(0) =~= Seq::<u64>::empty());
    } else {
        lemma_trail_cost(may, start, nodes, entries, step, stamp, clock, trail, end, m - 1);
        lemma_total_take(costs, m - 1);
        lemma_total_nonnegative(costs.take(m - 1));
        let i = trail[m];
        assert(hangs_at(parents_of(entries), trail, m));
        assert(parents_of(entries)[trail[m]] == trail[m - 1]);
        assert(hooked(may, start, nodes, entries, step, stamp, i));
        assert(costs[m - 1] == step[i]);
    }
}

/// The nodes along a trail form a route of `may` steps from the start node,
/// and the steps cost no more than what is recorded for the trail's end.
pub proof fn lemma_trail_route(
    may: spec_fn(u64, u64, u64) -> bool,
    start: u64,
    nodes: Seq<u64>,
    entries: Seq<(usize, u64)>,
    step: Seq<u64>,
    stamp: Seq<nat>,
    clock: nat,
    trail: Seq<int>,
    end: int,
)
    requires
        rooted(may, start, nodes, entries, step, stamp, clock),
        is_trail(parents_of(entries), trail, end),
    ensures
        is_route(may, nodes_at(nodes, trail), steps_at(step, trail)),
        nodes_at(nodes, trail)[0] == start,
        nodes_at(nodes, trail).last() == nodes[end],
        sat_total(steps_at(step, trail)) <= entries[end].1,
{
    let p = nodes_at(nodes, trail);
    let costs = steps_at(step, trail);
    lemma_trail_cost(may, start, nodes, entries, step, stamp, clock, trail, end, trail.len() - 1);
    assert(costs.take(trail.len() - 1) =~= costs);
    reveal(rooted);
    assert(hooked(may, start, nodes, entries, step, stamp, trail[0]));
    assert(parents_of(entries)[trail[0]] >= nodes.len());
    assert forall|k: int| 0 <= k < costs.len() implies may(p[k], p[k + 1], #[trigger] costs[k]) by {
        let i = trail[k + 1];
        assert(hangs_at(parents_of(entries), trail, k + 1));
        assert(parents_of(entries)[trail[k + 1]] == trail[k]);
        assert(hooked(may, start, nodes, entries, step, stamp, i));
    }
}

/// What is left for the search to do, as a number that falls with each
/// change to the registry: the sum of the recorded costs, and the full range
/// of costs for each node that may still be registered.
pub open spec fn potential(cost: Seq<u64>) -> int {
    total(cost) + (usize::MAX + 1 - cost.len()) * 0x1_0000_0000_0000_0000
}

/// The potential is not negative.
pub proof fn lemma_potential_nonnegative(cost: Seq<u64>)
    requires
        cost.len() <= usize::MAX + 1,
    ensures
        potential(cost) >= 0,
{
    lemma_total_nonnegative(cost);
    assert((usize::MAX + 1 - cost.len()) * 0x1_0000_0000_0000_0000 >= 0) by (nonlinear_arith)
        requires
            cost.len() <= usize::MAX + 1,
    ;
}

/// Registering a node lowers the potential.
pub proof fn lemma_potential_push(cost: Seq<u64>, c: u64)
    requires
        cost.len() <= usize::MAX,
    ensures
        potential(cost.push(c)) < potential(cost),
        potential(cost.push(c)) >= 0,
{
    assert(cost.push(c).drop_last() =~= cost);
    lemma_total_nonnegative(cost.push(c));
    assert((usize::MAX + 1 - cost.len()) * 0x1_0000_0000_0000_0000 == (usize::MAX + 1 - (cost.len() + 1))
        * 0x1_0000_0000_0000_0000 + 0x1_0000_0000_0000_0000) by (nonlinear_arith);
    assert((usize::MAX + 1 - (cost.len() + 1)) * 0x1_0000_0000_0000_0000 >= 0) by (nonlinear_arith)
        requires
            cost.len() <= usize::MAX,
    ;
}

/// Lowering a recorded cost lowers the sum of the costs by as much.
pub proof fn lemma_total_update(cost: Seq<u64>, n: int, c: u64)
    requires
        0 <= n < cost.len(),
    ensures
        total(cost.update(n, c)) == total(cost) - cost[n] + c,
    decreases cost.len(),
{
    let cost2 = cost.update(n, c);
    if n == cost.len() - 1 {
        assert(cost2.drop_last() =~= cost.drop_last());
    } else {
        lemma_total_update(cost.drop_last(), n, c);
        assert(cost2.drop_last() =~= cost.drop_last().update(n, c));
    }
}

/// Lowering a recorded cost lowers the potential.
pub proof fn lemma_potential_update(cost: Seq<u64>, n: int, c: u64)
    requires
        0 <= n < cost.len(),
        cost.len() <= usize::MAX + 1,
        c < cost[n],
    ensures
        potential(cost.update(n, c)) < potential(cost),
        potential(cost.update(n, c)) >= 0,
{
    lemma_total_update(cost, n, c);
    lemma_total_nonnegative(cost.update(n, c));
    assert((usize::MAX + 1 - cost.len()) * 0x1_0000_0000_0000_0000 >= 0) by (nonlinear_arith)
        requires
            cost.len() <= usize::MAX + 1,
    ;
}

/// What is registered within a bound stays within it when nodes are added
/// and costs are lowered.
pub proof fn lemma_within_keeps(
    nodes: Seq<u64>,
    cost: Seq<u64>,
    nodes2: Seq<u64>,
    cost2: Seq<u64>,
    b: u64,
    bound: int,
)
    requires
        within(nodes, cost, b, bound),
        nodes.len() <= nodes2.len(),
        cost.len() == nodes.len(),
        cost2.len() == nodes2.len(),
        forall|j: int| 0 <= j < nodes.len() ==> #[trigger] nodes2[j] == nodes[j] && cost2[j] <= cost[j],
    ensures
        within(nodes2, cost2, b, bound),
{
    let j = choose|j: int| 0 <= j < nodes.len() && #[trigger] nodes[j] == b && cost[j] <= bound;
    assert(nodes2[j] == b && cost2[j] <= bound);
}

/// Every step costs something.
pub open spec fn positive(arc: spec_fn(u64, u64, u64) -> bool) -> bool {
    forall|a: u64, b: u64, c: u64| #[trigger] arc(a, b, c) ==> c > 0
}

/// The rank `r` rises along every step that costs nothing.
pub open spec fn rises_along_free_steps(arc: spec_fn(u64, u64, u64) -> bool, r: spec_fn(u64) -> nat) -> bool {
    forall|a: u64, b: u64| #[trigger] arc(a, b, 0) ==> r(a) < r(b)
}

/// The steps that cost nothing do not run in a circle: the nodes can be
/// ranked so that each such step leads upwards.
pub open spec fn grounded(arc: spec_fn(u64, u64, u64) -> bool) -> bool {
    exists|r: spec_fn(u64) -> nat| rises_along_free_steps(arc, r)
}

/// Where every step costs something, no step that costs nothing runs in a
/// circle.
pub proof fn lemma_positive_is_grounded(arc: spec_fn(u64, u64, u64) -> bool)
    requires
        positive(arc),
    ensures
        grounded(arc),
{
    let r = |n: u64| 0nat;
    assert(rises_along_free_steps(arc, r));
}

/// The entry at `p` is a parent of the entry at `i` by right: a step of
/// `may` leads from it to `i`, and its cost and the cost of the step are no
/// more than the cost of `i`.
pub open spec fn linked(
    may: spec_fn(u64, u64, u64) -> bool,
    nodes: Seq<u64>,
    cost: Seq<u64>,
    p: int,
    i: int,
) -> bool {
    &&& 0 <= p < nodes.len()
    &&& exists|c: u64| #[trigger] may(nodes[p], nodes[i], c) && sat_add(cost[p] as int, c as int) <= cost[i]
}

/// A route of `may` steps leads from `start` to `b` at the cost `paid`.
pub open spec fn reached(may: spec_fn(u64, u64, u64) -> bool, start: u64, b: u64, paid: int) -> bool {
    exists|p: Seq<u64>, costs: Seq<u64>| #[trigger]
        is_route(may, p, costs) && p[0] == start && p.last() == b && sat_total(costs) == paid
}

/// The cost of every route from `start` fits a `u64` with room to spare, so
/// that no sum along a route is held at `u64::MAX`.
pub open spec fn unsaturated(arc: spec_fn(u64, u64, u64) -> bool, start: u64) -> bool {
    forall|p: Seq<u64>, costs: Seq<u64>| #[trigger]
        is_route(arc, p, costs) && p[0] == start ==> sat_total(costs) < u64::MAX
}

/// The parent sets of a search for all the cheapest paths: each parent is
/// one by right, every node but the start node has a parent, and to every
/// node leads a route that costs what is recorded for the node.
#[verifier::opaque]
pub open spec fn fanned(
    may: spec_fn(u64, u64, u64) -> bool,
    start: u64,
    nodes: Seq<u64>,
    fans: Seq<Set<usize>>,
    cost: Seq<u64>,
) -> bool {
    &&& nodes.len() <= usize::MAX
    &&& fans.len() == nodes.len()
    &&& cost.len() == nodes.len()
    &&& forall|i: int| 0 <= i < nodes.len() ==> (#[trigger] fans[i]).finite()
    &&& forall|i: int, p: usize|
        0 <= i < nodes.len() && #[trigger] fans[i].contains(p) ==> linked(may, nodes, cost, p as int, i)
    &&& forall|i: int| 0 < i < nodes.len() ==> (#[trigger] fans[i]).len() > 0
    &&& forall|i: int| 0 <= i < nodes.len() ==> reached(may, start, #[trigger] nodes[i], cost[i] as int)
}

/// A route continued by a step is a route, and costs what the route costs
/// and the step.
pub proof fn lemma_route_push(
    arc: spec_fn(u64, u64, u64) -> bool,
    p: Seq<u64>,
    costs: Seq<u64>,
    b: u64,
    c: u64,
)
    requires
        is_route(arc, p, costs),
        arc(p.last(), b, c),
    ensures
        is_route(arc, p.push(b), costs.push(c)),
        sat_total(costs.push(c)) == sat_add(sat_total(costs), c as int),
{
    let longer = p.push(b);
    let costs2 = costs.push(c);
    assert forall|k: int| 0 <= k < costs2.len()
        implies arc(longer[k], longer[k + 1], #[trigger] costs2[k]) by {
        if k < costs.len() {
            assert(costs2[k] == costs[k]);
            assert(longer[k] == p[k] && longer[k + 1] == p[k + 1]);
        }
    }
    assert(costs2.drop_last() =~= costs);
    lemma_total_nonnegative(costs);
}

/// The start node alone, without parents.
pub proof fn lemma_fanned_start(may: spec_fn(u64, u64, u64) -> bool, start: u64)
    ensures
        fanned(may, start, seq![start], seq![Set::<usize>::empty()], seq![0u64]),
{
    reveal(fanned);
    let p = seq![start];
    let costs = Seq::<u64>::empty();
    assert(is_route(may, p, costs) && p[0] == start && p.last() == start && sat_total(costs) == 0);
}

/// A new node has the node through which it was discovered as its one
/// parent.
#[verifier::rlimit(50)]
pub proof fn lemma_fanned_discover(
    may: spec_fn(u64, u64, u64) -> bool,
    start: u64,
    nodes: Seq<u64>,
    fans: Seq<Set<usize>>,
    cost: Seq<u64>,
    above: int,
    b: u64,
    c: u64,
    got: u64,
)
    requires
        fanned(may, start, nodes, fans, cost),
        nodes.len() < usize::MAX,
        0 <= above < nodes.len(),
        may(nodes[above], b, c),
        got == sat_add(cost[above] as int, c as int),
    ensures
        fanned(
            may,
            start,
            nodes.push(b),
            fans.push(Set::<usize>::empty().insert(above as usize)),
            cost.push(got),
        ),
{
    reveal(fanned);
    let nodes2 = nodes.push(b);
    let fans2 = fans.push(Set::<usize>::empty().insert(above as usize));
    let cost2 = cost.push(got);
    let n = nodes.len() as int;
    assert forall|i: int, p: usize| 0 <= i < nodes2.len() && #[trigger] fans2[i].contains(p) implies linked(
        may,
        nodes2,
        cost2,
        p as int,
        i,
    ) by {
        if i < n {
            assert(fans[i].contains(p));
            assert(linked(may, nodes, cost, p as int, i));
            let w = choose|w: u64| #[trigger] may(nodes[p as int], nodes[i], w) && sat_add(cost[p as int] as int, w as int) <= cost[i];
            assert(may(nodes2[p as int], nodes2[i], w));
        } else {
            assert(p == above);
            assert(may(nodes2[above], nodes2[i], c));
        }
    }
    assert forall|i: int| 0 <= i < nodes2.len()
        implies reached(may, start, #[trigger] nodes2[i], cost2[i] as int) by {
        if i < n {
            assert(reached(may, start, nodes[i], cost[i] as int));
        } else {
            assert(reached(may, start, nodes[above], cost[above] as int));
            let (r, rc) = choose|r: Seq<u64>, rc: Seq<u64>| #[trigger]
                is_route(may, r, rc) && r[0] == start && r.last() == nodes[above] && sat_total(rc) == cost[above];
            lemma_route_push(may, r, rc, b, c);
            assert(is_route(may, r.push(b), rc.push(c)) && r.push(b)[0] == start && r.push(b).last() == b);
        }
    }
    assert forall|i: int| 0 < i < nodes2.len() implies (#[trigger] fans2[i]).len() > 0 by {
        if i < n {
            assert(fans[i].len() > 0);
        } else {
            vstd::set::axiom_set_insert_len(Set::<usize>::empty(), above as usize);
        }
    }
}

/// A node that is reached more cheaply has the node through which the
/// cheaper route came as its one parent.
#[verifier::rlimit(50)]
pub proof fn lemma_fanned_replace(
    may: spec_fn(u64, u64, u64) -> bool,
    start: u64,
    nodes: Seq<u64>,
    fans: Seq<Set<usize>>,
    cost: Seq<u64>,
    above: int,
    n: int,
    c: u64,
    got: u64,
)
    requires
        fanned(may, start, nodes, fans, cost),
        0 <= above < nodes.len(),
        0 <= n < nodes.len(),
        may(nodes[above], nodes[n], c),
        got == sat_add(cost[above] as int, c as int),
        got < cost[n],
    ensures
        fanned(
            may,
            start,
            nodes,
            fans.update(n, Set::<usize>::empty().insert(above as usize)),
            cost.update(n, got),
        ),
{
    reveal(fanned);
    let fans2 = fans.update(n, Set::<usize>::empty().insert(above as usize));
    let cost2 = cost.update(n, got);
    assert forall|i: int, p: usize| 0 <= i < nodes.len() && #[trigger] fans2[i].contains(p) implies linked(
        may,
        nodes,
        cost2,
        p as int,
        i,
    ) by {
        if i == n {
            assert(p == above);
            assert(may(nodes[above], nodes[i], c));
        } else {
            assert(fans[i].contains(p));
            assert(linked(may, nodes, cost, p as int, i));
            let w = choose|w: u64| #[trigger] may(nodes[p as int], nodes[i], w) && sat_add(cost[p as int] as int, w as int) <= cost[i];
            assert(may(nodes[p as int], nodes[i], w) && sat_add(cost2[p as int] as int, w as int) <= cost2[i]);
        }
    }
    assert forall|i: int| 0 <= i < nodes.len()
        implies reached(may, start, #[trigger] nodes[i], cost2[i] as int) by {
        if i == n {
            assert(reached(may, start, nodes[above], cost[above] as int));
            let (r, rc) = choose|r: Seq<u64>, rc: Seq<u64>| #[trigger]
                is_route(may, r, rc) && r[0] == start && r.last() == nodes[above] && sat_total(rc) == cost[above];
            lemma_route_push(may, r, rc, nodes[n], c);
            assert(is_route(may, r.push(nodes[n]), rc.push(c)) && r.push(nodes[n])[0] == start && r.push(
                nodes[n],
            ).last() == nodes[n]);
        } else {
            assert(reached(may, start, nodes[i], cost[i] as int));
        }
    }
    assert forall|i: int| 0 < i < nodes.len() implies (#[trigger] fans2[i]).len() > 0 by {
        if i == n {
            vstd::set::axiom_set_insert_len(Set::<usize>::empty(), above as usize);
        } else {
            assert(fans[i].len() > 0);
        }
    }
}

/// A node that is reached at the same cost by another route gets the node
/// through which that route came as one more parent.
#[verifier::rlimit(50)]
pub proof fn lemma_fanned_add(
    may: spec_fn(u64, u64, u64) -> bool,
    start: u64,
    nodes: Seq<u64>,
    fans: Seq<Set<usize>>,
    cost: Seq<u64>,
    above: int,
    n: int,
    c: u64,
)
    requires
        fanned(may, start, nodes, fans, cost),
        0 <= above < nodes.len(),
        0 <= n < nodes.len(),
        may(nodes[above], nodes[n], c),
        cost[n] == sat_add(cost[above] as int, c as int),
    ensures
        fanned(may, start, nodes, fans.update(n, fans[n].insert(above as usize)), cost),
{
    reveal(fanned);
    let fans2 = fans.update(n, fans[n].insert(above as usize));
    assert forall|i: int, p: usize| 0 <= i < nodes.len() && #[trigger] fans2[i].contains(p) implies linked(
        may,
        nodes,
        cost,
        p as int,
        i,
    ) by {
        if i == n && p == above {
            assert(may(nodes[above], nodes[i], c));
        } else {
            assert(fans[i].contains(p));
        }
    }
    assert forall|i: int| 0 < i < nodes.len() implies (#[trigger] fans2[i]).len() > 0 by {
        if i == n {
            vstd::set::axiom_set_insert_len(fans[n], above as usize);
        } else {
            assert(fans[i].len() > 0);
        }
    }
    assert forall|i: int| 0 <= i < nodes.len() implies (#[trigger] fans2[i]).finite() by {
        assert(fans[i].finite());
    }
}

/// The caller's functions fix what they give, and the estimate is
/// admissible: each step that may be listed must be, a node that is accepted
/// is not rejected, and the estimate never exceeds the cost of a route to a
/// goal.
pub open spec fn exact(
    may: spec_fn(u64, u64, u64) -> bool,
    must: spec_fn(u64, u64, u64) -> bool,
    accept: spec_fn(u64) -> bool,
    reject: spec_fn(u64) -> bool,
    estimate: spec_fn(u64, u64) -> bool,
) -> bool {
    &&& admissible(must, reject, estimate)
    &&& definite(may, must)
    &&& decisive(accept, reject)
}

/// Each step that may be listed must be listed: the successor function
/// fixes what it lists.
pub open spec fn definite(may: spec_fn(u64, u64, u64) -> bool, must: spec_fn(u64, u64, u64) -> bool) -> bool {
    forall|a: u64, b: u64, c: u64| #[trigger] may(a, b, c) ==> must(a, b, c)
}

/// A node that is accepted is not rejected: the goal predicate fixes its
/// answer.
pub open spec fn decisive(accept: spec_fn(u64) -> bool, reject: spec_fn(u64) -> bool) -> bool {
    forall|n: u64| #[trigger] accept(n) ==> !reject(n)
}

/// No route of `arc` steps from `start` to a node that `reject` does not
/// hold of costs less than `least`.
pub open spec fn cheapest(
    arc: spec_fn(u64, u64, u64) -> bool,
    reject: spec_fn(u64) -> bool,
    start: u64,
    least: u64,
) -> bool {
    forall|q: Seq<u64>, costs: Seq<u64>|
        #[trigger] is_route(arc, q, costs) && q[0] == start && !reject(q.last()) ==> least <= sat_total(costs)
}

/// A route of `may` steps leads from `start` to a node that `accept` holds
/// of, at no more than `bound`.
pub open spec fn goal_within(
    may: spec_fn(u64, u64, u64) -> bool,
    accept: spec_fn(u64) -> bool,
    start: u64,
    bound: u64,
) -> bool {
    exists|p: Seq<u64>, costs: Seq<u64>| #[trigger]
        is_route(may, p, costs) && p[0] == start && accept(p.last()) && sat_total(costs) <= bound
}

/// The goals that a search for all the cheapest paths has reached, and the
/// cost of the last of them to leave the frontier. Every sink is a node that
/// was accepted, and a route leads to a goal at no more than that cost; with
/// an admissible estimate no route to a goal is cheaper; and where the
/// caller's functions are exact, no sink is recorded at more.
#[verifier::opaque]
pub open spec fn sunk(
    may: spec_fn(u64, u64, u64) -> bool,
    must: spec_fn(u64, u64, u64) -> bool,
    accept: spec_fn(u64) -> bool,
    reject: spec_fn(u64) -> bool,
    estimate: spec_fn(u64, u64) -> bool,
    start: u64,
    nodes: Seq<u64>,
    cost: Seq<u64>,
    sinks: Set<usize>,
    min_cost: Option<u64>,
) -> bool {
    &&& sinks.finite()
    &&& forall|s: usize| #[trigger] sinks.contains(s) ==> s < nodes.len() && accept(nodes[s as int])
    &&& min_cost.is_none() ==> sinks == Set::<usize>::empty()
    &&& min_cost.is_some() ==> sinks.len() > 0
    &&& min_cost.is_some() ==> goal_within(may, accept, start, min_cost.unwrap())
    &&& min_cost.is_some() && admissible(must, reject, estimate) ==> cheapest(
        must,
        reject,
        start,
        min_cost.unwrap(),
    )
    &&& min_cost.is_some() && exact(may, must, accept, reject, estimate) ==> forall|s: usize| #[trigger]
        sinks.contains(s) ==> cost[s as int] <= min_cost.unwrap()
}

/// Before any goal has left the frontier there is no sink.
pub proof fn lemma_sunk_start(
    may: spec_fn(u64, u64, u64) -> bool,
    must: spec_fn(u64, u64, u64) -> bool,
    accept: spec_fn(u64) -> bool,
    reject: spec_fn(u64) -> bool,
    estimate: spec_fn(u64, u64) -> bool,
    start: u64,
    nodes: Seq<u64>,
    cost: Seq<u64>,
)
    ensures
        sunk(may, must, accept, reject, estimate, start, nodes, cost, Set::<usize>::empty(), None),
{
    reveal(sunk);
}

/// What is known of the sinks stays known when nodes are added and costs
/// are lowered.
pub proof fn lemma_sunk_keeps(
    may: spec_fn(u64, u64, u64) -> bool,
    must: spec_fn(u64, u64, u64) -> bool,
    accept: spec_fn(u64) -> bool,
    reject: spec_fn(u64) -> bool,
    estimate: spec_fn(u64, u64) -> bool,
    start: u64,
    nodes: Seq<u64>,
    cost: Seq<u64>,
    nodes2: Seq<u64>,
    cost2: Seq<u64>,
    sinks: Set<usize>,
    min_cost: Option<u64>,
)
    requires
        sunk(may, must, accept, reject, estimate, start, nodes, cost, sinks, min_cost),
        nodes.len() <= nodes2.len(),
        cost.len() == nodes.len(),
        cost2.len() == nodes2.len(),
        forall|j: int| 0 <= j < nodes.len() ==> #[trigger] nodes2[j] == nodes[j] && cost2[j] <= cost[j],
    ensures
        sunk(may, must, accept, reject, estimate, start, nodes2, cost2, sinks, min_cost),
{
    reveal(sunk);
    assert forall|s: usize| #[trigger] sinks.contains(s)
        implies s < nodes2.len() && accept(nodes2[s as int]) by {
        assert(nodes2[s as int] == nodes[s as int]);
    }
    if min_cost.is_some() && exact(may, must, accept, reject, estimate) {
        assert forall|s: usize| #[trigger] sinks.contains(s)
            implies cost2[s as int] <= min_cost.unwrap() by {
            assert(nodes2[s as int] == nodes[s as int]);
        }
    }
}

/// A goal leaves the frontier at `paid` and becomes a sink. With an
/// admissible estimate no route to a goal is cheaper than `paid`: the
/// caller shows it from the state of the frontier.
pub proof fn lemma_sunk_goal(
    may: spec_fn(u64, u64, u64) -> bool,
    must: spec_fn(u64, u64, u64) -> bool,
    accept: spec_fn(u64) -> bool,
    reject: spec_fn(u64) -> bool,
    estimate: spec_fn(u64, u64) -> bool,
    start: u64,
    nodes: Seq<u64>,
    cost: Seq<u64>,
    sinks: Set<usize>,
    min_cost: Option<u64>,
    t: usize,
    paid: u64,
)
    requires
        sunk(may, must, accept, reject, estimate, start, nodes, cost, sinks, min_cost),
        t < nodes.len(),
        accept(nodes[t as int]),
        cost[t as int] <= paid,
        reached(may, start, nodes[t as int], cost[t as int] as int),
        admissible(must, reject, estimate) ==> cheapest(must, reject, start, paid),
    ensures
        sunk(may, must, accept, reject, estimate, start, nodes, cost, sinks.insert(t), Some(paid)),
{
    reveal(sunk);
    vstd::set::axiom_set_insert_len(sinks, t);
    let (way, steps) = choose|r: Seq<u64>, rc: Seq<u64>| #[trigger]
        is_route(may, r, rc) && r[0] == start && r.last() == nodes[t as int] && sat_total(rc) == cost[t as int];
    assert(is_route(may, way, steps) && way[0] == start && accept(way.last()) && sat_total(steps) <= paid);
    if exact(may, must, accept, reject, estimate) {
        let (r, rc) = choose|r: Seq<u64>, rc: Seq<u64>| #[trigger]
            is_route(may, r, rc) && r[0] == start && r.last() == nodes[t as int] && sat_total(rc) == cost[t as int];
        assert forall|k: int| 0 <= k < rc.len() implies must(r[k], r[k + 1], #[trigger] rc[k]) by {
            assert(may(r[k], r[k + 1], rc[k]));
        }
        assert(is_route(must, r, rc));
        if min_cost.is_some() {
            assert(min_cost.unwrap() <= sat_total(rc));
        }
    }
}

/// A node other than the start node that is recorded at no cost ranks above
/// the start node: steps that cost nothing lead to it from there.
pub proof fn lemma_free_nodes_rank_above_start(
    may: spec_fn(u64, u64, u64) -> bool,
    start: u64,
    nodes: Seq<u64>,
    fans: Seq<Set<usize>>,
    cost: Seq<u64>,
    r: spec_fn(u64) -> nat,
    i: int,
)
    requires
        fanned(may, start, nodes, fans, cost),
        rises_along_free_steps(may, r),
        0 < i < nodes.len(),
        cost[i] == 0,
    ensures
        r(nodes[i]) > r(nodes[0]),
    decreases r(nodes[i]),
{
    lemma_fanned_shape(may, start, nodes, fans, cost, i);
    let p = fans[i].choose();
    vstd::set::axiom_set_choose_len(fans[i]);
    assert(fans[i].contains(p));
    assert(linked(may, nodes, cost, p as int, i));
    let c = choose|c: u64| #[trigger]
        may(nodes[p as int], nodes[i], c) && sat_add(cost[p as int] as int, c as int) <= cost[i];
    assert(c == 0 && cost[p as int] == 0);
    assert(may(nodes[p as int], nodes[i], 0));
    if p != 0 {
        lemma_free_nodes_rank_above_start(may, start, nodes, fans, cost, r, p as int);
    }
}

/// Where the steps that cost nothing do not run in a circle, the start node
/// has no parent.
pub proof fn lemma_start_has_no_parent(
    may: spec_fn(u64, u64, u64) -> bool,
    start: u64,
    nodes: Seq<u64>,
    fans: Seq<Set<usize>>,
    cost: Seq<u64>,
    r: spec_fn(u64) -> nat,
)
    requires
        fanned(may, start, nodes, fans, cost),
        rises_along_free_steps(may, r),
        nodes.len() >= 1,
        cost[0] == 0,
    ensures
        fans[0] =~= Set::<usize>::empty(),
{
    lemma_fanned_shape(may, start, nodes, fans, cost, 0);
    assert forall|p: usize| !fans[0].contains(p) by {
        if fans[0].contains(p) {
            assert(linked(may, nodes, cost, p as int, 0));
            let c = choose|c: u64| #[trigger]
                may(nodes[p as int], nodes[0], c) && sat_add(cost[p as int] as int, c as int) <= cost[0];
            assert(c == 0 && cost[p as int] == 0);
            assert(may(nodes[p as int], nodes[0], 0));
            if p != 0 {
                lemma_free_nodes_rank_above_start(may, start, nodes, fans, cost, r, p as int);
            }
        }
    }
}

/// What the parent sets say of one entry.
pub proof fn lemma_fanned_shape(
    may: spec_fn(u64, u64, u64) -> bool,
    start: u64,
    nodes: Seq<u64>,
    fans: Seq<Set<usize>>,
    cost: Seq<u64>,
    i: int,
)
    requires
        fanned(may, start, nodes, fans, cost),
        0 <= i < nodes.len(),
    ensures
        fans.len() == nodes.len(),
        cost.len() == nodes.len(),
        nodes.len() <= usize::MAX,
        fans[i].finite(),
        i > 0 ==> fans[i].len() > 0,
        reached(may, start, nodes[i], cost[i] as int),
        unsaturated(may, start) ==> cost[i] < u64::MAX,
        forall|p: usize| #[trigger] fans[i].contains(p) ==> linked(may, nodes, cost, p as int, i),
{
    reveal(fanned);
    assert(reached(may, start, nodes[i], cost[i] as int));
    if unsaturated(may, start) {
        let (way, steps) = choose|r: Seq<u64>, rc: Seq<u64>| #[trigger]
            is_route(may, r, rc) && r[0] == start && r.last() == nodes[i] && sat_total(rc) == cost[i];
        assert(is_route(may, way, steps) && way[0] == start);
        assert(sat_total(steps) < u64::MAX);
    }
}

/// What is known of the sinks and of the cost of the cheapest goal.
pub proof fn lemma_sunk_shape(
    may: spec_fn(u64, u64, u64) -> bool,
    must: spec_fn(u64, u64, u64) -> bool,
    accept: spec_fn(u64) -> bool,
    reject: spec_fn(u64) -> bool,
    estimate: spec_fn(u64, u64) -> bool,
    start: u64,
    nodes: Seq<u64>,
    cost: Seq<u64>,
    sinks: Set<usize>,
    min_cost: Option<u64>,
)
    requires
        sunk(may, must, accept, reject, estimate, start, nodes, cost, sinks, min_cost),
    ensures
        sinks.finite(),
        forall|s: usize| #[trigger] sinks.contains(s) ==> s < nodes.len() && accept(nodes[s as int]),
        min_cost.is_some() ==> sinks.len() > 0,
        min_cost.is_some() ==> goal_within(may, accept, start, min_cost.unwrap()),
        min_cost.is_some() && admissible(must, reject, estimate) ==> cheapest(
            must,
            reject,
            start,
            min_cost.unwrap(),
        ),
        min_cost.is_some() && exact(may, must, accept, reject, estimate) ==> forall|s: usize| #[trigger]
            sinks.contains(s) ==> cost[s as int] <= min_cost.unwrap(),
{
    reveal(sunk);
}

/// `b` is registered at no more than `bound`, and where it is registered at
/// `bound` itself, the entry at `above` is among its parents.
pub open spec fn within_fan(
    nodes: Seq<u64>,
    cost: Seq<u64>,
    fans: Seq<Set<usize>>,
    b: u64,
    bound: int,
    above: int,
) -> bool {
    exists|j: int|
        0 <= j < nodes.len() && #[trigger] nodes[j] == b && cost[j] <= bound && (cost[j] == bound
            ==> fans[j].contains(above as usize))
}

/// Every `must` successor of the node at `i` is registered at no more than
/// the cost through `i`, with `i` among its parents where it is registered
/// at that cost.
pub open spec fn fan_settled(
    must: spec_fn(u64, u64, u64) -> bool,
    nodes: Seq<u64>,
    cost: Seq<u64>,
    fans: Seq<Set<usize>>,
    i: int,
) -> bool {
    forall|b: u64, c: u64| #[trigger]
        must(nodes[i], b, c) ==> within_fan(nodes, cost, fans, b, sat_add(cost[i] as int, c as int), i)
}

/// What a search for all the cheapest paths has recorded for the nodes that
/// are done: each is a parent of every successor that is registered at the
/// cost through it, and each was turned down as a goal or is a sink.
#[verifier::opaque]
pub open spec fn recorded(
    must: spec_fn(u64, u64, u64) -> bool,
    reject: spec_fn(u64) -> bool,
    nodes: Seq<u64>,
    cost: Seq<u64>,
    fans: Seq<Set<usize>>,
    done: Seq<bool>,
    sinks: Set<usize>,
) -> bool {
    &&& cost.len() == nodes.len()
    &&& fans.len() == nodes.len()
    &&& done.len() == nodes.len()
    &&& nodes.len() <= usize::MAX
    &&& forall|i: int|
        0 <= i < nodes.len() && #[trigger] done[i] ==> fan_settled(must, nodes, cost, fans, i) && (reject(
            nodes[i],
        ) || sinks.contains(i as usize))
}

/// The registry has grown: nodes were added and costs lowered, and an entry
/// whose cost is what it was has the parents that it had.
pub open spec fn grown(
    nodes: Seq<u64>,
    cost: Seq<u64>,
    fans: Seq<Set<usize>>,
    nodes2: Seq<u64>,
    cost2: Seq<u64>,
    fans2: Seq<Set<usize>>,
) -> bool {
    &&& nodes.len() <= nodes2.len()
    &&& cost.len() == nodes.len()
    &&& fans.len() == nodes.len()
    &&& cost2.len() == nodes2.len()
    &&& fans2.len() == nodes2.len()
    &&& forall|j: int|
        0 <= j < nodes.len() ==> {
            &&& #[trigger] nodes2[j] == nodes[j]
            &&& cost2[j] <= cost[j]
            &&& cost2[j] == cost[j] ==> fans[j].subset_of(fans2[j])
        }
}

/// What is registered within a bound, with its parent, stays so while the
/// registry grows.
pub proof fn lemma_within_fan_keeps(
    nodes: Seq<u64>,
    cost: Seq<u64>,
    fans: Seq<Set<usize>>,
    nodes2: Seq<u64>,
    cost2: Seq<u64>,
    fans2: Seq<Set<usize>>,
    b: u64,
    bound: int,
    above: int,
)
    requires
        within_fan(nodes, cost, fans, b, bound, above),
        grown(nodes, cost, fans, nodes2, cost2, fans2),
    ensures
        within_fan(nodes2, cost2, fans2, b, bound, above),
{
    let j = choose|j: int|
        0 <= j < nodes.len() && #[trigger] nodes[j] == b && cost[j] <= bound && (cost[j] == bound
            ==> fans[j].contains(above as usize));
    assert(nodes2[j] == b);
    if cost2[j] == bound {
        assert(fans[j].subset_of(fans2[j]));
    }
}

/// Nothing is done at the start, so nothing is owed.
pub proof fn lemma_recorded_start(
    must: spec_fn(u64, u64, u64) -> bool,
    reject: spec_fn(u64) -> bool,
    start: u64,
)
    ensures
        recorded(
            must,
            reject,
            seq![start],
            seq![0u64],
            seq![Set::<usize>::empty()],
            seq![false],
            Set::<usize>::empty(),
        ),
{
    reveal(recorded);
}

/// What is recorded for the nodes that are done stays recorded while the
/// registry grows, the sinks grow, and the nodes whose cost was lowered are
/// no longer done.
#[verifier::rlimit(50)]
pub proof fn lemma_recorded_keeps(
    must: spec_fn(u64, u64, u64) -> bool,
    reject: spec_fn(u64) -> bool,
    nodes: Seq<u64>,
    cost: Seq<u64>,
    fans: Seq<Set<usize>>,
    done: Seq<bool>,
    sinks: Set<usize>,
    nodes2: Seq<u64>,
    cost2: Seq<u64>,
    fans2: Seq<Set<usize>>,
    done2: Seq<bool>,
    sinks2: Set<usize>,
)
    requires
        recorded(must, reject, nodes, cost, fans, done, sinks),
        grown(nodes, cost, fans, nodes2, cost2, fans2),
        nodes2.len() <= usize::MAX,
        done2.len() == nodes2.len(),
        sinks.subset_of(sinks2),
        forall|i: int| 0 <= i < nodes2.len() && #[trigger] done2[i] ==> i < nodes.len() && done[i] && cost2[i] == cost[i],
    ensures
        recorded(must, reject, nodes2, cost2, fans2, done2, sinks2),
{
    reveal(recorded);
    assert forall|i: int| 0 <= i < nodes2.len() && #[trigger] done2[i] implies fan_settled(
        must,
        nodes2,
        cost2,
        fans2,
        i,
    ) && (reject(nodes2[i]) || sinks2.contains(i as usize)) by {
        assert(done[i]);
        assert(nodes2[i] == nodes[i]);
        assert forall|b: u64, c: u64| #[trigger] must(nodes2[i], b, c) implies within_fan(
            nodes2,
            cost2,
            fans2,
            b,
            sat_add(cost2[i] as int, c as int),
            i,
        ) by {
            assert(must(nodes[i], b, c));
            lemma_within_fan_keeps(nodes, cost, fans, nodes2, cost2, fans2, b, sat_add(cost[i] as int, c as int), i);
        }
        if sinks.contains(i as usize) {
            assert(sinks2.contains(i as usize));
        }
    }
}

/// Once all the successors of a node have been looked at, and the node was
/// turned down as a goal or made a sink, what is owed for it is recorded.
pub proof fn lemma_recorded_finish(
    must: spec_fn(u64, u64, u64) -> bool,
    reject: spec_fn(u64) -> bool,
    nodes: Seq<u64>,
    cost: Seq<u64>,
    fans: Seq<Set<usize>>,
    done: Seq<bool>,
    sinks: Set<usize>,
    busy: int,
)
    requires
        recorded(must, reject, nodes, cost, fans, done, sinks),
        0 <= busy < nodes.len(),
        fan_settled(must, nodes, cost, fans, busy),
        reject(nodes[busy]) || sinks.contains(busy as usize),
    ensures
        recorded(must, reject, nodes, cost, fans, done.update(busy, true), sinks),
{
    reveal(recorded);
    let done2 = done.update(busy, true);
    assert forall|i: int| 0 <= i < nodes.len() && #[trigger] done2[i] implies fan_settled(
        must,
        nodes,
        cost,
        fans,
        i,
    ) && (reject(nodes[i]) || sinks.contains(i as usize)) by {
        if i != busy {
            assert(done[i]);
        }
    }
}

/// Nothing has changed.
pub proof fn lemma_grown_same(nodes: Seq<u64>, cost: Seq<u64>, fans: Seq<Set<usize>>)
    requires
        cost.len() == nodes.len(),
        fans.len() == nodes.len(),
    ensures
        grown(nodes, cost, fans, nodes, cost, fans),
{
}

/// What is within a bound with its parent is within the bound.
pub proof fn lemma_within_fan_within(
    nodes: Seq<u64>,
    cost: Seq<u64>,
    fans: Seq<Set<usize>>,
    b: u64,
    bound: int,
    above: int,
)
    requires
        within_fan(nodes, cost, fans, b, bound, above),
    ensures
        within(nodes, cost, b, bound),
{
    let j = choose|j: int|
        0 <= j < nodes.len() && #[trigger] nodes[j] == b && cost[j] <= bound && (cost[j] == bound
            ==> fans[j].contains(above as usize));
    assert(nodes[j] == b && cost[j] <= bound);
}

/// A node was added to the registry.
pub proof fn lemma_grown_push(
    nodes: Seq<u64>,
    cost: Seq<u64>,
    fans: Seq<Set<usize>>,
    b: u64,
    c: u64,
    fan: Set<usize>,
)
    requires
        cost.len() == nodes.len(),
        fans.len() == nodes.len(),
    ensures
        grown(nodes, cost, fans, nodes.push(b), cost.push(c), fans.push(fan)),
{
}

/// The cost of a node was lowered.
pub proof fn lemma_grown_replace(
    nodes: Seq<u64>,
    cost: Seq<u64>,
    fans: Seq<Set<usize>>,
    n: int,
    c: u64,
    fan: Set<usize>,
)
    requires
        cost.len() == nodes.len(),
        fans.len() == nodes.len(),
        0 <= n < nodes.len(),
        c < cost[n],
    ensures
        grown(nodes, cost, fans, nodes, cost.update(n, c), fans.update(n, fan)),
{
}

/// A node got one more parent.
pub proof fn lemma_grown_add(
    nodes: Seq<u64>,
    cost: Seq<u64>,
    fans: Seq<Set<usize>>,
    n: int,
    above: usize,
)
    requires
        cost.len() == nodes.len(),
        fans.len() == nodes.len(),
        0 <= n < nodes.len(),
    ensures
        grown(nodes, cost, fans, nodes, cost, fans.update(n, fans[n].insert(above))),
{
}

/// A route followed by a route from where it ends is a route, and costs
/// what the two cost.
pub proof fn lemma_route_join(
    arc: spec_fn(u64, u64, u64) -> bool,
    p: Seq<u64>,
    costs: Seq<u64>,
    q: Seq<u64>,
    more: Seq<u64>,
)
    requires
        is_route(arc, p, costs),
        is_route(arc, q, more),
        p.last() == q[0],
    ensures
        is_route(arc, p + q.skip(1), costs + more),
        total(costs + more) == total(costs) + total(more),
        (p + q.skip(1))[0] == p[0],
        (p + q.skip(1)).last() == q.last(),
{
    let r = p + q.skip(1);
    let all = costs + more;
    assert forall|k: int| 0 <= k < all.len() implies arc(r[k], r[k + 1], #[trigger] all[k]) by {
        if k < costs.len() {
            assert(all[k] == costs[k]);
            assert(r[k] == p[k] && r[k + 1] == p[k + 1]);
        } else {
            let t = k - costs.len();
            assert(all[k] == more[t]);
            assert(r[k + 1] == q[t + 1]);
            if t == 0 {
                assert(r[k] == p.last());
            } else {
                assert(r[k] == q[t]);
            }
        }
    }
    lemma_total_split(all, costs.len() as int);
    assert(all.take(costs.len() as int) =~= costs);
    assert(all.skip(costs.len() as int) =~= more);
}

/// The position before `t` in `rest` is among the parents recorded for the
/// position at `t`.
pub open spec fn held_at(fans: Seq<Set<usize>>, rest: Seq<int>, t: int) -> bool {
    fans[rest[t]].contains(rest[t - 1] as usize)
}

/// At the end of a search for all the cheapest paths, every node along a
/// cheapest route to a goal is done at the cost of the route up to it, each
/// is among the parents of the next, and the goal is a sink.
///
/// The lemma walks along the route; `at` is the position of the entry of
/// the node `q[j]`, which must be recorded at the cost of the route up to
/// it. It gives back the positions of the entries from there to the end.
#[verifier::rlimit(50)]
pub proof fn lemma_cheapest_route_recorded(
    may: spec_fn(u64, u64, u64) -> bool,
    must: spec_fn(u64, u64, u64) -> bool,
    accept: spec_fn(u64) -> bool,
    reject: spec_fn(u64) -> bool,
    estimate: spec_fn(u64, u64) -> bool,
    start: u64,
    nodes: Seq<u64>,
    cost: Seq<u64>,
    fans: Seq<Set<usize>>,
    done: Seq<bool>,
    sinks: Set<usize>,
    heap: Multiset<SmallestCostHolder>,
    least: u64,
    q: Seq<u64>,
    costs: Seq<u64>,
    j: int,
    at: int,
) -> (rest: Seq<int>)
    requires
        labelled(must, reject, estimate, start, nodes, cost, done, heap, -1, true),
        fanned(may, start, nodes, fans, cost),
        recorded(must, reject, nodes, cost, fans, done, sinks),
        forall|x: SmallestCostHolder| #[trigger] heap.count(x) > 0 ==> x.estimated_cost > least,
        exact(may, must, accept, reject, estimate),
        unsaturated(may, start),
        cheapest(must, reject, start, least),
        is_route(must, q, costs),
        q[0] == start,
        !reject(q.last()),
        sat_total(costs) == least,
        least < u64::MAX,
        0 <= j < q.len(),
        0 <= at < nodes.len(),
        cost.len() == nodes.len(),
        nodes[at] == q[j],
        cost[at] == total(costs.take(j)),
    ensures
        rest.len() == q.len() - j,
        rest[0] == at,
        forall|t: int| 0 <= t < rest.len() ==> 0 <= #[trigger] rest[t] < nodes.len() && nodes[rest[t]] == q[j + t],
        forall|t: int| 1 <= t < rest.len() ==> #[trigger] held_at(fans, rest, t),
        sinks.contains(rest.last() as usize),
    decreases q.len() - j,
{
    reveal(labelled);
    reveal(recorded);
    lemma_total_split(costs, j);
    lemma_total_nonnegative(costs.take(j));
    lemma_total_nonnegative(costs.skip(j));
    lemma_route_skip(must, q, costs, j);
    if !done[at] {
        assert(live(heap, cost, at));
        let x = choose|x: SmallestCostHolder|
            #[trigger] heap.count(x) > 0 && x.index == at && x.cost == cost[at];
        assert(candidate(estimate, nodes, cost, x));
        if x.estimated_cost != x.cost {
            let h = choose|h: u64| #[trigger]
                estimate(nodes[x.index as int], h) && x.estimated_cost == sat_add(x.cost as int, h as int);
            assert(is_route(must, q.skip(j), costs.skip(j)));
            assert(h <= sat_total(costs.skip(j)));
        }
        assert(false);
    }
    assert(fan_settled(must, nodes, cost, fans, at));
    if j == q.len() - 1 {
        assert(sinks.contains(at as usize));
        seq![at]
    } else {
        assert(must(q[j], q[j + 1], costs[j]));
        lemma_total_take(costs, j);
        let bound = sat_add(cost[at] as int, costs[j] as int);
        assert(within_fan(nodes, cost, fans, q[j + 1], bound, at));
        let next = choose|n: int|
            0 <= n < nodes.len() && #[trigger] nodes[n] == q[j + 1] && cost[n] <= bound && (cost[n] == bound
                ==> fans[n].contains(at as usize));
        lemma_total_split(costs, j + 1);
        lemma_total_nonnegative(costs.skip(j + 1));
        lemma_total_nonnegative(costs.take(j + 1));
        assert(bound == total(costs.take(j + 1)));
        // the entry cannot be recorded below the cost of the route up to it
        lemma_fanned_shape(may, start, nodes, fans, cost, next);
        let (r, rc) = choose|r: Seq<u64>, rc: Seq<u64>| #[trigger]
            is_route(may, r, rc) && r[0] == start && r.last() == nodes[next] && sat_total(rc) == cost[next];
        assert forall|k: int| 0 <= k < rc.len() implies must(r[k], r[k + 1], #[trigger] rc[k]) by {
            assert(may(r[k], r[k + 1], rc[k]));
        }
        assert(is_route(must, r, rc));
        lemma_route_skip(must, q, costs, j + 1);
        lemma_route_join(must, r, rc, q.skip(j + 1), costs.skip(j + 1));
        lemma_total_nonnegative(rc);
        let whole = r + q.skip(j + 1).skip(1);
        assert(is_route(must, whole, rc + costs.skip(j + 1)) && whole[0] == start && !reject(whole.last()));
        assert(least <= sat_total(rc + costs.skip(j + 1)));
        assert(cost[next] == bound);
        let tail = lemma_cheapest_route_recorded(
            may,
            must,
            accept,
            reject,
            estimate,
            start,
            nodes,
            cost,
            fans,
            done,
            sinks,
            heap,
            least,
            q,
            costs,
            j + 1,
            next,
        );
        let rest = seq![at] + tail;
        assert forall|t: int| 0 <= t < rest.len() implies 0 <= #[trigger] rest[t] < nodes.len() && nodes[rest[t]]
            == q[j + t] by {
            if t > 0 {
                assert(rest[t] == tail[t - 1]);
            }
        }
        assert forall|t: int| 1 <= t < rest.len() implies #[trigger] held_at(fans, rest, t) by {
            assert(rest[t] == tail[t - 1]);
            if t > 1 {
                assert(held_at(fans, tail, t - 1));
                assert(rest[t - 1] == tail[t - 2]);
            }
        }
        assert(rest.last() == tail.last());
        rest
    }
}

} // verus!
