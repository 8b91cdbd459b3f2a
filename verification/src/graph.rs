//! The implicit graph that a caller's functions describe.
//!
//! A search never sees a graph: it sees what a successor function returns for
//! the nodes it asks about. To Verus such a function is known by its
//! contract alone, and a contract may leave the result open. So a step from
//! `a` to `b` comes in two strengths: the function *may* list `b` for `a`
//! (some result that its contract allows holds `b`), or it *must* (every such
//! result holds `b`). What a search returns is made of steps that the
//! function did list, so it is a walk of `may` steps; what a search is bound
//! to find is stated over the walks of `must` steps. For a function whose
//! contract fixes its result the two are the same graph.
//!
//! A goal predicate is treated alike: it *accepts* a node when `true` is a
//! possible answer, and *rejects* it when `false` is.

use crate::cost::sat_total;
use vstd::prelude::*;

verus! {

/// `f` can be called on every node.
pub open spec fn callable<R, F: FnMut(&u64) -> R>(f: F) -> bool {
    forall|n: &u64| #[trigger] call_requires(f, (n,))
}

/// `f` may list `b` among the successors of `a`.
pub open spec fn may_step<F: FnMut(&u64) -> Vec<u64>>(f: F) -> spec_fn(u64, u64) -> bool {
    |a: u64, b: u64| exists|out: Vec<u64>| #[trigger] call_ensures(f, (&a,), out) && out@.contains(b)
}

/// `f` lists `b` among the successors of `a`, whatever it returns.
pub open spec fn must_step<F: FnMut(&u64) -> Vec<u64>>(f: F) -> spec_fn(u64, u64) -> bool {
    |a: u64, b: u64| forall|out: Vec<u64>| #[trigger] call_ensures(f, (&a,), out) ==> out@.contains(b)
}

/// `f` may answer `true` for `n`.
pub open spec fn accepts<F: FnMut(&u64) -> bool>(f: F) -> spec_fn(u64) -> bool {
    |n: u64| call_ensures(f, (&n,), true)
}

/// `f` may answer `false` for `n`.
pub open spec fn rejects<F: FnMut(&u64) -> bool>(f: F) -> spec_fn(u64) -> bool {
    |n: u64| call_ensures(f, (&n,), false)
}

/// A step of `e` leads from the node at position `k` of `p` to the next.
pub open spec fn step_at(e: spec_fn(u64, u64) -> bool, p: Seq<u64>, k: int) -> bool {
    e(p[k], p[k + 1])
}

/// A step of `e` leads from the node after position `k` of `p` back to the
/// node at `k`.
pub open spec fn step_back_at(e: spec_fn(u64, u64) -> bool, p: Seq<u64>, k: int) -> bool {
    e(p[k + 1], p[k])
}

/// `p` is a walk: at least one node, and a step of `e` from each node to
/// the next.
pub open spec fn is_walk(e: spec_fn(u64, u64) -> bool, p: Seq<u64>) -> bool {
    &&& p.len() >= 1
    &&& forall|k: int| 0 <= k < p.len() - 1 ==> #[trigger] step_at(e, p, k)
}

/// `p` is a walk that begins at one of `starts`.
pub open spec fn walk_from(e: spec_fn(u64, u64) -> bool, starts: Seq<u64>, p: Seq<u64>) -> bool {
    is_walk(e, p) && starts.contains(p[0])
}

/// No walk of `e` with a step in it comes back to where it began.
pub open spec fn acyclic(e: spec_fn(u64, u64) -> bool) -> bool {
    forall|p: Seq<u64>| #[trigger] is_walk(e, p) && p.len() >= 2 ==> p[0] != p.last()
}

/// What a shortest-path search owes its caller. If it found `p`, then `p` is
/// a walk of `may` steps from a start node to a node that `accept` holds of,
/// with at least `least` nodes, and no walk of `must` steps from a start node
/// to a node that `reject` does not hold of, with at least `least` nodes, is
/// shorter. If it found nothing, then every walk of `must` steps from a start
/// node with at least `least` nodes ends in a node that `reject` holds of.
pub open spec fn is_shortest_walk(
    may: spec_fn(u64, u64) -> bool,
    must: spec_fn(u64, u64) -> bool,
    starts: Seq<u64>,
    accept: spec_fn(u64) -> bool,
    reject: spec_fn(u64) -> bool,
    least: nat,
    found: Option<Seq<u64>>,
) -> bool {
    match found {
        Some(p) => {
            &&& walk_from(may, starts, p)
            &&& accept(p.last())
            &&& p.len() >= least
            &&& forall|q: Seq<u64>|
                #[trigger] walk_from(must, starts, q) && q.len() >= least && !reject(q.last()) ==> p.len()
                    <= q.len()
        },
        None => forall|q: Seq<u64>|
            #[trigger] walk_from(must, starts, q) && q.len() >= least ==> reject(q.last()),
    }
}

/// `p` leads from a start node to an end node through position `t`: up to
/// `t` each step is a step of `may_s` from a node to the next, and from `t`
/// on each step is a step of `may_p` from a node to the one before it.
pub open spec fn joins_at(
    may_s: spec_fn(u64, u64) -> bool,
    may_p: spec_fn(u64, u64) -> bool,
    starts: Seq<u64>,
    ends: Seq<u64>,
    p: Seq<u64>,
    t: int,
) -> bool {
    &&& 0 <= t < p.len()
    &&& starts.contains(p[0])
    &&& ends.contains(p.last())
    &&& forall|k: int| 0 <= k < t ==> #[trigger] step_at(may_s, p, k)
    &&& forall|k: int| t <= k < p.len() - 1 ==> #[trigger] step_back_at(may_p, p, k)
}

/// `p` is made of a walk forwards from a start node and a walk backwards
/// from an end node that meet in one node.
pub open spec fn meets(
    may_s: spec_fn(u64, u64) -> bool,
    may_p: spec_fn(u64, u64) -> bool,
    starts: Seq<u64>,
    ends: Seq<u64>,
    p: Seq<u64>,
) -> bool {
    exists|t: int| joins_at(may_s, may_p, starts, ends, p, t)
}

/// No node of `a` is a node of `b`.
pub open spec fn disjoint(a: Seq<u64>, b: Seq<u64>) -> bool {
    forall|x: u64| !(#[trigger] a.contains(x) && b.contains(x))
}

/// Each step of `e` is a step of `back` the other way round.
pub open spec fn reverses(e: spec_fn(u64, u64) -> bool, back: spec_fn(u64, u64) -> bool) -> bool {
    forall|x: u64, y: u64| #[trigger] e(x, y) ==> back(y, x)
}

/// What a search from both ends owes its caller. A path that it found is
/// made of a forward walk and a backward walk that meet. Where the
/// predecessor function lists at least the nodes that the successor function
/// leads from, the search is exact over the walks that take a step: the path
/// that it found is no longer than any walk of `must_s` steps from a start
/// node to an end node with a step in it, and if it found none, there is no
/// such walk.
pub open spec fn is_meeting_search(
    may_s: spec_fn(u64, u64) -> bool,
    must_s: spec_fn(u64, u64) -> bool,
    may_p: spec_fn(u64, u64) -> bool,
    must_p: spec_fn(u64, u64) -> bool,
    starts: Seq<u64>,
    ends: Seq<u64>,
    found: Option<Seq<u64>>,
) -> bool {
    match found {
        Some(p) => {
            &&& meets(may_s, may_p, starts, ends, p)
            &&& reverses(must_s, must_p) ==> forall|q: Seq<u64>|
                #[trigger] walk_from(must_s, starts, q) && ends.contains(q.last()) && q.len() >= 2 ==> p.len()
                    <= q.len()
        },
        None => reverses(must_s, must_p) ==> forall|q: Seq<u64>|
            #[trigger] walk_from(must_s, starts, q) && ends.contains(q.last()) ==> q.len() < 2,
    }
}

/// The nodes of a path that a search returned, if it returned one.
pub open spec fn path_view(found: Option<Vec<u64>>) -> Option<Seq<u64>> {
    match found {
        Some(path) => Some(path@),
        None => None,
    }
}

/// What a search owes depends on the start nodes only as a set.
pub proof fn lemma_same_starts(
    may: spec_fn(u64, u64) -> bool,
    must: spec_fn(u64, u64) -> bool,
    starts: Seq<u64>,
    others: Seq<u64>,
    accept: spec_fn(u64) -> bool,
    reject: spec_fn(u64) -> bool,
    least: nat,
    found: Option<Seq<u64>>,
)
    requires
        is_shortest_walk(may, must, starts, accept, reject, least, found),
        forall|n: u64| starts.contains(n) <==> others.contains(n),
    ensures
        is_shortest_walk(may, must, others, accept, reject, least, found),
{
    assert forall|q: Seq<u64>| #[trigger] walk_from(must, others, q) implies walk_from(must, starts, q) by {}
}

/// A search that was run with one goal predicate has met what is owed for
/// another, if what the first accepts the second accepts too, and what the
/// first rejects the second rejects too.
pub proof fn lemma_same_goal(
    may: spec_fn(u64, u64) -> bool,
    must: spec_fn(u64, u64) -> bool,
    starts: Seq<u64>,
    accept: spec_fn(u64) -> bool,
    reject: spec_fn(u64) -> bool,
    accept2: spec_fn(u64) -> bool,
    reject2: spec_fn(u64) -> bool,
    least: nat,
    found: Option<Seq<u64>>,
)
    requires
        is_shortest_walk(may, must, starts, accept, reject, least, found),
        forall|n: u64| #[trigger] accept(n) ==> accept2(n),
        forall|n: u64| #[trigger] reject(n) ==> reject2(n),
    ensures
        is_shortest_walk(may, must, starts, accept2, reject2, least, found),
{
    match found {
        Some(p) => {
            assert forall|q: Seq<u64>|
                #[trigger] walk_from(must, starts, q) && q.len() >= least && !reject2(
                    q.last(),
                ) implies p.len() <= q.len() by {
                if reject(q.last()) {
                    assert(reject2(q.last()));
                }
            }
        },
        None => {
            assert forall|q: Seq<u64>| #[trigger] walk_from(must, starts, q) && q.len() >= least implies reject2(
                q.last(),
            ) by {
                assert(reject(q.last()));
            }
        },
    }
}

/// The walk without its last node is a walk too.
pub proof fn lemma_walk_prefix(e: spec_fn(u64, u64) -> bool, p: Seq<u64>)
    requires
        is_walk(e, p),
        p.len() >= 2,
    ensures
        is_walk(e, p.drop_last()),
        e(p[p.len() - 2], p.last()),
{
    let q = p.drop_last();
    assert forall|k: int| 0 <= k < q.len() - 1 implies #[trigger] step_at(e, q, k) by {
        assert(step_at(e, p, k));
        assert(q[k] == p[k]);
        assert(q[k + 1] == p[k + 1]);
    }
    let m = p.len() - 2;
    assert(step_at(e, p, m));
}

/// A walk extended by a step from its last node is a walk.
pub proof fn lemma_walk_push(e: spec_fn(u64, u64) -> bool, p: Seq<u64>, b: u64)
    requires
        is_walk(e, p),
        e(p.last(), b),
    ensures
        is_walk(e, p.push(b)),
{
    let q = p.push(b);
    assert forall|k: int| 0 <= k < q.len() - 1 implies #[trigger] step_at(e, q, k) by {
        if k < p.len() - 1 {
            assert(step_at(e, p, k));
            assert(q[k] == p[k]);
            assert(q[k + 1] == p[k + 1]);
        }
    }
}

/// The first `n` nodes of a walk are a walk.
pub proof fn lemma_walk_take(e: spec_fn(u64, u64) -> bool, p: Seq<u64>, n: int)
    requires
        is_walk(e, p),
        1 <= n <= p.len(),
    ensures
        is_walk(e, p.take(n)),
{
    let q = p.take(n);
    assert forall|k: int| 0 <= k < q.len() - 1 implies #[trigger] step_at(e, q, k) by {
        assert(step_at(e, p, k));
        assert(q[k] == p[k]);
        assert(q[k + 1] == p[k + 1]);
    }
}

/// The end of a walk from position `a` on, read backwards, is a walk of the
/// steps turned round.
pub proof fn lemma_walk_turned(
    e: spec_fn(u64, u64) -> bool,
    back: spec_fn(u64, u64) -> bool,
    p: Seq<u64>,
    a: int,
)
    requires
        is_walk(e, p),
        0 <= a < p.len(),
        forall|x: u64, y: u64| #[trigger] e(x, y) ==> back(y, x),
    ensures
        is_walk(back, p.skip(a).reverse()),
        p.skip(a).reverse()[0] == p.last(),
        p.skip(a).reverse().last() == p[a],
        p.skip(a).reverse().len() == p.len() - a,
{
    let q = p.skip(a).reverse();
    assert forall|k: int| 0 <= k < q.len() - 1 implies #[trigger] step_at(back, q, k) by {
        let j = p.len() - 1 - k;
        assert(q[k] == p[j]);
        assert(q[k + 1] == p[j - 1]);
        assert(step_at(e, p, j - 1));
    }
}

/// Where the predecessor function lists only nodes that the successor
/// function leads from, a path that meets is a walk of `may_s` steps from a
/// start node to an end node.
pub proof fn lemma_meeting_is_walk(
    may_s: spec_fn(u64, u64) -> bool,
    may_p: spec_fn(u64, u64) -> bool,
    starts: Seq<u64>,
    ends: Seq<u64>,
    p: Seq<u64>,
)
    requires
        meets(may_s, may_p, starts, ends, p),
        reverses(may_p, may_s),
    ensures
        walk_from(may_s, starts, p),
        ends.contains(p.last()),
{
    let t = choose|t: int| joins_at(may_s, may_p, starts, ends, p, t);
    assert forall|k: int| 0 <= k < p.len() - 1 implies #[trigger] step_at(may_s, p, k) by {
        if k >= t {
            assert(step_back_at(may_p, p, k));
        } else {
            assert(step_at(may_s, p, k));
        }
    }
}

/// On an undirected graph whose function fixes what it lists, and with no
/// start node among the end nodes, the search from both ends and the
/// breadth-first search for an end node agree: both find nothing, or both
/// find paths of one length.
pub proof fn lemma_bidirectional_matches_bfs(
    may: spec_fn(u64, u64) -> bool,
    must: spec_fn(u64, u64) -> bool,
    starts: Seq<u64>,
    ends: Seq<u64>,
    one_way: Option<Seq<u64>>,
    two_way: Option<Seq<u64>>,
)
    requires
        is_shortest_walk(
            may,
            must,
            starts,
            |n: u64| ends.contains(n),
            |n: u64| !ends.contains(n),
            1,
            one_way,
        ),
        is_meeting_search(may, must, may, must, starts, ends, two_way),
        disjoint(starts, ends),
        forall|x: u64, y: u64| #[trigger] may(x, y) ==> must(x, y),
        reverses(may, may),
        reverses(must, must),
    ensures
        one_way.is_some() <==> two_way.is_some(),
        one_way.is_some() ==> one_way.unwrap().len() == two_way.unwrap().len(),
{
    assert forall|q: Seq<u64>| #[trigger] walk_from(must, starts, q) && ends.contains(q.last()) implies q.len()
        >= 2 by {
        if q.len() == 1 {
            assert(starts.contains(q[0]) && ends.contains(q[0]));
        }
    }
    match two_way {
        Some(p) => {
            lemma_meeting_is_walk(may, may, starts, ends, p);
            lemma_walk_stronger(may, must, p);
            assert(walk_from(must, starts, p));
        },
        None => {},
    }
    match one_way {
        Some(a) => {
            lemma_walk_stronger(may, must, a);
            assert(walk_from(must, starts, a));
        },
        None => {},
    }
}

/// A walk of steps that are all steps of another relation is a walk of that
/// relation.
pub proof fn lemma_walk_stronger(
    e: spec_fn(u64, u64) -> bool, f: spec_fn(u64,
    u64) -> bool, p: Seq<u64>,
)
    requires
        is_walk(e, p),
        forall|x: u64, y: u64| #[trigger] e(x, y) ==> f(x, y),
    ensures
        is_walk(f, p),
{
    assert forall|k: int| 0 <= k < p.len() - 1 implies #[trigger] step_at(f, p, k) by {
        assert(step_at(e, p, k));
    }
}

/// On an acyclic graph on which no start node leads to another start node,
/// the search for a loop finds nothing.
pub proof fn lemma_no_loop_when_acyclic(
    may: spec_fn(u64, u64) -> bool,
    must: spec_fn(u64, u64) -> bool,
    starts: Seq<u64>,
    found: Option<Seq<u64>>,
)
    requires
        is_shortest_walk(
            may,
            must,
            starts,
            |n: u64| starts.contains(n),
            |n: u64| !starts.contains(n),
            2,
            found,
        ),
        acyclic(may),
        forall|p: Seq<u64>|
            #[trigger] is_walk(may, p) && p.len() >= 2 && starts.contains(p[0]) && starts.contains(p.last())
                ==> p[0] == p.last(),
    ensures
        found.is_none(),
{
    match found {
        Some(p) => {
            assert(is_walk(may, p));
        },
        None => {},
    }
}

/// Where a start node is its own successor, the search for a loop finds a
/// loop of one step; from that node as the only start node, the loop found
/// is the step from the node to itself.
pub proof fn lemma_self_loop_is_shortest(
    may: spec_fn(u64, u64) -> bool,
    must: spec_fn(u64, u64) -> bool,
    starts: Seq<u64>,
    found: Option<Seq<u64>>,
    s: u64,
)
    requires
        is_shortest_walk(
            may,
            must,
            starts,
            |n: u64| starts.contains(n),
            |n: u64| !starts.contains(n),
            2,
            found,
        ),
        starts.contains(s),
        must(s, s),
    ensures
        found.is_some(),
        found.unwrap().len() == 2,
        (forall|n: u64| starts.contains(n) ==> n == s) ==> found.unwrap() == seq![s, s],
{
    let q = seq![s, s];
    assert(step_at(must, q, 0));
    assert(is_walk(must, q));
    assert(walk_from(must, starts, q));
    assert(q.last() == s);
    let p = found.unwrap();
    if forall|n: u64| starts.contains(n) ==> n == s {
        assert(p =~= q);
    }
    assert(p.len() == 2);
}

/// `f` may list `b`, at the price of `c`, among the successors of `a`.
pub open spec fn may_arc<F: FnMut(&u64) -> Vec<(u64, u64)>>(f: F) -> spec_fn(u64, u64, u64) -> bool {
    |a: u64, b: u64, c: u64|
        exists|out: Vec<(u64, u64)>| #[trigger] call_ensures(f, (&a,), out) && out@.contains((b, c))
}

/// `f` lists `b`, at the price of `c`, among the successors of `a`, whatever
/// it returns.
pub open spec fn must_arc<F: FnMut(&u64) -> Vec<(u64, u64)>>(f: F) -> spec_fn(u64, u64, u64) -> bool {
    |a: u64, b: u64, c: u64|
        forall|out: Vec<(u64, u64)>| #[trigger] call_ensures(f, (&a,), out) ==> out@.contains((b, c))
}

/// `f` may give `h` as its estimate of the cost from `n` to a goal.
pub open spec fn may_estimate<F: FnMut(&u64) -> u64>(f: F) -> spec_fn(u64, u64) -> bool {
    |n: u64, h: u64| call_ensures(f, (&n,), h)
}

/// `p` is a route with the step costs `costs`: a step of `arc` leads from
/// each node to the next, at the cost at the same position.
pub open spec fn is_route(arc: spec_fn(u64, u64, u64) -> bool, p: Seq<u64>, costs: Seq<u64>) -> bool {
    &&& p.len() == costs.len() + 1
    &&& forall|k: int| 0 <= k < costs.len() ==> arc(p[k], p[k + 1], #[trigger] costs[k])
}

/// The estimate never exceeds the cost of a route of `arc` steps from the
/// node to a node that `reject` does not hold of.
pub open spec fn admissible(
    arc: spec_fn(u64, u64, u64) -> bool,
    reject: spec_fn(u64) -> bool,
    estimate: spec_fn(u64, u64) -> bool,
) -> bool {
    forall|n: u64, h: u64, q: Seq<u64>, costs: Seq<u64>|
        #[trigger] estimate(n, h) && #[trigger] is_route(arc, q, costs) && q[0] == n && !reject(q.last())
            ==> h <= sat_total(costs)
}

/// What a search for a cheapest path owes its caller. If it found `p` at
/// `cost`, then `p` leads from `start` to a node that `accept` holds of, by
/// steps of `may` whose costs add up to no more than `cost`; and, where the
/// estimate is admissible, no route of `must` steps from `start` to a node
/// that `reject` does not hold of costs less than `cost`. If it found
/// nothing, every route of `must` steps from `start` ends in a node that
/// `reject` holds of.
pub open spec fn is_cheapest_route(
    may: spec_fn(u64, u64, u64) -> bool,
    must: spec_fn(u64, u64, u64) -> bool,
    start: u64,
    accept: spec_fn(u64) -> bool,
    reject: spec_fn(u64) -> bool,
    estimate: spec_fn(u64, u64) -> bool,
    found: Option<(Seq<u64>, u64)>,
) -> bool {
    match found {
        Some((p, cost)) => {
            &&& exists|costs: Seq<u64>| #[trigger] is_route(may, p, costs) && sat_total(costs) <= cost
            &&& p[0] == start
            &&& accept(p.last())
            &&& admissible(must, reject, estimate) ==> forall|q: Seq<u64>, costs: Seq<u64>|
                #[trigger] is_route(must, q, costs) && q[0] == start && !reject(q.last()) ==> cost
                    <= sat_total(costs)
        },
        None => forall|q: Seq<u64>, costs: Seq<u64>|
            #[trigger] is_route(must, q, costs) && q[0] == start ==> reject(q.last()),
    }
}

/// A path with all that is owed for it meets what the search owes.
pub proof fn lemma_cheapest_found(
    may: spec_fn(u64, u64, u64) -> bool,
    must: spec_fn(u64, u64, u64) -> bool,
    start: u64,
    accept: spec_fn(u64) -> bool,
    reject: spec_fn(u64) -> bool,
    estimate: spec_fn(u64, u64) -> bool,
    p: Seq<u64>,
    cost: u64,
    paid: Seq<u64>,
)
    requires
        is_route(may, p, paid),
        sat_total(paid) <= cost,
        p[0] == start,
        accept(p.last()),
        admissible(must, reject, estimate) ==> forall|q: Seq<u64>, costs: Seq<u64>|
            #[trigger] is_route(must, q, costs) && q[0] == start && !reject(q.last()) ==> cost <= sat_total(
                costs,
            ),
    ensures
        is_cheapest_route(may, must, start, accept, reject, estimate, Some((p, cost))),
{
}

/// The rest of a route from position `k` on is a route.
pub proof fn lemma_route_skip(
    arc: spec_fn(u64, u64, u64) -> bool, p: Seq<u64>, costs: Seq<u64>, k: int,
)
    requires
        is_route(arc, p, costs),
        0 <= k < p.len(),
    ensures
        is_route(arc, p.skip(k), costs.skip(k)),
        p.skip(k)[0] == p[k],
        p.skip(k).last() == p.last(),
{
    let q = p.skip(k);
    let ds = costs.skip(k);
    assert forall|t: int| 0 <= t < ds.len() implies arc(q[t], q[t + 1], #[trigger] ds[t]) by {
        assert(ds[t] == costs[t + k]);
        assert(q[t] == p[t + k]);
        assert(q[t + 1] == p[t + k + 1]);
    }
}

} // verus!
