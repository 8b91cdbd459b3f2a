//! Cost-guided search: a cheapest path, or all the cheapest paths, from a
//! start node to a goal, with a heuristic that estimates what is left to
//! pay.

use crate::chains::{
    chains_via, is_chain, lemma_chains_via_right, lemma_choices, lemma_complete_first,
    lemma_drop_choice, lemma_pop_spent, lemma_push_keeps, lemma_push_sinks, lemma_stack_take,
    lemma_tail_reads, lemma_top_choice, parent_at, rest_after, rest_of, stack_wf, table_wf,
    tail_of,
};
use crate::cost::{lemma_total_nonnegative, sat_add, sat_total, zero};
use crate::directed::reverse_path;
use crate::frontier::{Frontier, ranks_with, SmallestCostHolder};
use crate::graph::{
    accepts, admissible, callable, is_cheapest_route, is_route, lemma_cheapest_found, may_arc,
    may_estimate, must_arc, rejects,
};
use crate::labels::{
    cheapest, costs_of, decisive, definite, exact, fan_settled, fanned, goal_within, grown,
    held_at,
    labelled, lemma_cheapest_route_recorded, lemma_fanned_add, lemma_fanned_discover,
    lemma_fanned_replace, lemma_fanned_shape, lemma_fanned_start, lemma_grown_add,
    lemma_grown_push, lemma_grown_replace, lemma_grown_same, lemma_labelled_discover,
    lemma_labelled_finish, lemma_labelled_found, lemma_labelled_improve, lemma_labelled_pop,
    lemma_labelled_shape, lemma_labelled_start, lemma_potential_nonnegative,
    lemma_potential_push, lemma_potential_update, lemma_recorded_finish, lemma_recorded_keeps,
    lemma_recorded_start, lemma_rooted_discover, lemma_rooted_improve, lemma_rooted_ranks,
    lemma_rooted_start, lemma_route_meets_frontier, lemma_route_push, lemma_sunk_goal,
    lemma_sunk_keeps, lemma_sunk_shape, lemma_sunk_start, lemma_trail_route,
    lemma_within_fan_keeps, lemma_within_fan_within, lemma_within_keeps, linked, parents_of,
    grounded, lemma_start_has_no_parent, potential, rises_along_free_steps, ranks_of, reached, recorded, rooted, settled, steps_at, sunk,
    unsaturated, within, within_fan,
};
use crate::layers::nodes_at;
use crate::node_index::{fx_build_hasher, NodeHasher};
use crate::registry::Registry;
use std::collections::HashSet;
use vstd::multiset::Multiset;
use vstd::prelude::*;
use vstd::std_specs::iter::IteratorSpec;

verus! {

/// The nodes and the cost of what a search for a cheapest path returned, if
/// it returned a path.
pub open spec fn route_view(found: Option<(Vec<u64>, u64)>) -> Option<(Seq<u64>, u64)> {
    match found {
        Some((path, cost)) => Some((path@, cost)),
        None => None,
    }
}

/// A cheapest path from `start` to a node that `success` accepts, with its
/// cost.
///
/// - `successors` lists the successors of a node, each with the cost of the
///   step to it.
/// - `heuristic` estimates the cost from a node to a goal. The path is a
///   cheapest one if the estimate never exceeds the real cost.
/// - `success` tells whether a node is a goal.
///
/// The path begins at `start` and ends at the goal. Costs add up with
/// saturation at `u64::MAX`. `None` means that `success` turned down every
/// node that can be reached.
pub fn astar<FN, FH, FS>(start: &u64, successors: FN, heuristic: FH, success: FS) -> (found: Option<
    (Vec<u64>, u64),
>) where FN: FnMut(&u64) -> Vec<(u64, u64)>, FH: FnMut(&u64) -> u64, FS: FnMut(&u64) -> bool
    requires
        callable(successors),
        callable(heuristic),
        callable(success),
    ensures
        is_cheapest_route(
            may_arc(successors),
            must_arc(successors),
            *start,
            accepts(success),
            rejects(success),
            may_estimate(heuristic),
            route_view(found),
        ),
{
    astar_with_hasher(start, successors, heuristic, success, fx_build_hasher())
}

/// [`astar`] with the hashing strategy of the node registry given by the
/// caller.
#[verifier::loop_isolation(false)]
#[verifier::rlimit(50)]
pub fn astar_with_hasher<FN, FH, FS>(
    start: &u64,
    mut successors: FN,
    mut heuristic: FH,
    mut success: FS,
    hasher: NodeHasher,
) -> (found: Option<(Vec<u64>, u64)>) where
    FN: FnMut(&u64) -> Vec<(u64, u64)>,
    FH: FnMut(&u64) -> u64,
    FS: FnMut(&u64) -> bool,

    requires
        callable(successors),
        callable(heuristic),
        callable(success),
    ensures
        is_cheapest_route(
            may_arc(successors),
            must_arc(successors),
            *start,
            accepts(success),
            rejects(success),
            may_estimate(heuristic),
            route_view(found),
        ),
{
    let ghost may = may_arc(successors);
    let ghost must = must_arc(successors);
    let ghost accept = accepts(success);
    let ghost reject = rejects(success);
    let ghost estimate = may_estimate(heuristic);
    let ghost origin = *start;
    let mut to_see = Frontier::new();
    to_see.push(SmallestCostHolder { estimated_cost: zero(), cost: zero(), index: 0 });
    let mut parents: Registry<(usize, u64)> = Registry::with_hasher(hasher);
    parents.insert_full(*start, (usize::MAX, zero()));
    let ghost mut done: Seq<bool> = seq![false];
    let ghost mut step: Seq<u64> = seq![0u64];
    let ghost mut stamp: Seq<nat> = seq![0nat];
    let ghost mut clock: nat = 1;
    proof {
        lemma_labelled_start(must, reject, estimate, origin);
        lemma_rooted_start(may, origin);
        assert(parents.nodes() =~= seq![origin]);
        assert(parents.values() =~= seq![(usize::MAX, 0u64)]);
        assert(costs_of(parents.values()) =~= seq![0u64]);
    }
    loop
        invariant
            callable(successors),
            callable(heuristic),
            callable(success),
            may == may_arc(successors),
            must == must_arc(successors),
            accept == accepts(success),
            reject == rejects(success),
            estimate == may_estimate(heuristic),
            to_see.wf(),
            parents.wf(),
            labelled(
                must,
                reject,
                estimate,
                origin,
                parents.nodes(),
                costs_of(parents.values()),
                done,
                to_see@,
                -1,
                false,
            ),
            rooted(may, origin, parents.nodes(), parents.values(), step, stamp, clock),
        decreases potential(costs_of(parents.values())), to_see@.len(),
    {
        let ghost heap0 = to_see@;
        let ghost nodes0 = parents.nodes();
        let ghost entries0 = parents.values();
        let ghost cost0 = costs_of(entries0);
        let popped = match to_see.pop() {
            Some(popped) => popped,
            None => {
                proof {
                    lemma_labelled_shape(must, reject, estimate, origin, nodes0, cost0, done, heap0, -1, false);
                    assert forall|q: Seq<u64>, costs: Seq<u64>|
                        #[trigger] is_route(must, q, costs) && q[0] == origin implies reject(q.last()) by {
                        if !reject(q.last()) {
                            assert(costs.take(0) =~= Seq::<u64>::empty());
                            assert(nodes0[0] == q[0] && cost0[0] <= sat_total(costs.take(0)));
                            let x = lemma_route_meets_frontier(
                                must,
                                reject,
                                estimate,
                                origin,
                                nodes0,
                                cost0,
                                done,
                                heap0,
                                q,
                                costs,
                                0,
                            );
                        }
                    }
                }
                return None;
            },
        };
        let cost = popped.cost;
        let index = popped.index;
        proof {
            lemma_labelled_pop(must, reject, estimate, origin, nodes0, cost0, done, heap0, popped, false);
            lemma_rooted_ranks(may, origin, nodes0, entries0, step, stamp, clock);
        }
        let (node, entry) = parents.get_index(index).unwrap();
        let c = entry.1;
        if success(&node) {
            let ghost link = parents_of(entries0);
            let ghost rank = ranks_of(entries0, stamp);
            let parent = |v: &(usize, u64)| -> (at: usize)
                ensures
                    at == v.0,
                { v.0 };
            let (path, Ghost(trail)) = reverse_path(&parents, parent, index, Ghost(link), Ghost(rank));
            proof {
                lemma_trail_route(may, origin, nodes0, entries0, step, stamp, clock, trail, index as int);
                let paid = steps_at(step, trail);
                assert(is_route(may, path@, paid) && sat_total(paid) <= cost);
                assert(path@[0] == origin);
                assert(path@.last() == node);
                assert(accept(path@.last()));
                lemma_labelled_shape(must, reject, estimate, origin, nodes0, cost0, done, heap0, -1, false);
                if admissible(must, reject, estimate) {
                    assert forall|q: Seq<u64>, costs: Seq<u64>|
                        #[trigger] is_route(must, q, costs) && q[0] == origin && !reject(
                            q.last(),
                        ) implies cost <= sat_total(costs) by {
                        assert(costs.take(0) =~= Seq::<u64>::empty());
                        assert(nodes0[0] == q[0] && cost0[0] <= sat_total(costs.take(0)));
                        let x = lemma_route_meets_frontier(
                            must,
                            reject,
                            estimate,
                            origin,
                            nodes0,
                            cost0,
                            done,
                            heap0,
                            q,
                            costs,
                            0,
                        );
                        assert(ranks_with(popped, x));
                    }
                }
                lemma_cheapest_found(may, must, origin, accept, reject, estimate, path@, cost, paid);
            }
            return Some((path, cost));
        }
        if cost > c {
            continue ;
        }
        let ghost phi0 = potential(cost0);
        proof {
            lemma_potential_nonnegative(cost0);
        }
        let listed = successors(&node);
        let mut k: usize = 0;
        while k < listed.len()
            invariant
                callable(heuristic),
                may == may_arc(successors),
                must == must_arc(successors),
                estimate == may_estimate(heuristic),
                to_see.wf(),
                parents.wf(),
                labelled(
                    must,
                    reject,
                    estimate,
                    origin,
                    parents.nodes(),
                    costs_of(parents.values()),
                    done,
                    to_see@,
                    index as int,
                    false,
                ),
                rooted(may, origin, parents.nodes(), parents.values(), step, stamp, clock),
                index < parents.nodes().len(),
                node == parents.nodes()[index as int],
                cost == parents.values()[index as int].1,
                call_ensures(successors, (&node,), listed),
                k <= listed.len(),
                forall|t: int|
                    0 <= t < k ==> within(
                        parents.nodes(),
                        costs_of(parents.values()),
                        (#[trigger] listed@[t]).0,
                        sat_add(cost as int, listed@[t].1 as int),
                    ),
                0 <= potential(costs_of(parents.values())) <= phi0,
                potential(costs_of(parents.values())) == phi0 ==> to_see@.len() == heap0.len() - 1,
            decreases listed.len() - k,
        {
            let (successor, move_cost) = listed[k];
            let new_cost = cost.saturating_add(move_cost);
            let ghost nodes1 = parents.nodes();
            let ghost entries1 = parents.values();
            let ghost cost1 = costs_of(entries1);
            let ghost heap1 = to_see@;
            proof {
                assert(listed@.contains((successor, move_cost)));
                assert(may(node, successor, move_cost));
                lemma_labelled_shape(must, reject, estimate, origin, nodes1, cost1, done, heap1, index as int, false);
                lemma_rooted_ranks(may, origin, nodes1, entries1, step, stamp, clock);
            }
            let at = match parents.get_index_of(successor) {
                None => {
                    let n = parents.len();
                    parents.insert_full(successor, (index, new_cost));
                    proof {
                        lemma_rooted_discover(
                            may,
                            origin,
                            nodes1,
                            entries1,
                            step,
                            stamp,
                            clock,
                            index as int,
                            successor,
                            move_cost,
                            new_cost,
                        );
                        step = step.push(move_cost);
                        stamp = stamp.push(clock);
                        clock = clock + 1;
                        assert(costs_of(parents.values()) =~= cost1.push(new_cost));
                        lemma_potential_push(cost1, new_cost);
                    }
                    Some(n)
                },
                Some(n) => {
                    let (_, recorded) = parents.get_index(n).unwrap();
                    if recorded.1 > new_cost {
                        parents.set(n, (index, new_cost));
                        proof {
                            lemma_rooted_improve(
                                may,
                                origin,
                                nodes1,
                                entries1,
                                step,
                                stamp,
                                clock,
                                index as int,
                                n as int,
                                move_cost,
                                new_cost,
                            );
                            step = step.update(n as int, move_cost);
                            stamp = stamp.update(n as int, clock);
                            clock = clock + 1;
                            assert(costs_of(parents.values()) =~= cost1.update(n as int, new_cost));
                            lemma_potential_update(cost1, n as int, new_cost);
                        }
                        Some(n)
                    } else {
                        None
                    }
                },
            };
            match at {
                Some(n) => {
                    let h = heuristic(&successor);
                    let candidate = SmallestCostHolder {
                        estimated_cost: new_cost.saturating_add(h),
                        cost: new_cost,
                        index: n,
                    };
                    to_see.push(candidate);
                    proof {
                        assert(estimate(successor, h));
                        assert(parents.nodes()[n as int] == successor);
                        if n < nodes1.len() {
                            assert(nodes1[n as int] == successor);
                            assert(estimate(nodes1[candidate.index as int], h) && candidate.estimated_cost
                                == sat_add(candidate.cost as int, h as int));
                        }
                        if n == nodes1.len() {
                            lemma_labelled_discover(
                                must,
                                reject,
                                estimate,
                                origin,
                                nodes1,
                                cost1,
                                done,
                                heap1,
                                index as int,
                                successor,
                                candidate,
                                false,
                            );
                            done = done.push(false);
                        } else {
                            lemma_labelled_improve(
                                must,
                                reject,
                                estimate,
                                origin,
                                nodes1,
                                cost1,
                                done,
                                heap1,
                                index as int,
                                candidate,
                                false,
                            );
                            done = done.update(n as int, false);
                        }
                        assert(parents.nodes()[n as int] == successor);
                    }
                },
                None => {},
            }
            proof {
                let nodes2 = parents.nodes();
                let cost2 = costs_of(parents.values());
                assert(within(nodes2, cost2, successor, sat_add(cost as int, move_cost as int)));
                assert forall|t: int| 0 <= t < k implies within(
                    nodes2,
                    cost2,
                    (#[trigger] listed@[t]).0,
                    sat_add(cost as int, listed@[t].1 as int),
                ) by {
                    lemma_within_keeps(
                        nodes1,
                        cost1,
                        nodes2,
                        cost2,
                        listed@[t].0,
                        sat_add(cost as int, listed@[t].1 as int),
                    );
                }
            }
            k += 1;
        }
        proof {
            let nodes2 = parents.nodes();
            let cost2 = costs_of(parents.values());
            assert forall|b: u64, c: u64| #[trigger] must(nodes2[index as int], b, c) implies within(
                nodes2,
                cost2,
                b,
                sat_add(cost2[index as int] as int, c as int),
            ) by {
                assert(listed@.contains((b, c)));
                let t = choose|t: int| 0 <= t < listed@.len() && listed@[t] == (b, c);
                assert(listed@[t].0 == b && listed@[t].1 == c);
            }
            assert(settled(must, nodes2, cost2, index as int));
            lemma_labelled_shape(must, reject, estimate, origin, nodes2, cost2, done, to_see@, index as int, false);
            lemma_labelled_finish(must, reject, estimate, origin, nodes2, cost2, done, to_see@, index as int, false);
            done = done.update(index as int, true);
        }
    }
}

/// The parent set recorded in each entry of the registry of a search for all
/// the cheapest paths.
pub open spec fn fans_of(entries: Seq<(HashSet<usize>, u64)>) -> Seq<Set<usize>> {
    Seq::new(entries.len(), |i: int| entries[i].0@)
}

/// The cost recorded in each entry.
pub open spec fn bag_costs(entries: Seq<(HashSet<usize>, u64)>) -> Seq<u64> {
    Seq::new(entries.len(), |i: int| entries[i].1)
}

/// All the cheapest paths from `start` to a node that `success` accepts,
/// with their cost.
///
/// The search goes on after the first goal has left the frontier, until
/// what is left in the frontier is estimated above the cost of that goal.
/// Each node keeps the set of the parents through which it is reached at its
/// recorded cost: a cheaper route replaces the set, a route at the same cost
/// adds to it. The paths are not built here: they are read off the parent
/// sets one by one by [`AstarSolution::next`].
///
/// `None` means that `success` turned down every node that can be reached.
#[verifier::loop_isolation(false)]
#[verifier::rlimit(50)]
pub fn astar_bag<FN, FH, FS>(start: &u64, mut successors: FN, mut heuristic: FH, mut success: FS) -> (found:
    Option<(AstarSolution, u64)>) where
    FN: FnMut(&u64) -> Vec<(u64, u64)>,
    FH: FnMut(&u64) -> u64,
    FS: FnMut(&u64) -> bool,

    requires
        callable(successors),
        callable(heuristic),
        callable(success),
    ensures
        all_cheapest(
            may_arc(successors),
            must_arc(successors),
            *start,
            accepts(success),
            rejects(success),
            may_estimate(heuristic),
            found,
        ),
{
    broadcast use vstd::std_specs::hash::group_hash_axioms;

    let ghost may = may_arc(successors);
    let ghost must = must_arc(successors);
    let ghost accept = accepts(success);
    let ghost reject = rejects(success);
    let ghost estimate = may_estimate(heuristic);
    let ghost origin = *start;
    let mut to_see = Frontier::new();
    let mut min_cost: Option<u64> = None;
    let mut sinks: HashSet<usize> = HashSet::new();
    to_see.push(SmallestCostHolder { estimated_cost: zero(), cost: zero(), index: 0 });
    let mut parents: Registry<(HashSet<usize>, u64)> = Registry::with_hasher(fx_build_hasher());
    parents.insert_full(*start, (HashSet::new(), zero()));
    let ghost mut done: Seq<bool> = seq![false];
    proof {
        lemma_labelled_start(must, reject, estimate, origin);
        lemma_fanned_start(may, origin);
        assert(parents.nodes() =~= seq![origin]);
        assert(bag_costs(parents.values()) =~= seq![0u64]);
        assert(fans_of(parents.values()) =~= seq![Set::<usize>::empty()]);
        lemma_sunk_start(may, must, accept, reject, estimate, origin, parents.nodes(), bag_costs(parents.values()));
        lemma_recorded_start(must, reject, origin);
    }
    loop
        invariant
            callable(successors),
            callable(heuristic),
            callable(success),
            may == may_arc(successors),
            must == must_arc(successors),
            accept == accepts(success),
            reject == rejects(success),
            estimate == may_estimate(heuristic),
            to_see.wf(),
            parents.wf(),
            labelled(
                must,
                reject,
                estimate,
                origin,
                parents.nodes(),
                bag_costs(parents.values()),
                done,
                to_see@,
                -1,
                min_cost.is_some(),
            ),
            fanned(may, origin, parents.nodes(), fans_of(parents.values()), bag_costs(parents.values())),
            sunk(
                may,
                must,
                accept,
                reject,
                estimate,
                origin,
                parents.nodes(),
                bag_costs(parents.values()),
                sinks@,
                min_cost,
            ),
            recorded(
                must,
                reject,
                parents.nodes(),
                bag_costs(parents.values()),
                fans_of(parents.values()),
                done,
                sinks@,
            ),
        decreases potential(bag_costs(parents.values())), to_see@.len(),
    {
        let ghost heap0 = to_see@;
        let ghost nodes0 = parents.nodes();
        let ghost cost0 = bag_costs(parents.values());
        let ghost fans0 = fans_of(parents.values());
        let ghost found0 = min_cost.is_some();
        let popped = match to_see.pop() {
            Some(popped) => popped,
            None => {
                proof {
                    lemma_labelled_shape(must, reject, estimate, origin, nodes0, cost0, done, heap0, -1, found0);
                    if !found0 {
                        assert forall|q: Seq<u64>, costs: Seq<u64>|
                            #[trigger] is_route(must, q, costs) && q[0] == origin implies reject(q.last()) by {
                            if !reject(q.last()) {
                                assert(costs.take(0) =~= Seq::<u64>::empty());
                                assert(nodes0[0] == q[0] && cost0[0] <= sat_total(costs.take(0)));
                                let x = lemma_route_meets_frontier(
                                    must,
                                    reject,
                                    estimate,
                                    origin,
                                    nodes0,
                                    cost0,
                                    done,
                                    heap0,
                                    q,
                                    costs,
                                    0,
                                );
                            }
                        }
                    }
                }
                proof {
                    lemma_labelled_found(must, reject, estimate, origin, nodes0, cost0, done, heap0, -1, found0);
                }
                return conclude(
                    parents,
                    sinks,
                    min_cost,
                    Ghost(may),
                    Ghost(must),
                    Ghost(accept),
                    Ghost(reject),
                    Ghost(estimate),
                    Ghost(origin),
                    Ghost(done),
                    Ghost(heap0),
                );
            },
        };
        let cost = popped.cost;
        let index = popped.index;
        let estimated_cost = popped.estimated_cost;
        proof {
            lemma_labelled_shape(must, reject, estimate, origin, nodes0, cost0, done, heap0, -1, found0);
        }
        if let Some(least) = min_cost {
            if estimated_cost > least {
                proof {
                    assert forall|x: SmallestCostHolder| #[trigger] heap0.count(x) > 0 implies x.estimated_cost
                        > least by {
                        assert(ranks_with(popped, x));
                    }
                }
                proof {
                    lemma_labelled_found(must, reject, estimate, origin, nodes0, cost0, done, heap0, -1, found0);
                }
                return conclude(
                    parents,
                    sinks,
                    min_cost,
                    Ghost(may),
                    Ghost(must),
                    Ghost(accept),
                    Ghost(reject),
                    Ghost(estimate),
                    Ghost(origin),
                    Ghost(done),
                    Ghost(heap0),
                );
            }
        }
        proof {
            lemma_labelled_pop(must, reject, estimate, origin, nodes0, cost0, done, heap0, popped, found0);
            lemma_fanned_shape(may, origin, nodes0, fans0, cost0, index as int);
        }
        let (node, entry) = parents.get_index(index).unwrap();
        let c = entry.1;
        let goal = success(&node);
        if goal {
            proof {
                if admissible(must, reject, estimate) {
                    if found0 {
                        lemma_sunk_shape(
                            may,
                            must,
                            accept,
                            reject,
                            estimate,
                            origin,
                            nodes0,
                            cost0,
                            sinks@,
                            min_cost,
                        );
                    } else {
                        assert forall|q: Seq<u64>, costs: Seq<u64>|
                            #[trigger] is_route(must, q, costs) && q[0] == origin && !reject(
                                q.last(),
                            ) implies cost <= sat_total(costs) by {
                            assert(costs.take(0) =~= Seq::<u64>::empty());
                            assert(nodes0[0] == q[0] && cost0[0] <= sat_total(costs.take(0)));
                            let x = lemma_route_meets_frontier(
                                must,
                                reject,
                                estimate,
                                origin,
                                nodes0,
                                cost0,
                                done,
                                heap0,
                                q,
                                costs,
                                0,
                            );
                            assert(ranks_with(popped, x));
                        }
                    }
                    assert(cheapest(must, reject, origin, cost));
                }
                lemma_sunk_goal(
                    may,
                    must,
                    accept,
                    reject,
                    estimate,
                    origin,
                    nodes0,
                    cost0,
                    sinks@,
                    min_cost,
                    index,
                    cost,
                );
                lemma_labelled_found(
                    must,
                    reject,
                    estimate,
                    origin,
                    nodes0,
                    cost0,
                    done,
                    to_see@,
                    if cost == c {
                        index as int
                    } else {
                        -1
                    },
                    found0,
                );
            }
            let ghost sinks0 = sinks@;
            min_cost = Some(cost);
            sinks.insert(index);
            proof {
                lemma_fanned_shape(may, origin, nodes0, fans0, cost0, 0);
                lemma_grown_same(nodes0, cost0, fans0);
                lemma_recorded_keeps(
                    must,
                    reject,
                    nodes0,
                    cost0,
                    fans0,
                    done,
                    sinks0,
                    nodes0,
                    cost0,
                    fans0,
                    done,
                    sinks@,
                );
            }
        }
        if cost > c {
            continue ;
        }
        let ghost phi0 = potential(cost0);
        proof {
            lemma_potential_nonnegative(cost0);
        }
        let listed = successors(&node);
        let mut k: usize = 0;
        while k < listed.len()
            invariant
                callable(heuristic),
                may == may_arc(successors),
                must == must_arc(successors),
                estimate == may_estimate(heuristic),
                to_see.wf(),
                parents.wf(),
                labelled(
                    must,
                    reject,
                    estimate,
                    origin,
                    parents.nodes(),
                    bag_costs(parents.values()),
                    done,
                    to_see@,
                    index as int,
                    min_cost.is_some(),
                ),
                fanned(may, origin, parents.nodes(), fans_of(parents.values()), bag_costs(parents.values())),
                sunk(
                    may,
                    must,
                    accept,
                    reject,
                    estimate,
                    origin,
                    parents.nodes(),
                    bag_costs(parents.values()),
                    sinks@,
                    min_cost,
                ),
                index < parents.nodes().len(),
                node == parents.nodes()[index as int],
                cost == parents.values()[index as int].1,
                call_ensures(successors, (&node,), listed),
                k <= listed.len(),
                recorded(
                    must,
                    reject,
                    parents.nodes(),
                    bag_costs(parents.values()),
                    fans_of(parents.values()),
                    done,
                    sinks@,
                ),
                goal ==> sinks@.contains(index),
                !goal ==> reject(node),
                forall|t: int|
                    0 <= t < k ==> within_fan(
                        parents.nodes(),
                        bag_costs(parents.values()),
                        fans_of(parents.values()),
                        (#[trigger] listed@[t]).0,
                        sat_add(cost as int, listed@[t].1 as int),
                        index as int,
                    ),
                0 <= potential(bag_costs(parents.values())) <= phi0,
                potential(bag_costs(parents.values())) == phi0 ==> to_see@.len() == heap0.len() - 1,
            decreases listed.len() - k,
        {
            let (successor, move_cost) = listed[k];
            let new_cost = cost.saturating_add(move_cost);
            let ghost nodes1 = parents.nodes();
            let ghost entries1 = parents.values();
            let ghost cost1 = bag_costs(entries1);
            let ghost fans1 = fans_of(entries1);
            let ghost heap1 = to_see@;
            let ghost found1 = min_cost.is_some();
            let ghost done1 = done;
            proof {
                assert(listed@.contains((successor, move_cost)));
                assert(may(node, successor, move_cost));
                lemma_labelled_shape(
                    must,
                    reject,
                    estimate,
                    origin,
                    nodes1,
                    cost1,
                    done,
                    heap1,
                    index as int,
                    found1,
                );
            }
            let known = parents.get_index_of(successor);
            let at = match known {
                None => {
                    let n = parents.len();
                    let mut p: HashSet<usize> = HashSet::new();
                    p.insert(index);
                    parents.insert_full(successor, (p, new_cost));
                    proof {
                        lemma_fanned_discover(
                            may,
                            origin,
                            nodes1,
                            fans1,
                            cost1,
                            index as int,
                            successor,
                            move_cost,
                            new_cost,
                        );
                        assert(bag_costs(parents.values()) =~= cost1.push(new_cost));
                        assert(fans_of(parents.values()) =~= fans1.push(Set::<usize>::empty().insert(index)));
                        lemma_potential_push(cost1, new_cost);
                        lemma_grown_push(
                            nodes1,
                            cost1,
                            fans1,
                            successor,
                            new_cost,
                            Set::<usize>::empty().insert(index),
                        );
                    }
                    Some(n)
                },
                Some(n) => {
                    let (_, below) = parents.get_index(n).unwrap();
                    let recorded = below.1;
                    if recorded > new_cost {
                        let s = parents.value_mut(n);
                        s.0.clear();
                        s.0.insert(index);
                        s.1 = new_cost;
                        proof {
                            lemma_fanned_replace(
                                may,
                                origin,
                                nodes1,
                                fans1,
                                cost1,
                                index as int,
                                n as int,
                                move_cost,
                                new_cost,
                            );
                            assert(bag_costs(parents.values()) =~= cost1.update(n as int, new_cost));
                            assert(fans_of(parents.values()) =~= fans1.update(
                                n as int,
                                Set::<usize>::empty().insert(index),
                            ));
                            lemma_potential_update(cost1, n as int, new_cost);
                            lemma_grown_replace(
                                nodes1,
                                cost1,
                                fans1,
                                n as int,
                                new_cost,
                                Set::<usize>::empty().insert(index),
                            );
                        }
                        Some(n)
                    } else {
                        if recorded == new_cost {
                            let s = parents.value_mut(n);
                            s.0.insert(index);
                            proof {
                                lemma_fanned_add(
                                    may,
                                    origin,
                                    nodes1,
                                    fans1,
                                    cost1,
                                    index as int,
                                    n as int,
                                    move_cost,
                                );
                                assert(bag_costs(parents.values()) =~= cost1);
                                assert(fans_of(parents.values()) =~= fans1.update(
                                    n as int,
                                    fans1[n as int].insert(index),
                                ));
                                lemma_grown_add(nodes1, cost1, fans1, n as int, index);
                            }
                        } else {
                            proof {
                                lemma_grown_same(nodes1, cost1, fans1);
                            }
                        }
                        None
                    }
                },
            };
            match at {
                Some(n) => {
                    let h = heuristic(&successor);
                    let candidate = SmallestCostHolder {
                        estimated_cost: new_cost.saturating_add(h),
                        cost: new_cost,
                        index: n,
                    };
                    to_see.push(candidate);
                    proof {
                        assert(estimate(successor, h));
                        assert(parents.nodes()[n as int] == successor);
                        if n < nodes1.len() {
                            assert(nodes1[n as int] == successor);
                            assert(estimate(nodes1[candidate.index as int], h) && candidate.estimated_cost
                                == sat_add(candidate.cost as int, h as int));
                        }
                        if n == nodes1.len() {
                            lemma_labelled_discover(
                                must,
                                reject,
                                estimate,
                                origin,
                                nodes1,
                                cost1,
                                done,
                                heap1,
                                index as int,
                                successor,
                                candidate,
                                found1,
                            );
                            done = done.push(false);
                        } else {
                            lemma_labelled_improve(
                                must,
                                reject,
                                estimate,
                                origin,
                                nodes1,
                                cost1,
                                done,
                                heap1,
                                index as int,
                                candidate,
                                found1,
                            );
                            done = done.update(n as int, false);
                        }
                        assert(parents.nodes()[n as int] == successor);
                    }
                },
                None => {},
            }
            proof {
                let nodes2 = parents.nodes();
                let cost2 = bag_costs(parents.values());
                lemma_sunk_keeps(
                    may,
                    must,
                    accept,
                    reject,
                    estimate,
                    origin,
                    nodes1,
                    cost1,
                    nodes2,
                    cost2,
                    sinks@,
                    min_cost,
                );
                let fans2 = fans_of(parents.values());
                assert(grown(nodes1, cost1, fans1, nodes2, cost2, fans2));
                lemma_fanned_shape(may, origin, nodes2, fans2, cost2, 0);
                lemma_labelled_shape(
                    must,
                    reject,
                    estimate,
                    origin,
                    nodes2,
                    cost2,
                    done,
                    to_see@,
                    index as int,
                    min_cost.is_some(),
                );
                lemma_recorded_keeps(
                    must,
                    reject,
                    nodes1,
                    cost1,
                    fans1,
                    done1,
                    sinks@,
                    nodes2,
                    cost2,
                    fans2,
                    done,
                    sinks@,
                );
                let bound = sat_add(cost as int, move_cost as int);
                assert(within_fan(nodes2, cost2, fans2, successor, bound, index as int)) by {
                    let j = match known {
                        Some(n) => n as int,
                        None => nodes1.len() as int,
                    };
                    assert(nodes2[j] == successor);
                    assert(cost2[j] <= bound);
                    assert(cost2[j] == bound ==> fans2[j].contains(index));
                }
                assert forall|t: int| 0 <= t < k implies within_fan(
                    nodes2,
                    cost2,
                    fans2,
                    (#[trigger] listed@[t]).0,
                    sat_add(cost as int, listed@[t].1 as int),
                    index as int,
                ) by {
                    lemma_within_fan_keeps(
                        nodes1,
                        cost1,
                        fans1,
                        nodes2,
                        cost2,
                        fans2,
                        listed@[t].0,
                        sat_add(cost as int, listed@[t].1 as int),
                        index as int,
                    );
                }
            }
            k += 1;
        }
        proof {
            let nodes2 = parents.nodes();
            let cost2 = bag_costs(parents.values());
            let fans2 = fans_of(parents.values());
            assert forall|b: u64, c: u64| #[trigger] must(nodes2[index as int], b, c) implies within_fan(
                nodes2,
                cost2,
                fans2,
                b,
                sat_add(cost2[index as int] as int, c as int),
                index as int,
            ) && within(nodes2, cost2, b, sat_add(cost2[index as int] as int, c as int)) by {
                assert(listed@.contains((b, c)));
                let t = choose|t: int| 0 <= t < listed@.len() && listed@[t] == (b, c);
                assert(listed@[t].0 == b && listed@[t].1 == c);
                lemma_within_fan_within(
                    nodes2,
                    cost2,
                    fans2,
                    b,
                    sat_add(cost2[index as int] as int, c as int),
                    index as int,
                );
            }
            assert(settled(must, nodes2, cost2, index as int));
            assert(fan_settled(must, nodes2, cost2, fans2, index as int));
            lemma_recorded_finish(must, reject, nodes2, cost2, fans2, done, sinks@, index as int);
            lemma_labelled_shape(
                must,
                reject,
                estimate,
                origin,
                nodes2,
                cost2,
                done,
                to_see@,
                index as int,
                min_cost.is_some(),
            );
            lemma_labelled_finish(
                must,
                reject,
                estimate,
                origin,
                nodes2,
                cost2,
                done,
                to_see@,
                index as int,
                min_cost.is_some(),
            );
            done = done.update(index as int, true);
        }
    }
}

/// `p` is a path from `start` to a node that `accept` holds of, by steps of
/// `may`; where the caller's functions are exact, the steps cost `cost`
/// together.
pub open spec fn is_goal_path(
    may: spec_fn(u64, u64, u64) -> bool,
    start: u64,
    accept: spec_fn(u64) -> bool,
    tight: bool,
    p: Seq<u64>,
    cost: u64,
) -> bool {
    &&& p.len() >= 1
    &&& p[0] == start
    &&& accept(p.last())
    &&& exists|costs: Seq<u64>| #[trigger] is_route(may, p, costs) && (tight ==> sat_total(costs) == cost)
}

/// The paths `paths` are what a search for all the cheapest paths owes
/// where the enumeration is owed: at least one path, no path twice, and
/// each a path from `start` to a goal. If the caller's functions are exact,
/// each costs `cost`, and every route from `start` to a goal that costs
/// `cost` is among them.
pub open spec fn are_cheapest_paths(
    may: spec_fn(u64, u64, u64) -> bool,
    must: spec_fn(u64, u64, u64) -> bool,
    start: u64,
    accept: spec_fn(u64) -> bool,
    reject: spec_fn(u64) -> bool,
    estimate: spec_fn(u64, u64) -> bool,
    paths: Seq<Seq<u64>>,
    cost: u64,
) -> bool {
    &&& paths.len() >= 1
    &&& paths.no_duplicates()
    &&& forall|k: int|
        0 <= k < paths.len() ==> is_goal_path(
            may,
            start,
            accept,
            exact(may, must, accept, reject, estimate),
            #[trigger] paths[k],
            cost,
        )
    &&& exact(may, must, accept, reject, estimate) ==> forall|q: Seq<u64>, costs: Seq<u64>|
        #[trigger] is_route(must, q, costs) && q[0] == start && !reject(q.last()) && sat_total(costs) == cost
            ==> paths.contains(q)
}

/// What a search for all the cheapest paths owes its caller. If it found
/// nothing, every route of `must` steps from `start` ends in a node that
/// `reject` holds of. Else a route leads to a goal at no more than the cost
/// that came back, and with an admissible estimate no route to a goal is
/// cheaper. The enumeration is owed where the steps that cost nothing do not
/// run in a circle and no route from `start` costs `u64::MAX` or more: there
/// the parents that the search recorded cannot run in a circle.
pub open spec fn all_cheapest(
    may: spec_fn(u64, u64, u64) -> bool,
    must: spec_fn(u64, u64, u64) -> bool,
    start: u64,
    accept: spec_fn(u64) -> bool,
    reject: spec_fn(u64) -> bool,
    estimate: spec_fn(u64, u64) -> bool,
    found: Option<(AstarSolution, u64)>,
) -> bool {
    match found {
        None => forall|q: Seq<u64>, costs: Seq<u64>|
            #[trigger] is_route(must, q, costs) && q[0] == start ==> reject(q.last()),
        Some((solution, cost)) => {
            &&& goal_within(may, accept, start, cost)
            &&& admissible(must, reject, estimate) ==> cheapest(must, reject, start, cost)
            &&& grounded(may) && unsaturated(may, start) ==> {
                &&& solution.wf()
                &&& are_cheapest_paths(may, must, start, accept, reject, estimate, solution.paths(), cost)
            }
        },
    }
}

/// The node sequences of a list of paths.
pub open spec fn paths_view(paths: Vec<Vec<u64>>) -> Seq<Seq<u64>> {
    Seq::new(paths@.len(), |k: int| paths@[k]@)
}

/// All the cheapest paths from `start` to a node that `success` accepts, in
/// one list, with their cost: what [`astar_bag`] finds, with every path
/// built.
///
/// There can be very many cheapest paths. The steps that cost nothing must
/// not run in a circle, and no route from `start` may cost `u64::MAX` or
/// more: else the parents that the search records can run in a circle, and
/// there is no end of paths.
#[verifier::rlimit(50)]
pub fn astar_bag_collect<FN, FH, FS>(start: &u64, successors: FN, heuristic: FH, success: FS) -> (found:
    Option<(Vec<Vec<u64>>, u64)>) where
    FN: FnMut(&u64) -> Vec<(u64, u64)>,
    FH: FnMut(&u64) -> u64,
    FS: FnMut(&u64) -> bool,

    requires
        callable(successors),
        callable(heuristic),
        callable(success),
        grounded(may_arc(successors)),
        unsaturated(may_arc(successors), *start),
    ensures
        match found {
            None => forall|q: Seq<u64>, costs: Seq<u64>|
                #[trigger] is_route(must_arc(successors), q, costs) && q[0] == *start ==> rejects(success)(
                    q.last(),
                ),
            Some((paths, cost)) => {
                &&& goal_within(may_arc(successors), accepts(success), *start, cost)
                &&& admissible(must_arc(successors), rejects(success), may_estimate(heuristic)) ==> cheapest(
                    must_arc(successors),
                    rejects(success),
                    *start,
                    cost,
                )
                &&& are_cheapest_paths(
                    may_arc(successors),
                    must_arc(successors),
                    *start,
                    accepts(success),
                    rejects(success),
                    may_estimate(heuristic),
                    paths_view(paths),
                    cost,
                )
            },
        },
{
    let (mut solutions, cost) = match astar_bag(start, successors, heuristic, success) {
        Some(found) => found,
        None => {
            return None;
        },
    };
    let ghost all = solutions.paths();
    let mut paths: Vec<Vec<u64>> = Vec::new();
    loop
        invariant
            solutions.wf(),
            paths_view(paths) + solutions.paths() == all,
        ensures
            paths_view(paths) == all,
        decreases solutions.paths().len(),
    {
        let ghost before = paths_view(paths);
        let ghost left = solutions.paths();
        match solutions.next() {
            Some(path) => {
                paths.push(path);
                proof {
                    assert(paths_view(paths) =~= before.push(left[0]));
                    assert(before.push(left[0]) + left.skip(1) =~= before + left);
                }
            },
            None => {
                proof {
                    assert(before + left =~= before);
                }
                break ;
            },
        }
    }
    Some((paths, cost))
}

/// The elements of a set, each once, in the order in which the set hands
/// them out.
fn to_list(set: &HashSet<usize>) -> (list: Vec<usize>)
    ensures
        list@.no_duplicates(),
        list@.to_set() == set@,
{
    broadcast use vstd::std_specs::hash::group_hash_axioms;

    let ghost all = set.iter().remaining().unref();
    let mut list: Vec<usize> = Vec::new();
    for x in it: set.iter()
        invariant
            it.seq().unref() == all,
            list@ == all.take(it.index() as int),
    {
        assert(all.take(it.index() + 1) =~= all.take(it.index() as int).push(*x));
        list.push(*x);
    }
    proof {
        assert(list@ =~= all);
        let handed = set.iter().remaining();
        assert(handed.no_duplicates());
        assert forall|i: int, j: int| 0 <= i < all.len() && 0 <= j < all.len() && i != j
            implies all[i] != all[j] by {
            assert(handed[i] != handed[j]);
        }
    }
    list
}

/// The highest rank that `r` gives to a node of `nodes`.
pub open spec fn highest(nodes: Seq<u64>, r: spec_fn(u64) -> nat) -> nat
    decreases nodes.len(),
{
    if nodes.len() == 0 {
        0
    } else {
        let before = highest(nodes.drop_last(), r);
        if r(nodes.last()) > before {
            r(nodes.last())
        } else {
            before
        }
    }
}

/// No node of `nodes` ranks above the highest rank.
pub proof fn lemma_highest(nodes: Seq<u64>, r: spec_fn(u64) -> nat, i: int)
    requires
        0 <= i < nodes.len(),
    ensures
        r(nodes[i]) <= highest(nodes, r),
    decreases nodes.len(),
{
    if i < nodes.len() - 1 {
        lemma_highest(nodes.drop_last(), r, i);
        assert(nodes.drop_last()[i] == nodes[i]);
    }
}

/// The rank by which the parents of a search for all the cheapest paths
/// descend: by the cost of the node, and among nodes of one cost by the rank
/// `r`, which rises along the steps that cost nothing.
pub open spec fn ranks_by_cost(cost: Seq<u64>, nodes: Seq<u64>, r: spec_fn(u64) -> nat) -> Seq<nat> {
    Seq::new(cost.len(), |i: int| (cost[i] * (highest(nodes, r) + 1) + r(nodes[i]) + 1) as nat)
}

/// A bound above the ranks by cost.
pub open spec fn rank_top(nodes: Seq<u64>, r: spec_fn(u64) -> nat) -> nat {
    ((u64::MAX + 1) * (highest(nodes, r) + 1) + 1) as nat
}

/// A parent by right ranks below its child, and every rank is below the top.
proof fn lemma_ranks_descend(
    may: spec_fn(u64, u64, u64) -> bool,
    nodes: Seq<u64>,
    cost: Seq<u64>,
    r: spec_fn(u64) -> nat,
    p: int,
    i: int,
)
    requires
        cost.len() == nodes.len(),
        0 <= i < nodes.len(),
        rises_along_free_steps(may, r),
        cost[i] < u64::MAX,
        linked(may, nodes, cost, p, i),
    ensures
        0 < ranks_by_cost(cost, nodes, r)[p] < ranks_by_cost(cost, nodes, r)[i] < rank_top(nodes, r),
{
    let k = highest(nodes, r) + 1;
    lemma_highest(nodes, r, p);
    lemma_highest(nodes, r, i);
    let c = choose|c: u64| #[trigger] may(nodes[p], nodes[i], c) && sat_add(cost[p] as int, c as int) <= cost[i];
    let below = cost[p] as int;
    let above = cost[i] as int;
    if c == 0 {
        assert(may(nodes[p], nodes[i], 0));
        assert(r(nodes[p]) < r(nodes[i]));
        assert(below * k <= above * k) by (nonlinear_arith)
            requires
                below <= above,
                k >= 1,
        ;
    } else {
        assert(below * k + k <= above * k) by (nonlinear_arith)
            requires
                below + 1 <= above,
                k >= 1,
        ;
    }
    assert(above * k + k <= (u64::MAX + 1) * k) by (nonlinear_arith)
        requires
            above <= u64::MAX,
            k >= 1,
    ;
    assert(below * k >= 0) by (nonlinear_arith)
        requires
            below >= 0,
            k >= 1,
    ;
}

/// Every rank by cost is above 0 and below the top.
proof fn lemma_ranks_bounded(nodes: Seq<u64>, cost: Seq<u64>, r: spec_fn(u64) -> nat, i: int)
    requires
        cost.len() == nodes.len(),
        0 <= i < nodes.len(),
    ensures
        0 < ranks_by_cost(cost, nodes, r)[i] < rank_top(nodes, r),
{
    let k = highest(nodes, r) + 1;
    lemma_highest(nodes, r, i);
    let above = cost[i] as int;
    assert(above * k + k <= (u64::MAX + 1) * k) by (nonlinear_arith)
        requires
            above <= u64::MAX,
            k >= 1,
    ;
    assert(above * k >= 0) by (nonlinear_arith)
        requires
            above >= 0,
            k >= 1,
    ;
}

/// Ends the search: with no goal found there is nothing to give; else the
/// parent sets and the sinks are laid out as lists for the enumeration.
#[verifier::rlimit(50)]
fn conclude(
    parents: Registry<(HashSet<usize>, u64)>,
    sinks: HashSet<usize>,
    min_cost: Option<u64>,
    Ghost(may): Ghost<spec_fn(u64, u64, u64) -> bool>,
    Ghost(must): Ghost<spec_fn(u64, u64, u64) -> bool>,
    Ghost(accept): Ghost<spec_fn(u64) -> bool>,
    Ghost(reject): Ghost<spec_fn(u64) -> bool>,
    Ghost(estimate): Ghost<spec_fn(u64, u64) -> bool>,
    Ghost(origin): Ghost<u64>,
    Ghost(done): Ghost<Seq<bool>>,
    Ghost(heap): Ghost<Multiset<SmallestCostHolder>>,
) -> (found: Option<(AstarSolution, u64)>)
    requires
        parents.wf(),
        parents.nodes().len() >= 1,
        parents.nodes()[0] == origin,
        labelled(
            must,
            reject,
            estimate,
            origin,
            parents.nodes(),
            bag_costs(parents.values()),
            done,
            heap,
            -1,
            true,
        ),
        recorded(
            must,
            reject,
            parents.nodes(),
            bag_costs(parents.values()),
            fans_of(parents.values()),
            done,
            sinks@,
        ),
        min_cost.is_some() ==> forall|x: SmallestCostHolder| #[trigger]
            heap.count(x) > 0 ==> x.estimated_cost > min_cost.unwrap(),
        fanned(may, origin, parents.nodes(), fans_of(parents.values()), bag_costs(parents.values())),
        sunk(
            may,
            must,
            accept,
            reject,
            estimate,
            origin,
            parents.nodes(),
            bag_costs(parents.values()),
            sinks@,
            min_cost,
        ),
        min_cost.is_none() ==> forall|q: Seq<u64>, costs: Seq<u64>|
            #[trigger] is_route(must, q, costs) && q[0] == origin ==> reject(q.last()),
    ensures
        all_cheapest(may, must, origin, accept, reject, estimate, found),
{
    let cost = match min_cost {
        Some(cost) => cost,
        None => {
            return None;
        },
    };
    let ghost nodes = parents.nodes();
    let ghost fans = fans_of(parents.values());
    let ghost costs = bag_costs(parents.values());
    let mut table: Vec<(u64, Vec<usize>)> = Vec::new();
    let n = parents.len();
    let mut i: usize = 0;
    while i < n
        invariant
            parents.wf(),
            n == parents.nodes().len(),
            nodes == parents.nodes(),
            fans == fans_of(parents.values()),
            i <= n,
            table@.len() == i,
            forall|j: int|
                0 <= j < i ==> {
                    &&& (#[trigger] table@[j]).0 == nodes[j]
                    &&& table@[j].1@.no_duplicates()
                    &&& table@[j].1@.to_set() == fans[j]
                },
        decreases n - i,
    {
        let (node, entry) = parents.get_index(i).unwrap();
        let list = to_list(&entry.0);
        table.push((node, list));
        i += 1;
    }
    let sink_list = to_list(&sinks);
    let ghost free_rank = choose|r: spec_fn(u64) -> nat| rises_along_free_steps(may, r);
    let ghost rank = ranks_by_cost(costs, nodes, free_rank);
    let ghost cap = rank_top(nodes, free_rank);
    let solution = AstarSolution {
        sinks: sink_list,
        parents: table,
        current: Vec::new(),
        terminated: false,
        rank: Ghost(rank),
        cap: Ghost(cap),
    };
    proof {
        lemma_sunk_shape(may, must, accept, reject, estimate, origin, nodes, costs, sinks@, min_cost);
        assert(solution.names() =~= nodes);
        assert(solution.stack() =~= Seq::<Seq<usize>>::empty());
        if grounded(may) && unsaturated(may, origin) {
            lemma_bag_is_cheapest(
                may,
                must,
                accept,
                reject,
                estimate,
                origin,
                nodes,
                fans,
                costs,
                sinks@,
                cost,
                solution.table(),
                solution.sinks(),
                done,
                heap,
                free_rank,
            );
            assert(stack_wf(solution.table(), solution.sinks(), solution.stack())) by {
                reveal(stack_wf);
            }
            assert(solution.rank() == rank);
            assert(solution.cap() == cap);
            assert(solution.sound());
            assert(solution.wf());
            assert(solution.paths() == paths_of(
                nodes,
                chains_via(solution.table(), rank, solution.sinks(), cap),
            ));
        }
        assert(all_cheapest(may, must, origin, accept, reject, estimate, Some((solution, cost))));
    }
    Some((solution, cost))
}

/// A chain of the table is a route of `may` steps from the start node that
/// costs no more than what is recorded for its end.
proof fn lemma_chain_route(
    may: spec_fn(u64, u64, u64) -> bool,
    start: u64,
    nodes: Seq<u64>,
    fans: Seq<Set<usize>>,
    cost: Seq<u64>,
    table: Seq<Seq<usize>>,
    c: Seq<int>,
) -> (steps: Seq<u64>)
    requires
        fanned(may, start, nodes, fans, cost),
        nodes.len() >= 1,
        nodes[0] == start,
        table.len() == nodes.len(),
        forall|i: int| 0 <= i < table.len() ==> (#[trigger] table[i]).no_duplicates() && table[i].to_set() == fans[i],
        is_chain(table, c),
    ensures
        is_route(may, nodes_at(nodes, c), steps),
        nodes_at(nodes, c)[0] == start,
        sat_total(steps) <= cost[c.last()],
    decreases c.len(),
{
    let p = nodes_at(nodes, c);
    let i = c.last();
    lemma_fanned_shape(may, start, nodes, fans, cost, i);
    if c.len() == 1 {
        assert(table[i].no_duplicates() && table[i].to_set() == fans[i]);
        table[i].unique_seq_to_set();
        assert(i == 0);
        let steps = Seq::<u64>::empty();
        assert(is_route(may, p, steps));
        steps
    } else {
        let shorter = c.drop_last();
        let q = shorter.last();
        assert(q == c[c.len() - 2]);
        assert(parent_at(table, c, c.len() - 1));
        assert forall|t: int| 1 <= t < shorter.len()
            implies #[trigger] parent_at(table, shorter, t) by {
            assert(parent_at(table, c, t));
            assert(shorter[t] == c[t]);
            assert(shorter[t - 1] == c[t - 1]);
        }
        assert(shorter[0] == c[0]);
        assert(is_chain(table, shorter));
        let before = lemma_chain_route(may, start, nodes, fans, cost, table, shorter);
        assert(table[i].to_set() == fans[i]);
        assert(table[i].to_set().contains(q as usize));
        assert(fans[i].contains(q as usize));
        assert(linked(may, nodes, cost, q, i));
        let w = choose|w: u64|
            #[trigger] may(nodes[q], nodes[i], w) && sat_add(cost[q] as int, w as int) <= cost[i];
        let r = nodes_at(nodes, shorter);
        lemma_route_push(may, r, before, nodes[i], w);
        assert(r.push(nodes[i]) =~= p);
        lemma_total_nonnegative(before);
        before.push(w)
    }
}

/// Chains that differ stand for paths that differ.
proof fn lemma_paths_distinct(names: Seq<u64>, table: Seq<Seq<usize>>, chains: Seq<Seq<int>>)
    requires
        names.no_duplicates(),
        names.len() == table.len(),
        chains.no_duplicates(),
        forall|k: int| 0 <= k < chains.len() ==> is_chain(table, #[trigger] chains[k]),
    ensures
        paths_of(names, chains).no_duplicates(),
{
    let paths = paths_of(names, chains);
    assert forall|a: int, b: int| 0 <= a < paths.len() && 0 <= b < paths.len() && a != b implies paths[a]
        != paths[b] by {
        if paths[a] == paths[b] {
            let x = chains[a];
            let y = chains[b];
            assert(is_chain(table, x) && is_chain(table, y));
            assert(x.len() == paths[a].len());
            assert(y.len() == paths[b].len());
            assert forall|t: int| 0 <= t < x.len() implies x[t] == y[t] by {
                assert(paths[a][t] == names[x[t]]);
                assert(paths[b][t] == names[y[t]]);
            }
            assert(x =~= y);
        }
    }
}

/// What the search has recorded is a sound table whose chains are the
/// cheapest paths.
#[verifier::rlimit(50)]
proof fn lemma_bag_is_cheapest(
    may: spec_fn(u64, u64, u64) -> bool,
    must: spec_fn(u64, u64, u64) -> bool,
    accept: spec_fn(u64) -> bool,
    reject: spec_fn(u64) -> bool,
    estimate: spec_fn(u64, u64) -> bool,
    start: u64,
    nodes: Seq<u64>,
    fans: Seq<Set<usize>>,
    cost: Seq<u64>,
    sinks: Set<usize>,
    least: u64,
    table: Seq<Seq<usize>>,
    sink_list: Seq<usize>,
    done: Seq<bool>,
    heap: Multiset<SmallestCostHolder>,
    r: spec_fn(u64) -> nat,
)
    requires
        fanned(may, start, nodes, fans, cost),
        sunk(may, must, accept, reject, estimate, start, nodes, cost, sinks, Some(least)),
        labelled(must, reject, estimate, start, nodes, cost, done, heap, -1, true),
        recorded(must, reject, nodes, cost, fans, done, sinks),
        forall|x: SmallestCostHolder| #[trigger] heap.count(x) > 0 ==> x.estimated_cost > least,
        nodes.no_duplicates(),
        nodes.len() >= 1,
        nodes[0] == start,
        table.len() == nodes.len(),
        forall|i: int| 0 <= i < table.len() ==> (#[trigger] table[i]).no_duplicates() && table[i].to_set() == fans[i],
        sink_list.no_duplicates(),
        sink_list.to_set() == sinks,
        rises_along_free_steps(may, r),
        unsaturated(may, start),
    ensures
        table_wf(table, ranks_by_cost(cost, nodes, r), sink_list, rank_top(nodes, r)),
        sink_list.len() >= 1,
        are_cheapest_paths(
            may,
            must,
            start,
            accept,
            reject,
            estimate,
            paths_of(
                nodes,
                chains_via(table, ranks_by_cost(cost, nodes, r), sink_list, rank_top(nodes, r)),
            ),
            least,
        ),
{
    let rank = ranks_by_cost(cost, nodes, r);
    let cap = rank_top(nodes, r);
    let tight = exact(may, must, accept, reject, estimate);
    lemma_sunk_shape(may, must, accept, reject, estimate, start, nodes, cost, sinks, Some(least));
    lemma_fanned_shape(may, start, nodes, fans, cost, 0);
    lemma_labelled_shape(must, reject, estimate, start, nodes, cost, done, heap, -1, true);
    lemma_start_has_no_parent(may, start, nodes, fans, cost, r);
    sink_list.unique_seq_to_set();
    assert forall|i: int| 0 <= i < table.len() implies 0 < #[trigger] rank[i] < cap by {
        lemma_ranks_bounded(nodes, cost, r, i);
    }
    assert forall|k: int| 0 <= k < sink_list.len() implies #[trigger] sink_list[k] < table.len()
        && rank[sink_list[k] as int] > 0 by {
        assert(sink_list.to_set().contains(sink_list[k]));
        assert(sinks.contains(sink_list[k]));
        lemma_ranks_bounded(nodes, cost, r, sink_list[k] as int);
    }
    assert forall|i: int, j: int| 0 <= i < table.len() && 0 <= j < table[i].len()
        implies (#[trigger] table[i][j]) < table.len() && 0 < rank[table[i][j] as int] < rank[i] by {
        lemma_fanned_shape(may, start, nodes, fans, cost, i);
        assert(table[i].no_duplicates() && table[i].to_set() == fans[i]);
        assert(table[i].to_set().contains(table[i][j]));
        assert(fans[i].contains(table[i][j]));
        assert(linked(may, nodes, cost, table[i][j] as int, i));
        lemma_ranks_descend(may, nodes, cost, r, table[i][j] as int, i);
    }
    assert(table_wf(table, rank, sink_list, cap)) by {
        reveal(table_wf);
    }
    lemma_choices(table, rank, sink_list, cap, sink_list[0] as int);
    lemma_chains_via_right(table, rank, sink_list, cap, sink_list, cap);
    let chains = chains_via(table, rank, sink_list, cap);
    let paths = paths_of(nodes, chains);
    lemma_paths_distinct(nodes, table, chains);
    assert forall|k: int| 0 <= k < paths.len() implies is_goal_path(
        may,
        start,
        accept,
        tight,
        #[trigger] paths[k],
        least,
    ) by {
        let c = chains[k];
        let p = paths[k];
        assert(p == nodes_at(nodes, c));
        assert(is_chain(table, c) && sink_list.contains(c.last() as usize));
        let steps = lemma_chain_route(may, start, nodes, fans, cost, table, c);
        let s = c.last() as usize;
        assert(sink_list.to_set().contains(s));
        assert(sinks.contains(s));
        assert(accept(nodes[s as int]));
        assert(p.last() == nodes[c.last()]);
        if tight {
            assert forall|t: int| 0 <= t < steps.len()
                implies must(p[t], p[t + 1], #[trigger] steps[t]) by {
                assert(may(p[t], p[t + 1], steps[t]));
            }
            assert(is_route(must, p, steps));
            assert(!reject(p.last()));
            assert(least <= sat_total(steps));
        }
        assert(is_route(may, p, steps) && (tight ==> sat_total(steps) == least));
    }
    if tight {
        assert(is_goal_path(may, start, accept, tight, paths[0], least));
        let first = choose|costs: Seq<u64>|
            #[trigger] is_route(may, paths[0], costs) && (tight ==> sat_total(costs) == least);
        assert(least < u64::MAX);
        lemma_labelled_shape(must, reject, estimate, start, nodes, cost, done, heap, -1, true);
        table[0].unique_seq_to_set();
        assert forall|q: Seq<u64>, costs: Seq<u64>|
            #[trigger] is_route(must, q, costs) && q[0] == start && !reject(q.last()) && sat_total(costs)
                == least implies paths.contains(q) by {
            assert(costs.take(0) =~= Seq::<u64>::empty());
            let c = lemma_cheapest_route_recorded(
                may,
                must,
                accept,
                reject,
                estimate,
                start,
                nodes,
                cost,
                fans,
                done,
                sinks,
                heap,
                least,
                q,
                costs,
                0,
                0,
            );
            assert forall|t: int| 1 <= t < c.len() implies #[trigger] parent_at(table, c, t) by {
                assert(held_at(fans, c, t));
                assert(fans[c[t]].contains(c[t - 1] as usize));
                assert(table[c[t]].no_duplicates() && table[c[t]].to_set() == fans[c[t]]);
                assert(table[c[t]].to_set().contains(c[t - 1] as usize));
            }
            assert(is_chain(table, c));
            assert(sink_list.to_set().contains(c.last() as usize));
            assert(sink_list.contains(c.last() as usize));
            assert(chains.contains(c));
            let k = choose|k: int| 0 <= k < chains.len() && chains[k] == c;
            assert(paths[k] =~= q);
        }
    }
}

/// The node paths that stand behind chains of positions.
pub open spec fn paths_of(names: Seq<u64>, chains: Seq<Seq<int>>) -> Seq<Seq<u64>> {
    Seq::new(chains.len(), |k: int| nodes_at(names, chains[k]))
}

/// All the cheapest paths that a search has found, given out one by one.
///
/// The search leaves a table that gives each discovered node the list of
/// its parents on the cheapest routes, and the list of the goals that it
/// reached, the sinks. A path is read off a stack of choice lists: the first
/// level holds sinks, each further level the parents of the node chosen on
/// the level before, and the node chosen on a level is the last of its list.
#[derive(Clone)]
pub struct AstarSolution {
    sinks: Vec<usize>,
    parents: Vec<(u64, Vec<usize>)>,
    current: Vec<Vec<usize>>,
    terminated: bool,
    rank: Ghost<Seq<nat>>,
    cap: Ghost<nat>,
}

impl AstarSolution {
    /// The parent positions of each position.
    pub closed spec fn table(&self) -> Seq<Seq<usize>> {
        Seq::new(self.parents@.len(), |i: int| self.parents@[i].1@)
    }

    /// The node at each position.
    pub closed spec fn names(&self) -> Seq<u64> {
        Seq::new(self.parents@.len(), |i: int| self.parents@[i].0)
    }

    /// The positions of the goals that the search reached.
    pub closed spec fn sinks(&self) -> Seq<usize> {
        self.sinks@
    }

    /// A rank for each position that falls strictly from a node to its
    /// parents, as the cost at which the search reached the nodes does.
    pub closed spec fn rank(&self) -> Seq<nat> {
        self.rank@
    }

    /// A bound above every rank.
    pub closed spec fn cap(&self) -> nat {
        self.cap@
    }

    /// The stack of choice lists.
    pub closed spec fn stack(&self) -> Seq<Seq<usize>> {
        Seq::new(self.current@.len(), |k: int| self.current@[k]@)
    }

    /// No path is left.
    pub closed spec fn ended(&self) -> bool {
        self.terminated
    }

    /// `other` holds the same table, sinks and ranks.
    pub open spec fn same_table(&self, other: &Self) -> bool {
        &&& self.table() == other.table()
        &&& self.names() == other.names()
        &&& self.sinks() == other.sinks()
        &&& self.rank() == other.rank()
        &&& self.cap() == other.cap()
    }

    /// The table and the stack are sound.
    pub open spec fn sound(&self) -> bool {
        &&& table_wf(self.table(), self.rank(), self.sinks(), self.cap())
        &&& stack_wf(self.table(), self.sinks(), self.stack())
        &&& self.names().len() == self.table().len()
    }

    /// The state is one that the enumeration can be in between two paths.
    pub open spec fn wf(&self) -> bool {
        &&& self.sound()
        &&& self.stack().len() == 0 && !self.ended() ==> self.sinks().len() >= 1
    }

    /// The position chosen on top of the stack has no parents, so that the
    /// chosen positions make up a path.
    pub open spec fn is_complete(&self) -> bool {
        &&& self.stack().len() >= 1
        &&& self.stack().last().len() >= 1
        &&& self.table()[self.stack().last().last() as int].len() == 0
    }

    /// The paths that the stack stands for, in the order in which they are
    /// given out.
    pub open spec fn held(&self) -> Seq<Seq<u64>> {
        paths_of(self.names(), rest_of(self.table(), self.rank(), self.cap(), self.stack()))
    }

    /// The paths that are still to come, in the order in which they are
    /// given out.
    pub open spec fn paths(&self) -> Seq<Seq<u64>> {
        if self.ended() {
            Seq::empty()
        } else if self.stack().len() == 0 {
            paths_of(self.names(), chains_via(self.table(), self.rank(), self.sinks(), self.cap()))
        } else {
            self.held()
        }
    }

    /// Extends the stack down to a node without parents: while the node
    /// chosen on top has parents, their list goes on top. On an empty stack
    /// the list of the sinks goes first.
    #[verifier::rlimit(50)]
    pub fn complete(&mut self)
        requires
            old(self).wf(),
            !old(self).ended(),
        ensures
            final(self).sound(),
            final(self).is_complete(),
            final(self).same_table(old(self)),
            final(self).ended() == old(self).ended(),
            final(self).paths() == old(self).paths(),
    {
        let ghost table = self.table();
        let ghost rank = self.rank();
        let ghost cap = self.cap();
        let ghost sinks = self.sinks();
        let ghost names = self.names();
        loop
            invariant
                self.sound(),
                self.same_table(old(self)),
                table == self.table(),
                rank == self.rank(),
                cap == self.cap(),
                sinks == self.sinks(),
                names == self.names(),
                self.terminated == old(self).terminated,
                !self.terminated,
                self.stack().len() == 0 ==> sinks.len() >= 1,
                self.paths() == old(self).paths(),
            ensures
                self.is_complete(),
            decreases
                    (if self.stack().len() == 0 {
                        cap + 1
                    } else {
                        rank[self.stack().last().last() as int]
                    }),
        {
            let n = self.current.len();
            let ghost stack = self.stack();
            proof {
                if n > 0 {
                    lemma_top_choice(table, rank, sinks, cap, stack);
                }
            }
            let ps = if n == 0 {
                self.sinks.clone()
            } else {
                let last = &self.current[n - 1];
                let chosen = last[last.len() - 1];
                self.parents(chosen).clone()
            };
            if ps.is_empty() {
                break ;
            }
            proof {
                if n == 0 {
                    assert(ps@ =~= sinks);
                    lemma_push_sinks(table, rank, sinks, cap);
                } else {
                    assert(ps@ =~= table[stack.last().last() as int]);
                    lemma_push_keeps(table, rank, sinks, cap, stack);
                }
            }
            self.current.push(ps);
            proof {
                if n == 0 {
                    assert(self.stack() =~= seq![sinks]);
                } else {
                    assert(self.stack() =~= stack.push(table[stack.last().last() as int]));
                }
                lemma_top_choice(table, rank, sinks, cap, self.stack());
            }
        }
    }

    /// Moves on to the next path: the levels on which one node is left are
    /// taken off the stack, and on the level that is then on top the
    /// chosen node is dropped.
    #[verifier::rlimit(50)]
    pub fn next_vec(&mut self)
        requires
            old(self).sound(),
            old(self).is_complete(),
        ensures
            final(self).sound(),
            final(self).same_table(old(self)),
            final(self).ended() == old(self).ended(),
            final(self).held() == old(self).held().skip(1),
    {
        let ghost table = self.table();
        let ghost rank = self.rank();
        let ghost cap = self.cap();
        let ghost sinks = self.sinks();
        let ghost names = self.names();
        let ghost left = rest_after(table, rank, cap, self.stack());
        proof {
            lemma_complete_first(table, rank, sinks, cap, self.stack());
            let all = rest_of(table, rank, cap, self.stack());
            assert(all.skip(1) =~= left);
            assert(paths_of(names, all).skip(1) =~= paths_of(names, left));
        }
        loop
            invariant
                self.sound(),
                self.same_table(old(self)),
                table == self.table(),
                rank == self.rank(),
                cap == self.cap(),
                sinks == self.sinks(),
                names == self.names(),
                self.terminated == old(self).terminated,
                rest_after(table, rank, cap, self.stack()) == left,
            ensures
                self.stack().len() >= 1 ==> self.stack().last().len() >= 2,
            decreases self.current.len(),
        {
            let n = self.current.len();
            if n == 0 {
                break ;
            }
            proof {
                lemma_top_choice(table, rank, sinks, cap, self.stack());
            }
            if self.current[n - 1].len() != 1 {
                break ;
            }
            let ghost stack = self.stack();
            proof {
                lemma_pop_spent(table, rank, sinks, cap, stack);
            }
            self.current.pop();
            proof {
                assert(self.stack() =~= stack.drop_last());
            }
        }
        let n = self.current.len();
        if n > 0 {
            let ghost stack = self.stack();
            proof {
                lemma_drop_choice(table, rank, sinks, cap, stack);
            }
            self.current[n - 1].pop();
            proof {
                assert(self.stack() =~= stack.update(n - 1, stack.last().drop_last()));
            }
        } else {
            proof {
                assert(rest_of(table, rank, cap, self.stack()) =~= left);
            }
        }
    }

    /// The node at position `i`.
    pub fn node(&self, i: usize) -> (node: &u64)
        requires
            i < self.names().len(),
        ensures
            *node == self.names()[i as int],
    {
        &self.parents[i].0
    }

    /// The parent positions of position `i`.
    pub fn parents(&self, i: usize) -> (list: &Vec<usize>)
        requires
            i < self.table().len(),
        ensures
            list@ == self.table()[i as int],
    {
        &self.parents[i].1
    }

    /// The next of the cheapest paths, from the start node to a goal, or
    /// `None` when all have been given out. Once it has returned `None` it
    /// keeps doing so.
    #[verifier::rlimit(50)]
    pub fn next(&mut self) -> (path: Option<Vec<u64>>)
        requires
            old(self).wf(),
        ensures
            final(self).wf(),
            final(self).same_table(old(self)),
            old(self).ended() <==> old(self).paths().len() == 0,
            match path {
                None => old(self).paths().len() == 0 && final(self).paths() == old(self).paths(),
                Some(path) => {
                    &&& old(self).paths().len() > 0
                    &&& path@ == old(self).paths()[0]
                    &&& final(self).paths() == old(self).paths().skip(1)
                },
            },
    {
        if self.terminated {
            return None;
        }
        self.complete();
        let ghost table = self.table();
        let ghost rank = self.rank();
        let ghost cap = self.cap();
        let ghost sinks = self.sinks();
        let ghost names = self.names();
        let ghost stack = self.stack();
        proof {
            lemma_complete_first(table, rank, sinks, cap, stack);
            lemma_tail_reads(stack, 0);
        }
        let mut path: Vec<u64> = Vec::new();
        let n = self.current.len();
        let mut k = n;
        while k > 0
            invariant
                self.sound(),
                stack == self.stack(),
                names == self.names(),
                table == self.table(),
                rank == self.rank(),
                cap == self.cap(),
                sinks == self.sinks(),
                n == self.current.len(),
                k <= n,
                path@.len() == n - k,
                forall|t: int| 0 <= t < path@.len() ==> #[trigger] path@[t] == names[stack[n - 1 - t].last() as int],
            decreases k,
        {
            k -= 1;
            proof {
                assert(stack.take(k + 1).last() == stack[k as int]);
                lemma_stack_take(table, sinks, stack, k + 1);
                lemma_top_choice(table, rank, sinks, cap, stack.take(k + 1));
            }
            let level = &self.current[k];
            let chosen = level[level.len() - 1];
            path.push(*self.node(chosen));
        }
        proof {
            let tail = tail_of(stack);
            assert forall|t: int| 0 <= t < n
                implies tail[t] == #[trigger] stack[n - 1 - t].last() as int by {
                lemma_tail_reads(stack, t);
            }
            assert(path@ =~= nodes_at(names, tail));
        }
        self.next_vec();
        self.terminated = self.current.is_empty();
        proof {
            assert(self.stack().len() == 0 ==> rest_of(table, rank, cap, self.stack()) =~= Seq::<Seq<int>>::empty());
        }
        Some(path)
    }
}

/// Where the caller's functions are exact, the cost that a search for a
/// cheapest path returns is the cost of the steps along the path that it
/// returns, and no route to a goal costs less.
pub proof fn lemma_cheapest_cost_is_path_cost(
    may: spec_fn(u64, u64, u64) -> bool,
    must: spec_fn(u64, u64, u64) -> bool,
    start: u64,
    accept: spec_fn(u64) -> bool,
    reject: spec_fn(u64) -> bool,
    estimate: spec_fn(u64, u64) -> bool,
    p: Seq<u64>,
    cost: u64,
)
    requires
        is_cheapest_route(may, must, start, accept, reject, estimate, Some((p, cost))),
        exact(may, must, accept, reject, estimate),
    ensures
        exists|costs: Seq<u64>| #[trigger] is_route(must, p, costs) && sat_total(costs) == cost,
        cheapest(must, reject, start, cost),
{
    let paid = choose|costs: Seq<u64>|
        #[trigger] is_route(may, p, costs) && sat_total(costs) <= cost;
    assert forall|k: int| 0 <= k < paid.len() implies must(p[k], p[k + 1], #[trigger] paid[k]) by {
        assert(may(p[k], p[k + 1], paid[k]));
    }
    assert(is_route(must, p, paid));
    assert(cost <= sat_total(paid));
}

/// Where the successor function and the goal predicate fix what they give,
/// a search for all the cheapest paths finds something whenever a search for
/// one cheapest path does. Where the enumeration is owed, it holds a path;
/// and with an admissible estimate the two searches return one cost.
pub proof fn lemma_bag_matches_single(
    may: spec_fn(u64, u64, u64) -> bool,
    must: spec_fn(u64, u64, u64) -> bool,
    start: u64,
    accept: spec_fn(u64) -> bool,
    reject: spec_fn(u64) -> bool,
    estimate: spec_fn(u64, u64) -> bool,
    one: Option<(Seq<u64>, u64)>,
    many: Option<(AstarSolution, u64)>,
)
    requires
        is_cheapest_route(may, must, start, accept, reject, estimate, one),
        all_cheapest(may, must, start, accept, reject, estimate, many),
        definite(may, must),
        decisive(accept, reject),
        one.is_some(),
    ensures
        many.is_some(),
        grounded(may) && unsaturated(may, start) ==> many.unwrap().0.paths().len() >= 1,
        grounded(may) && unsaturated(may, start) && admissible(must, reject, estimate) ==> many.unwrap().1
            == one.unwrap().1,
{
    let (p, cost) = one.unwrap();
    let paid = choose|costs: Seq<u64>|
        #[trigger] is_route(may, p, costs) && sat_total(costs) <= cost;
    assert forall|k: int| 0 <= k < paid.len() implies must(p[k], p[k + 1], #[trigger] paid[k]) by {
        assert(may(p[k], p[k + 1], paid[k]));
    }
    assert(is_route(must, p, paid));
    assert(!reject(p.last()));
    if grounded(may) && unsaturated(may, start) && admissible(must, reject, estimate) {
        let (solution, least) = many.unwrap();
        assert(least <= sat_total(paid));
        let first = solution.paths()[0];
        let tight = exact(may, must, accept, reject, estimate);
        assert(is_goal_path(may, start, accept, tight, first, least));
        let steps = choose|costs: Seq<u64>| #[trigger]
            is_route(may, first, costs) && (tight ==> sat_total(costs) == least);
        assert forall|k: int| 0 <= k < steps.len()
            implies must(first[k], first[k + 1], #[trigger] steps[k]) by {
            assert(may(first[k], first[k + 1], steps[k]));
        }
        assert(is_route(must, first, steps));
        assert(!reject(first.last()));
        assert(cost <= sat_total(steps));
    }
}

} // verus!
