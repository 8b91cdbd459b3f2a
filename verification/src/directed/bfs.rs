//! Breadth-first search: a shortest path by number of steps, the shortest
//! loop back to a start node, the search from both ends, and the lazy
//! enumeration of all that can be reached.

use crate::directed::{climbs_at, lex_below, reverse_path};
use crate::graph::{
    accepts, callable, is_meeting_search, is_shortest_walk, is_walk, joins_at,
    lemma_same_goal, lemma_same_starts, lemma_walk_push, may_step, meets, must_step, path_view,
    rejects, reverses, step_at, step_back_at, walk_from,
};
use crate::layers::{
    lemma_unmet_advance, lemma_unmet_other_grows, lemma_unmet_push, lemma_unmet_start, unmet,
    at_boundary, hangs_at, is_trail, layered, lemma_advance, lemma_depth_order, lemma_discover,
    lemma_earlier_is_nearer, lemma_exhausted_holds_all, lemma_layered_shape, lemma_link_step,
    lemma_seeded, lemma_short_walk_turned_down, lemma_sides_unmet, lemma_trail_exists,
    lemma_trail_walk, lemma_turned_down_advance, lemma_turned_down_push, nodes_at, turned_down,
};
use crate::node_index::{
    clone_hasher, fx_build_hasher, index_find, index_get, index_insert, index_len,
    index_with_hasher, node_order, NodeHasher, NodeIndex,
};
use crate::registry::Registry;
use vstd::prelude::*;

verus! {

/// The set of the nodes in `start`, each held once.
fn node_refs(start: &[u64]) -> (set: NodeIndex)
    ensures
        forall|n: u64| node_order(set).contains(n) <==> start@.contains(n),
{
    let mut set = index_with_hasher(fx_build_hasher());
    let mut k: usize = 0;
    while k < start.len()
        invariant
            k <= start.len(),
            forall|t: int| 0 <= t < k ==> node_order(set).contains(#[trigger] start@[t]),
            forall|j: int| 0 <= j < node_order(set).len() ==> start@.contains(#[trigger] node_order(set)[j]),
        decreases start.len() - k,
    {
        let ghost before = node_order(set);
        let at = index_insert(&mut set, start[k]);
        proof {
            let after = node_order(set);
            assert forall|t: int| 0 <= t < k + 1 implies after.contains(#[trigger] start@[t]) by {
                if t < k {
                    let j = choose|j: int| 0 <= j < before.len() && before[j] == start@[t];
                    assert(after[j] == start@[t]);
                } else if at.1 {
                    assert(after[before.len() as int] == start@[t]);
                }
            }
            assert forall|j: int| 0 <= j < after.len()
                implies start@.contains(#[trigger] after[j]) by {
                if j < before.len() {
                    assert(after[j] == before[j]);
                } else {
                    assert(after[j] == start@[k as int]);
                }
            }
        }
        k += 1;
    }
    set
}

/// A registry that holds the nodes of `start` and nothing else, none of
/// them with a parent: the state of a breadth-first search before the first
/// node is expanded.
fn seed(
    start: &NodeIndex,
    hasher: NodeHasher,
    Ghost(may): Ghost<spec_fn(u64, u64) -> bool>,
    Ghost(must): Ghost<spec_fn(u64, u64) -> bool>,
) -> (seeded: (Registry<usize>, Ghost<Seq<nat>>))
    ensures
        seeded.0.wf(),
        layered(may, must, node_order(*start), seeded.0.nodes(), seeded.0.values(), seeded.1@, 0),
        at_boundary(seeded.1@, 0),
        seeded.1@.len() == seeded.0.nodes().len(),
        forall|j: int|
            0 <= j < seeded.0.nodes().len() ==> node_order(*start).contains(#[trigger] seeded.0.nodes()[j]),
{
    let ghost starts = node_order(*start);
    let count = index_len(start);
    let mut parents: Registry<usize> = Registry::with_hasher(hasher);
    let mut s: usize = 0;
    proof {
        lemma_roots_none(starts);
    }
    while s < count
        invariant
            count == starts.len(),
            starts == node_order(*start),
            s <= count,
            parents.wf(),
            roots_only(starts, s as int, parents.nodes(), parents.values()),
        decreases count - s,
    {
        let start_node = index_get(start, s).unwrap();
        let ghost nodes = parents.nodes();
        let ghost link = parents.values();
        let at = parents.insert_full(start_node, usize::MAX);
        proof {
            lemma_roots_more(starts, s as int, nodes, link, parents.nodes(), parents.values(), at.0 as int);
        }
        s += 1;
    }
    let ghost depth = Seq::new(parents.nodes().len(), |j: int| 0nat);
    proof {
        lemma_roots_seeded(may, must, starts, parents.nodes(), parents.values(), depth);
    }
    (parents, Ghost(depth))
}

/// The entry at `j` is a start node without a parent.
pub open spec fn is_root(starts: Seq<u64>, nodes: Seq<u64>, link: Seq<usize>, j: int) -> bool {
    starts.contains(nodes[j]) && link[j] == usize::MAX
}

/// The start node at position `t` is registered.
pub open spec fn is_seeded(starts: Seq<u64>, nodes: Seq<u64>, t: int) -> bool {
    nodes.contains(starts[t])
}

/// The registry holds the first `s` start nodes and nothing else, none of
/// them with a parent.
pub open spec fn roots_only(starts: Seq<u64>, s: int, nodes: Seq<u64>, link: Seq<usize>) -> bool {
    &&& link.len() == nodes.len()
    &&& forall|j: int| 0 <= j < nodes.len() ==> #[trigger] is_root(starts, nodes, link, j)
    &&& forall|t: int| 0 <= t < s ==> #[trigger] is_seeded(starts, nodes, t)
}

/// An empty registry holds no start node and nothing else.
proof fn lemma_roots_none(starts: Seq<u64>)
    ensures
        roots_only(starts, 0, Seq::<u64>::empty(), Seq::<usize>::empty()),
{
}

/// Registering the next start node gives a registry that holds one start
/// node more and nothing else.
proof fn lemma_roots_more(
    starts: Seq<u64>,
    s: int,
    nodes: Seq<u64>,
    link: Seq<usize>,
    nodes2: Seq<u64>,
    link2: Seq<usize>,
    at: int,
)
    requires
        roots_only(starts, s, nodes, link),
        0 <= s < starts.len(),
        nodes.contains(starts[s]) ==> 0 <= at < nodes.len() && nodes2 == nodes && link2 == link.update(
            at,
            usize::MAX,
        ),
        !nodes.contains(starts[s]) ==> nodes2 == nodes.push(starts[s]) && link2 == link.push(usize::MAX),
    ensures
        roots_only(starts, s + 1, nodes2, link2),
{
    assert forall|j: int| 0 <= j < nodes2.len()
        implies #[trigger] is_root(starts, nodes2, link2, j) by {
        if j < nodes.len() {
            assert(is_root(starts, nodes, link, j));
        }
    }
    assert forall|t: int| 0 <= t < s + 1 implies #[trigger] is_seeded(starts, nodes2, t) by {
        if t < s {
            assert(is_seeded(starts, nodes, t));
            let j = choose|j: int| 0 <= j < nodes.len() && nodes[j] == starts[t];
            assert(nodes2[j] == starts[t]);
        } else if !nodes.contains(starts[s]) {
            assert(nodes2[nodes.len() as int] == starts[s]);
        }
    }
}

/// A registry that holds all the start nodes and nothing else is the state
/// before the first node is expanded.
proof fn lemma_roots_seeded(
    may: spec_fn(u64, u64) -> bool,
    must: spec_fn(u64, u64) -> bool,
    starts: Seq<u64>,
    nodes: Seq<u64>,
    link: Seq<usize>,
    depth: Seq<nat>,
)
    requires
        roots_only(starts, starts.len() as int, nodes, link),
        nodes.no_duplicates(),
        nodes.len() <= usize::MAX,
        depth == Seq::new(nodes.len(), |j: int| 0nat),
    ensures
        layered(may, must, starts, nodes, link, depth, 0),
        at_boundary(depth, 0),
        forall|j: int| 0 <= j < nodes.len() ==> starts.contains(#[trigger] nodes[j]),
{
    assert forall|j: int| 0 <= j < nodes.len() implies {
        &&& starts.contains(#[trigger] nodes[j])
        &&& link[j] == usize::MAX
        &&& depth[j] == 0
    } by {
        assert(is_root(starts, nodes, link, j));
    }
    assert forall|t: int| 0 <= t < starts.len() implies nodes.contains(#[trigger] starts[t]) by {
        assert(is_seeded(starts, nodes, t));
    }
    lemma_seeded(may, must, starts, nodes, link, depth);
}

/// The shared breadth-first search. The registry is seeded with every start
/// node and then scanned in the order of insertion, which is the order of
/// depth; each successor of the scanned node is tested as it is discovered.
/// With `check_first` the start nodes are tested before anything is
/// expanded, so that a path of one node can be found.
#[verifier::loop_isolation(false)]
#[verifier::rlimit(50)]
fn bfs_core<FN, FS>(
    start: &NodeIndex,
    mut successors: FN,
    mut success: FS,
    check_first: bool,
    hasher: NodeHasher,
) -> (found: Option<Vec<u64>>) where FN: FnMut(&u64) -> Vec<u64>, FS: FnMut(&u64) -> bool
    requires
        callable(successors),
        callable(success),
    ensures
        is_shortest_walk(
            may_step(successors),
            must_step(successors),
            node_order(*start),
            accepts(success),
            rejects(success),
            if check_first {
                1
            } else {
                2
            },
            path_view(found),
        ),
{
    let ghost may = may_step(successors);
    let ghost must = must_step(successors);
    let ghost reject = rejects(success);
    let ghost accept = accepts(success);
    let ghost starts = node_order(*start);
    let ghost least: nat = if check_first {
        1
    } else {
        2
    };
    let count = index_len(start);
    if check_first {
        let mut s: usize = 0;
        while s < count
            invariant
                callable(success),
                count == starts.len(),
                starts == node_order(*start),
                reject == rejects(success),
                accept == accepts(success),
                least == 1,
                s <= count,
                forall|t: int| 0 <= t < s ==> reject(#[trigger] starts[t]),
            decreases count - s,
        {
            match index_get(start, s) {
                Some(start_node) => {
                    if success(&start_node) {
                        let path = vec![start_node];
                        proof {
                            assert(path@[0] == starts[s as int]);
                            assert(starts.contains(path@[0]));
                            assert(is_walk(may, path@));
                            assert(accepts(success)(path@.last()));
                        }
                        return Some(path);
                    }
                },
                None => {},
            }
            s += 1;
        }
    }
    let (mut parents, Ghost(seed_depth)) = seed(start, hasher, Ghost(may), Ghost(must));
    let ghost mut depth: Seq<nat> = seed_depth;
    proof {
        assert(turned_down(must, reject, starts, parents.nodes(), 0, least)) by {
            reveal(turned_down);
        }
    }
    let mut i: usize = 0;
    loop
        invariant
            callable(successors),
            callable(success),
            may == may_step(successors),
            must == must_step(successors),
            reject == rejects(success),
            accept == accepts(success),
            starts == node_order(*start),
            least == (if check_first {
                1nat
            } else {
                2nat
            }),
            parents.wf(),
            depth.len() == parents.nodes().len(),
            layered(may, must, starts, parents.nodes(), parents.values(), depth, i as int),
            turned_down(must, reject, starts, parents.nodes(), i as int, least),
        decreases usize::MAX - i,
    {
        let node = match parents.get_index(i) {
            Some((node, _)) => node,
            None => {
                proof {
                    let nodes = parents.nodes();
                    let link = parents.values();
                    lemma_layered_shape(may, must, starts, nodes, link, depth, i as int);
                    assert forall|q: Seq<u64>|
                        #[trigger] walk_from(must, starts, q) && q.len() >= least implies reject(q.last()) by {
                        lemma_short_walk_turned_down(
                            may,
                            must,
                            reject,
                            starts,
                            nodes,
                            link,
                            depth,
                            i as int,
                            least,
                            q,
                        );
                    }
                }
                return None;
            },
        };
        let listed = successors(&node);
        let mut k: usize = 0;
        while k < listed.len()
            invariant
                callable(success),
                may == may_step(successors),
                must == must_step(successors),
                reject == rejects(success),
                accept == accepts(success),
                starts == node_order(*start),
                least == (if check_first {
                    1nat
                } else {
                    2nat
                }),
                parents.wf(),
                depth.len() == parents.nodes().len(),
                layered(may, must, starts, parents.nodes(), parents.values(), depth, i as int),
                turned_down(must, reject, starts, parents.nodes(), i as int, least),
                i < parents.nodes().len(),
                node == parents.nodes()[i as int],
                call_ensures(successors, (&node,), listed),
                k <= listed.len(),
                forall|t: int|
                    0 <= t < k ==> parents.nodes().contains(#[trigger] listed@[t]) && reject(listed@[t]),
            decreases listed.len() - k,
        {
            let successor = listed[k];
            proof {
                assert(listed@.contains(successor));
                assert(may(node, successor));
            }
            if success(&successor) {
                let ghost nodes = parents.nodes();
                let ghost link = parents.values();
                let ghost rank = Seq::new(nodes.len(), |j: int| (j as nat, 0nat));
                proof {
                    lemma_layered_shape(may, must, starts, nodes, link, depth, i as int);
                    assert forall|j: int| 0 <= j < link.len() && link[j] < link.len() implies lex_below(
                        #[trigger] rank[link[j] as int],
                        rank[j],
                    ) by {}
                }
                let parent = |p: &usize| -> (at: usize)
                    ensures
                        at == *p,
                    { *p };
                let (mut path, Ghost(trail)) = reverse_path(&parents, parent, i, Ghost(link), Ghost(rank));
                let ghost climbed = path@;
                path.push(successor);
                proof {
                    lemma_trail_walk(may, must, starts, nodes, link, depth, i as int, trail, i as int);
                    lemma_walk_push(may, climbed, successor);
                    assert(path@ == climbed.push(successor));
                    assert(path@[0] == climbed[0]);
                    assert(walk_from(may, starts, path@));
                    assert(accepts(success)(path@.last()));
                    assert(path@.len() == depth[i as int] + 2);
                    assert forall|q: Seq<u64>|
                        #[trigger] walk_from(must, starts, q) && q.len() >= least && !reject(
                            q.last(),
                        ) implies path@.len() <= q.len() by {
                        if q.len() - 1 <= depth[i as int] {
                            lemma_short_walk_turned_down(
                                may,
                                must,
                                reject,
                                starts,
                                nodes,
                                link,
                                depth,
                                i as int,
                                least,
                                q,
                            );
                        }
                    }
                }
                return Some(path);
            }
            if parents.get_index_of(successor).is_none() {
                let ghost nodes = parents.nodes();
                let ghost link = parents.values();
                parents.insert_full(successor, i);
                proof {
                    lemma_layered_shape(may, must, starts, nodes, link, depth, i as int);
                    lemma_discover(may, must, starts, nodes, link, depth, i as int, successor);
                    lemma_turned_down_push(must, reject, starts, nodes, i as int, least, successor);
                    depth = depth.push(depth[i as int] + 1);
                    let after = parents.nodes();
                    assert(after[nodes.len() as int] == successor);
                    assert forall|t: int| 0 <= t < k
                        implies after.contains(#[trigger] listed@[t]) by {
                        let j = choose|j: int| 0 <= j < nodes.len() && nodes[j] == listed@[t];
                        assert(after[j] == listed@[t]);
                    }
                }
            }
            k += 1;
        }
        proof {
            let nodes = parents.nodes();
            assert forall|b: u64| #[trigger] must(nodes[i as int], b)
                implies nodes.contains(b) && reject(b) by {
                assert(listed@.contains(b));
                let t = choose|t: int| 0 <= t < listed@.len() && listed@[t] == b;
                assert(nodes.contains(listed@[t]));
            }
            lemma_advance(may, must, starts, nodes, parents.values(), depth, i as int);
            lemma_turned_down_advance(must, reject, starts, nodes, i as int, least);
        }
        i += 1;
    }
}

/// A shortest path, by number of steps, from one of the nodes in `start` to
/// a node that `success` accepts.
///
/// - `start` holds the start nodes.
/// - `successors` lists the successors of a node.
/// - `success` tells whether a node is a goal. It is asked about the start
///   nodes first, so the path may be a single start node.
///
/// The path begins at a start node and ends at the goal. `None` means that
/// `success` turned down every node that can be reached.
pub fn bfs<FN, FS>(start: &[u64], successors: FN, success: FS) -> (found: Option<Vec<u64>>) where
    FN: FnMut(&u64) -> Vec<u64>,
    FS: FnMut(&u64) -> bool,

    requires
        callable(successors),
        callable(success),
    ensures
        is_shortest_walk(
            may_step(successors),
            must_step(successors),
            start@,
            accepts(success),
            rejects(success),
            1,
            path_view(found),
        ),
{
    bfs_with_hasher(start, successors, success, fx_build_hasher())
}

/// [`bfs`] with the hashing strategy of the node registry given by the
/// caller.
pub fn bfs_with_hasher<FN, FS>(
    start: &[u64],
    successors: FN,
    success: FS,
    hasher: NodeHasher,
) -> (found: Option<Vec<u64>>) where FN: FnMut(&u64) -> Vec<u64>, FS: FnMut(&u64) -> bool
    requires
        callable(successors),
        callable(success),
    ensures
        is_shortest_walk(
            may_step(successors),
            must_step(successors),
            start@,
            accepts(success),
            rejects(success),
            1,
            path_view(found),
        ),
{
    let refs = node_refs(start);
    let found = bfs_core(&refs, successors, success, true, hasher);
    proof {
        lemma_same_starts(
            may_step(successors),
            must_step(successors),
            node_order(refs),
            start@,
            accepts(success),
            rejects(success),
            1,
            path_view(found),
        );
    }
    found
}

/// A shortest loop: a shortest path of at least one step from one of the
/// nodes in `start` back into `start`, or `None` if no walk leads back.
///
/// The start nodes are not tested before the first step, so the path holds
/// at least two nodes; its first and its last node are start nodes.
pub fn bfs_loop<FN>(start: &[u64], successors: FN) -> (found: Option<Vec<u64>>) where
    FN: FnMut(&u64) -> Vec<u64>,

    requires
        callable(successors),
    ensures
        is_shortest_walk(
            may_step(successors),
            must_step(successors),
            start@,
            |n: u64| start@.contains(n),
            |n: u64| !start@.contains(n),
            2,
            path_view(found),
        ),
{
    bfs_loop_with_hasher(start, successors, fx_build_hasher())
}

/// [`bfs_loop`] with the hashing strategy of the node registry given by the
/// caller.
pub fn bfs_loop_with_hasher<FN>(start: &[u64], successors: FN, hasher: NodeHasher) -> (found: Option<
    Vec<u64>,
>) where FN: FnMut(&u64) -> Vec<u64>
    requires
        callable(successors),
    ensures
        is_shortest_walk(
            may_step(successors),
            must_step(successors),
            start@,
            |n: u64| start@.contains(n),
            |n: u64| !start@.contains(n),
            2,
            path_view(found),
        ),
{
    let refs = node_refs(start);
    let ghost starts = node_order(refs);
    let homes = &refs;
    let back = |n: &u64| -> (home: bool)
        ensures
            home == node_order(*homes).contains(*n),
        { index_find(homes, *n).is_some() };
    let found = bfs_core(homes, successors, back, false, hasher);
    proof {
        let may = may_step(successors);
        let must = must_step(successors);
        let member = |n: u64| start@.contains(n);
        let stranger = |n: u64| !start@.contains(n);
        lemma_same_goal(may, must, starts, accepts(back), rejects(back), member, stranger, 2, path_view(found));
        lemma_same_starts(may, must, starts, start@, member, stranger, 2, path_view(found));
    }
    found
}

/// A shortest path from one of the nodes in `start` to one of the nodes in
/// `end`, found by two searches that run towards each other: one forwards
/// from `start`, one backwards from `end`. The two take turns, a full layer
/// at a time, and stop as soon as a node that one of them discovers is known
/// to the other.
///
/// - `successors_fn` lists the successors of a node.
/// - `predecessors_fn` lists the predecessors of a node. On an undirected
///   graph it is the same function as `successors_fn`.
///
/// The search looks for a path with a step in it: a node that is both a
/// start node and an end node is not tested before the first step. Where the
/// predecessors are the successors turned round, the path is a shortest one
/// among those with a step.
pub fn bfs_bidirectional<FNS, FNP>(
    start: &[u64],
    end: &[u64],
    successors_fn: FNS,
    predecessors_fn: FNP,
) -> (found: Option<Vec<u64>>) where FNS: Fn(&u64) -> Vec<u64>, FNP: Fn(&u64) -> Vec<u64>
    requires
        callable(successors_fn),
        callable(predecessors_fn),
    ensures
        is_meeting_search(
            may_step(successors_fn),
            must_step(successors_fn),
            may_step(predecessors_fn),
            must_step(predecessors_fn),
            start@,
            end@,
            path_view(found),
        ),
{
    bfs_bidirectional_with_hasher(start, end, successors_fn, predecessors_fn, fx_build_hasher())
}

/// [`bfs_bidirectional`] with the hashing strategy of the two node
/// registries given by the caller.
#[verifier::rlimit(50)]
pub fn bfs_bidirectional_with_hasher<FNS, FNP>(
    start: &[u64],
    end: &[u64],
    successors_fn: FNS,
    predecessors_fn: FNP,
    hasher: NodeHasher,
) -> (found: Option<Vec<u64>>) where FNS: Fn(&u64) -> Vec<u64>, FNP: Fn(&u64) -> Vec<u64>
    requires
        callable(successors_fn),
        callable(predecessors_fn),
    ensures
        is_meeting_search(
            may_step(successors_fn),
            must_step(successors_fn),
            may_step(predecessors_fn),
            must_step(predecessors_fn),
            start@,
            end@,
            path_view(found),
        ),
{
    let ghost may_s = may_step(successors_fn);
    let ghost must_s = must_step(successors_fn);
    let ghost may_p = may_step(predecessors_fn);
    let ghost must_p = must_step(predecessors_fn);
    let start_refs = node_refs(start);
    let end_refs = node_refs(end);
    let ghost starts = node_order(start_refs);
    let ghost ends = node_order(end_refs);
    let (mut predecessors, Ghost(seed_f)) = seed(
        &start_refs,
        clone_hasher(&hasher),
        Ghost(may_s),
        Ghost(must_s),
    );
    let (mut successors, Ghost(seed_b)) = seed(&end_refs, hasher, Ghost(may_p), Ghost(must_p));
    let ghost mut depth_f: Seq<nat> = seed_f;
    let ghost mut depth_b: Seq<nat> = seed_b;
    proof {
        lemma_unmet_start(must_s, predecessors.nodes(), successors.nodes());
        lemma_unmet_start(must_p, successors.nodes(), predecessors.nodes());
    }
    let mut i_forwards: usize = 0;
    let mut i_backwards: usize = 0;
    loop
        invariant
            callable(successors_fn),
            callable(predecessors_fn),
            may_s == may_step(successors_fn),
            must_s == must_step(successors_fn),
            may_p == may_step(predecessors_fn),
            must_p == must_step(predecessors_fn),
            starts == node_order(start_refs),
            ends == node_order(end_refs),
            forall|n: u64| starts.contains(n) <==> start@.contains(n),
            forall|n: u64| ends.contains(n) <==> end@.contains(n),
            predecessors.wf(),
            successors.wf(),
            layered(
                may_s,
                must_s,
                starts,
                predecessors.nodes(),
                predecessors.values(),
                depth_f,
                i_forwards as int,
            ),
            layered(
                may_p,
                must_p,
                ends,
                successors.nodes(),
                successors.values(),
                depth_b,
                i_backwards as int,
            ),
            at_boundary(depth_f, i_forwards as int),
            at_boundary(depth_b, i_backwards as int),
            unmet(must_s, predecessors.nodes(), i_forwards as int, successors.nodes()),
            unmet(must_p, successors.nodes(), i_backwards as int, predecessors.nodes()),
        decreases 2 * usize::MAX - i_forwards - i_backwards,
    {
        proof {
            lemma_layered_shape(
                may_s,
                must_s,
                starts,
                predecessors.nodes(),
                predecessors.values(),
                depth_f,
                i_forwards as int,
            );
            lemma_layered_shape(
                may_p,
                must_p,
                ends,
                successors.nodes(),
                successors.values(),
                depth_b,
                i_backwards as int,
            );
        }
        let (met, Ghost(deeper), Ghost(before)) = expand_layer(
            &mut predecessors,
            &successors,
            &mut i_forwards,
            &successors_fn,
            Ghost(starts),
            Ghost(depth_f),
            Ghost(may_p),
            Ghost(must_p),
            Ghost(ends),
            Ghost(depth_b),
            Ghost(i_backwards as int),
        );
        proof {
            depth_f = deeper;
        }
        if let Some(middle) = met {
            let path = meeting_path(
                &predecessors,
                &successors,
                middle,
                Ghost(may_s),
                Ghost(must_s),
                Ghost(starts),
                Ghost(depth_f),
                Ghost(i_forwards as int),
                Ghost(may_p),
                Ghost(must_p),
                Ghost(ends),
                Ghost(depth_b),
                Ghost(i_backwards as int),
            );
            proof {
                lemma_meets_same_ends(may_s, may_p, starts, ends, start@, end@, path@);
                if reverses(must_s, must_p) {
                    assert forall|q: Seq<u64>|
                        #[trigger] walk_from(must_s, start@, q) && end@.contains(q.last()) && q.len() >= 2
                        implies path@.len() <= q.len() by {
                        assert(starts.contains(q[0]));
                        lemma_sides_unmet(
                            may_s,
                            must_s,
                            starts,
                            before.0,
                            before.1,
                            before.2,
                            i_forwards as int,
                            may_p,
                            must_p,
                            ends,
                            successors.nodes(),
                            successors.values(),
                            depth_b,
                            i_backwards as int,
                            q,
                        );
                        lemma_layered_shape(
                            may_s,
                            must_s,
                            starts,
                            predecessors.nodes(),
                            predecessors.values(),
                            depth_f,
                            i_forwards as int,
                        );
                        lemma_layered_shape(
                            may_s,
                            must_s,
                            starts,
                            before.0,
                            before.1,
                            before.2,
                            i_forwards as int,
                        );
                        lemma_layered_shape(
                            may_p,
                            must_p,
                            ends,
                            successors.nodes(),
                            successors.values(),
                            depth_b,
                            i_backwards as int,
                        );
                        lemma_meeting_length(
                            predecessors.nodes(),
                            depth_f,
                            before.2[i_forwards as int] + 1,
                            successors.nodes(),
                            depth_b,
                            i_backwards as int,
                            middle,
                            path@.len(),
                        );
                    }
                }
            }
            return Some(path);
        }
        let (met, Ghost(deeper), Ghost(before)) = expand_layer(
            &mut successors,
            &predecessors,
            &mut i_backwards,
            &predecessors_fn,
            Ghost(ends),
            Ghost(depth_b),
            Ghost(may_s),
            Ghost(must_s),
            Ghost(starts),
            Ghost(depth_f),
            Ghost(i_forwards as int),
        );
        proof {
            depth_b = deeper;
        }
        if let Some(middle) = met {
            let path = meeting_path(
                &predecessors,
                &successors,
                middle,
                Ghost(may_s),
                Ghost(must_s),
                Ghost(starts),
                Ghost(depth_f),
                Ghost(i_forwards as int),
                Ghost(may_p),
                Ghost(must_p),
                Ghost(ends),
                Ghost(depth_b),
                Ghost(i_backwards as int),
            );
            proof {
                lemma_meets_same_ends(may_s, may_p, starts, ends, start@, end@, path@);
                if reverses(must_s, must_p) {
                    assert forall|q: Seq<u64>|
                        #[trigger] walk_from(must_s, start@, q) && end@.contains(q.last()) && q.len() >= 2
                        implies path@.len() <= q.len() by {
                        assert(starts.contains(q[0]));
                        lemma_sides_unmet(
                            may_s,
                            must_s,
                            starts,
                            predecessors.nodes(),
                            predecessors.values(),
                            depth_f,
                            i_forwards as int,
                            may_p,
                            must_p,
                            ends,
                            before.0,
                            before.1,
                            before.2,
                            i_backwards as int,
                            q,
                        );
                        lemma_layered_shape(
                            may_s,
                            must_s,
                            starts,
                            predecessors.nodes(),
                            predecessors.values(),
                            depth_f,
                            i_forwards as int,
                        );
                        lemma_layered_shape(may_p, must_p, ends, before.0, before.1, before.2, i_backwards as int);
                        lemma_layered_shape(
                            may_p,
                            must_p,
                            ends,
                            successors.nodes(),
                            successors.values(),
                            depth_b,
                            i_backwards as int,
                        );
                        lemma_meeting_length(
                            successors.nodes(),
                            depth_b,
                            before.2[i_backwards as int] + 1,
                            predecessors.nodes(),
                            depth_f,
                            i_forwards as int,
                            middle,
                            path@.len(),
                        );
                    }
                }
            }
            return Some(path);
        }
        if i_forwards == predecessors.len() && i_backwards == successors.len() {
            proof {
                if reverses(must_s, must_p) {
                    assert forall|q: Seq<u64>|
                        #[trigger] walk_from(must_s, start@, q) && end@.contains(q.last()) implies q.len()
                        < 2 by {
                        if q.len() >= 2 {
                            assert(starts.contains(q[0]));
                            lemma_sides_unmet(
                                may_s,
                                must_s,
                                starts,
                                predecessors.nodes(),
                                predecessors.values(),
                                depth_f,
                                i_forwards as int,
                                may_p,
                                must_p,
                                ends,
                                successors.nodes(),
                                successors.values(),
                                depth_b,
                                i_backwards as int,
                                q,
                            );
                        }
                    }
                }
            }
            return None;
        }
    }
}

/// The path through a node on which two sides met is no longer than the
/// depths allow: the node lies no deeper than `reach` on the side that found
/// it, and no deeper than the cursor on the other side.
proof fn lemma_meeting_length(
    near: Seq<u64>,
    depth_near: Seq<nat>,
    reach: nat,
    far: Seq<u64>,
    depth_far: Seq<nat>,
    cursor_far: int,
    middle: u64,
    length: nat,
)
    requires
        depth_near.len() == near.len(),
        depth_far.len() == far.len(),
        near.contains(middle),
        far.contains(middle),
        0 <= cursor_far < far.len(),
        at_boundary(depth_far, cursor_far),
        forall|k: int| 0 <= k < near.len() && #[trigger] near[k] == middle ==> depth_near[k] <= reach,
        forall|x: int, y: int|
            0 <= x < near.len() && near[x] == middle && 0 <= y < far.len() && far[y] == middle ==> length
                == #[trigger] depth_near[x] + #[trigger] depth_far[y] + 1,
    ensures
        length <= reach + depth_far[cursor_far] + 1,
{
    let x = choose|x: int| 0 <= x < near.len() && near[x] == middle;
    let y = choose|y: int| 0 <= y < far.len() && far[y] == middle;
    assert(near[x] == middle);
    assert(depth_near[x] <= reach);
    assert(depth_far[y] <= depth_far[cursor_far]);
    assert(length == depth_near[x] + depth_far[y] + 1);
}

/// Expands one full layer of one side of a search from both ends: every
/// node of `near` from the cursor up to the entries that `near` holds at the
/// call. Each neighbour is registered in `near` if it is new there, and then
/// looked up in `far`: the first that `far` knows is where the two sides
/// meet, and it comes back at once.
///
/// `depth` is the depth of each entry of `near`, and comes back with the
/// depths of the new entries added. With a meeting comes the state of `near`
/// before the neighbour on which the sides met was looked at.
#[verifier::rlimit(50)]
fn expand_layer<F>(
    near: &mut Registry<usize>,
    far: &Registry<usize>,
    cursor: &mut usize,
    neighbours: &F,
    Ghost(roots): Ghost<Seq<u64>>,
    Ghost(depth): Ghost<Seq<nat>>,
    Ghost(far_may): Ghost<spec_fn(u64, u64) -> bool>,
    Ghost(far_must): Ghost<spec_fn(u64, u64) -> bool>,
    Ghost(far_roots): Ghost<Seq<u64>>,
    Ghost(far_depth): Ghost<Seq<nat>>,
    Ghost(far_cursor): Ghost<int>,
) -> (met: (Option<u64>, Ghost<Seq<nat>>, Ghost<(Seq<u64>, Seq<usize>, Seq<nat>)>)) where
    F: Fn(&u64) -> Vec<u64>,

    requires
        old(near).wf(),
        far.wf(),
        callable(*neighbours),
        layered(
            may_step(*neighbours),
            must_step(*neighbours),
            roots,
            old(near).nodes(),
            old(near).values(),
            depth,
            *old(cursor) as int,
        ),
        at_boundary(depth, *old(cursor) as int),
        layered(far_may, far_must, far_roots, far.nodes(), far.values(), far_depth, far_cursor),
        unmet(must_step(*neighbours), old(near).nodes(), *old(cursor) as int, far.nodes()),
        unmet(far_must, far.nodes(), far_cursor, old(near).nodes()),
    ensures
        final(near).wf(),
        layered(
            may_step(*neighbours),
            must_step(*neighbours),
            roots,
            final(near).nodes(),
            final(near).values(),
            met.1@,
            *final(cursor) as int,
        ),
        *old(cursor) <= *final(cursor),
        *old(cursor) == old(near).nodes().len() ==> final(near).nodes() == old(near).nodes(),
        match met.0 {
            None => {
                &&& *final(cursor) == old(near).nodes().len()
                &&& at_boundary(met.1@, *final(cursor) as int)
                &&& unmet(must_step(*neighbours), final(near).nodes(), *final(cursor) as int, far.nodes())
                &&& unmet(far_must, far.nodes(), far_cursor, final(near).nodes())
            },
            Some(x) => {
                &&& final(near).nodes().contains(x)
                &&& far.nodes().contains(x)
                &&& *final(cursor) < met.2@.0.len()
                &&& layered(
                    may_step(*neighbours),
                    must_step(*neighbours),
                    roots,
                    met.2@.0,
                    met.2@.1,
                    met.2@.2,
                    *final(cursor) as int,
                )
                &&& unmet(must_step(*neighbours), met.2@.0, *final(cursor) as int, far.nodes())
                &&& unmet(far_must, far.nodes(), far_cursor, met.2@.0)
                &&& forall|k: int|
                    0 <= k < final(near).nodes().len() && #[trigger] final(near).nodes()[k] == x ==> met.1@[k]
                        <= met.2@.2[*final(cursor) as int] + 1
            },
        },
{
    let ghost may = may_step(*neighbours);
    let ghost must = must_step(*neighbours);
    let ghost depth_in = depth;
    let ghost mut depth = depth;
    let stop = near.len();
    proof {
        lemma_layered_shape(may, must, roots, near.nodes(), near.values(), depth, *cursor as int);
        lemma_depth_order(may, must, roots, near.nodes(), near.values(), depth, *cursor as int);
    }
    let ghost level: nat = if *cursor < stop {
        depth[*cursor as int]
    } else {
        0
    };
    while *cursor < stop
        invariant
            near.wf(),
            far.wf(),
            callable(*neighbours),
            may == may_step(*neighbours),
            must == must_step(*neighbours),
            stop == old(near).nodes().len(),
            stop <= near.nodes().len(),
            *old(cursor) <= *cursor <= stop,
            depth.len() == near.nodes().len(),
            layered(may, must, roots, near.nodes(), near.values(), depth, *cursor as int),
            layered(far_may, far_must, far_roots, far.nodes(), far.values(), far_depth, far_cursor),
            unmet(must, near.nodes(), *cursor as int, far.nodes()),
            unmet(far_must, far.nodes(), far_cursor, near.nodes()),
            *old(cursor) < stop ==> forall|j: int| 0 <= j < stop ==> #[trigger] depth[j] <= level,
            *old(cursor) < stop ==> forall|j: int|
                stop <= j < depth.len() ==> #[trigger] depth[j] == level + 1,
            *cursor < stop ==> depth[*cursor as int] == level,
            *old(cursor) == stop ==> near.nodes() == old(near).nodes() && depth == depth_in,
        decreases stop - *cursor,
    {
        let node = near.get_index(*cursor).unwrap().0;
        let listed = neighbours(&node);
        let mut k: usize = 0;
        while k < listed.len()
            invariant
                near.wf(),
                far.wf(),
                may == may_step(*neighbours),
                must == must_step(*neighbours),
                stop == old(near).nodes().len(),
                stop <= near.nodes().len(),
                *old(cursor) <= *cursor < stop,
                depth.len() == near.nodes().len(),
                layered(may, must, roots, near.nodes(), near.values(), depth, *cursor as int),
                layered(far_may, far_must, far_roots, far.nodes(), far.values(), far_depth, far_cursor),
                unmet(must, near.nodes(), *cursor as int, far.nodes()),
                unmet(far_must, far.nodes(), far_cursor, near.nodes()),
                forall|j: int| 0 <= j < stop ==> #[trigger] depth[j] <= level,
                forall|j: int| stop <= j < depth.len() ==> #[trigger] depth[j] == level + 1,
                depth[*cursor as int] == level,
                node == near.nodes()[*cursor as int],
                call_ensures(*neighbours, (&node,), listed),
                k <= listed.len(),
                forall|t: int|
                    0 <= t < k ==> near.nodes().contains(#[trigger] listed@[t]) && !far.nodes().contains(
                        listed@[t],
                    ),
            decreases listed.len() - k,
        {
            let x = listed[k];
            let ghost nodes = near.nodes();
            let ghost link = near.values();
            let ghost depth0 = depth;
            proof {
                assert(listed@.contains(x));
                assert(may(node, x));
                lemma_depth_order(may, must, roots, nodes, link, depth0, *cursor as int);
            }
            let known = near.get_index_of(x);
            if far.get_index_of(x).is_some() {
                if known.is_none() {
                    near.insert_full(x, *cursor);
                    proof {
                        lemma_discover(may, must, roots, nodes, link, depth0, *cursor as int, x);
                        depth = depth0.push(depth0[*cursor as int] + 1);
                        assert(near.nodes()[nodes.len() as int] == x);
                    }
                }
                proof {
                    let after = near.nodes();
                    assert forall|j: int| 0 <= j < after.len() && #[trigger] after[j] == x implies depth[j]
                        <= depth0[*cursor as int] + 1 by {
                        if j < nodes.len() {
                            assert(depth[j] == depth0[j]);
                        }
                    }
                    match known {
                        Some(at) => {
                            assert(after[at as int] == x);
                        },
                        None => {
                            assert(after[nodes.len() as int] == x);
                        },
                    }
                }
                return (Some(x), Ghost(depth), Ghost((nodes, link, depth0)));
            }
            if known.is_none() {
                near.insert_full(x, *cursor);
                proof {
                    lemma_discover(may, must, roots, nodes, link, depth0, *cursor as int, x);
                    depth = depth0.push(depth0[*cursor as int] + 1);
                    assert(near.nodes()[nodes.len() as int] == x);
                    lemma_unmet_push(must, nodes, *cursor as int, far.nodes(), x);
                    lemma_unmet_other_grows(
                        far_may,
                        far_must,
                        far_roots,
                        far.nodes(),
                        far.values(),
                        far_depth,
                        far_cursor,
                        nodes,
                        x,
                    );
                }
            }
            proof {
                let after = near.nodes();
                match known {
                    Some(at) => {
                        assert(after[at as int] == x);
                    },
                    None => {
                        assert(after[nodes.len() as int] == x);
                    },
                }
                assert(after.contains(x));
                assert forall|t: int| 0 <= t < k + 1 implies after.contains(#[trigger] listed@[t])
                    && !far.nodes().contains(listed@[t]) by {
                    if t < k {
                        let j = choose|j: int| 0 <= j < nodes.len() && nodes[j] == listed@[t];
                        assert(after[j] == listed@[t]);
                    }
                }
            }
            k += 1;
        }
        proof {
            let nodes = near.nodes();
            assert forall|b: u64| #[trigger] must(nodes[*cursor as int], b) implies nodes.contains(b)
                && !far.nodes().contains(b) by {
                assert(listed@.contains(b));
                let t = choose|t: int| 0 <= t < listed@.len() && listed@[t] == b;
                assert(nodes.contains(listed@[t]));
            }
            lemma_advance(may, must, roots, nodes, near.values(), depth, *cursor as int);
            lemma_unmet_advance(must, nodes, *cursor as int, far.nodes());
            lemma_depth_order(may, must, roots, nodes, near.values(), depth, *cursor as int);
        }
        *cursor += 1;
    }
    (None, Ghost(depth), Ghost((near.nodes(), near.values(), depth)))
}

/// The path through the node where the two sides of a search from both ends
/// met: from a start node along the forward side's parents to `middle`, and
/// on along the backward side's parents to an end node.
#[verifier::rlimit(50)]
fn meeting_path(
    forwards: &Registry<usize>,
    backwards: &Registry<usize>,
    middle: u64,
    Ghost(may_s): Ghost<spec_fn(u64, u64) -> bool>,
    Ghost(must_s): Ghost<spec_fn(u64, u64) -> bool>,
    Ghost(starts): Ghost<Seq<u64>>,
    Ghost(depth_f): Ghost<Seq<nat>>,
    Ghost(cursor_f): Ghost<int>,
    Ghost(may_p): Ghost<spec_fn(u64, u64) -> bool>,
    Ghost(must_p): Ghost<spec_fn(u64, u64) -> bool>,
    Ghost(ends): Ghost<Seq<u64>>,
    Ghost(depth_b): Ghost<Seq<nat>>,
    Ghost(cursor_b): Ghost<int>,
) -> (path: Vec<u64>)
    requires
        forwards.wf(),
        backwards.wf(),
        layered(may_s, must_s, starts, forwards.nodes(), forwards.values(), depth_f, cursor_f),
        layered(may_p, must_p, ends, backwards.nodes(), backwards.values(), depth_b, cursor_b),
        forwards.nodes().contains(middle),
        backwards.nodes().contains(middle),
    ensures
        meets(may_s, may_p, starts, ends, path@),
        forall|xf: int, xb: int|
            0 <= xf < forwards.nodes().len() && forwards.nodes()[xf] == middle && 0 <= xb
                < backwards.nodes().len() && backwards.nodes()[xb] == middle ==> path@.len() == depth_f[xf]
                + depth_b[xb] + 1,
{
    let ghost nodes_f = forwards.nodes();
    let ghost link_f = forwards.values();
    let ghost nodes_b = backwards.nodes();
    let ghost link_b = backwards.values();
    proof {
        lemma_layered_shape(may_s, must_s, starts, nodes_f, link_f, depth_f, cursor_f);
        lemma_layered_shape(may_p, must_p, ends, nodes_b, link_b, depth_b, cursor_b);
    }
    let xf = forwards.get_index_of(middle).unwrap();
    let xb = backwards.get_index_of(middle).unwrap();
    let ghost rank = Seq::new(nodes_f.len(), |j: int| (j as nat, 0nat));
    let parent = |p: &usize| -> (at: usize)
        ensures
            at == *p,
        { *p };
    let (mut path, Ghost(trail)) = reverse_path(forwards, parent, xf, Ghost(link_f), Ghost(rank));
    let ghost fore = path@;
    proof {
        lemma_trail_walk(may_s, must_s, starts, nodes_f, link_f, depth_f, cursor_f, trail, xf as int);
    }
    let mut j: usize = *backwards.get_index(xb).unwrap().1;
    let ghost mut down: Seq<int> = seq![xb as int];
    loop
        invariant
            backwards.wf(),
            nodes_b == backwards.nodes(),
            link_b == backwards.values(),
            layered(may_p, must_p, ends, nodes_b, link_b, depth_b, cursor_b),
            link_b.len() == nodes_b.len(),
            fore.len() >= 1,
            down.len() >= 1,
            down[0] == xb,
            forall|r: int| 0 <= r < down.len() ==> 0 <= #[trigger] down[r] < nodes_b.len(),
            forall|r: int| 0 <= r < down.len() - 1 ==> #[trigger] climbs_at(link_b, down, r),
            link_b[down.last()] == j,
            path@.len() == fore.len() + down.len() - 1,
            forall|k: int| 0 <= k < fore.len() ==> #[trigger] path@[k] == fore[k],
            forall|r: int| 1 <= r < down.len() ==> path@[fore.len() - 1 + r] == nodes_b[#[trigger] down[r]],
        ensures
            j >= nodes_b.len(),
        decreases
                (if j < nodes_b.len() {
                    j + 1
                } else {
                    0
                }),
    {
        match backwards.get_index(j) {
            None => {
                break ;
            },
            Some((node, above)) => {
                let ghost before = down;
                proof {
                    lemma_link_step(may_p, must_p, ends, nodes_b, link_b, depth_b, cursor_b, j as int);
                    down = down.push(j as int);
                    assert forall|r: int| 0 <= r < down.len() - 1
                        implies #[trigger] climbs_at(link_b, down, r) by {
                        if r < before.len() - 1 {
                            assert(climbs_at(link_b, before, r));
                        }
                    }
                }
                path.push(node);
                j = *above;
            },
        }
    }
    proof {
        lemma_meeting_joins(
            may_s,
            starts,
            may_p,
            must_p,
            ends,
            nodes_b,
            link_b,
            depth_b,
            cursor_b,
            fore,
            down,
            path@,
            middle,
            xb as int,
        );
        lemma_layered_shape(may_s, must_s, starts, nodes_f, link_f, depth_f, cursor_f);
    }
    path
}

/// A forward walk to the meeting node, continued along the backward side's
/// parents, is a path that meets, and has as many steps as the two depths
/// of the meeting node together.
#[verifier::rlimit(50)]
proof fn lemma_meeting_joins(
    may_s: spec_fn(u64, u64) -> bool,
    starts: Seq<u64>,
    may_p: spec_fn(u64, u64) -> bool,
    must_p: spec_fn(u64, u64) -> bool,
    ends: Seq<u64>,
    nodes_b: Seq<u64>,
    link_b: Seq<usize>,
    depth_b: Seq<nat>,
    cursor_b: int,
    fore: Seq<u64>,
    down: Seq<int>,
    p: Seq<u64>,
    middle: u64,
    xb: int,
)
    requires
        layered(may_p, must_p, ends, nodes_b, link_b, depth_b, cursor_b),
        walk_from(may_s, starts, fore),
        fore.last() == middle,
        0 <= xb < nodes_b.len(),
        nodes_b[xb] == middle,
        down.len() >= 1,
        down[0] == xb,
        forall|r: int| 0 <= r < down.len() ==> 0 <= #[trigger] down[r] < nodes_b.len(),
        forall|r: int| 0 <= r < down.len() - 1 ==> #[trigger] climbs_at(link_b, down, r),
        link_b[down.last()] >= nodes_b.len(),
        p.len() == fore.len() + down.len() - 1,
        forall|k: int| 0 <= k < fore.len() ==> #[trigger] p[k] == fore[k],
        forall|r: int| 1 <= r < down.len() ==> p[fore.len() - 1 + r] == nodes_b[#[trigger] down[r]],
    ensures
        meets(may_s, may_p, starts, ends, p),
        down.len() == depth_b[xb] + 1,
{
    lemma_layered_shape(may_p, must_p, ends, nodes_b, link_b, depth_b, cursor_b);
    let n = down.len() as int;
    let rise = Seq::new(down.len(), |t: int| down[n - 1 - t]);
    assert forall|t: int| 1 <= t < rise.len() implies #[trigger] hangs_at(link_b, rise, t) by {
        let r = n - 1 - t;
        assert(climbs_at(link_b, down, r));
    }
    assert(is_trail(link_b, rise, xb));
    lemma_trail_walk(may_p, must_p, ends, nodes_b, link_b, depth_b, cursor_b, rise, xb);
    let t = fore.len() - 1;
    assert(p[0] == fore[0]);
    assert(nodes_at(nodes_b, rise)[0] == nodes_b[down[n - 1]]);
    if n == 1 {
        assert(p.last() == fore[t]);
    } else {
        assert(p.last() == nodes_b[down[n - 1]]);
    }
    assert(ends.contains(p.last()));
    assert forall|k: int| 0 <= k < t implies #[trigger] step_at(may_s, p, k) by {
        assert(step_at(may_s, fore, k));
        assert(fore[k] == p[k]);
        assert(fore[k + 1] == p[k + 1]);
    }
    assert forall|k: int| t <= k < p.len() - 1 implies #[trigger] step_back_at(may_p, p, k) by {
        let r = k - t;
        assert(climbs_at(link_b, down, r));
        lemma_link_step(may_p, must_p, ends, nodes_b, link_b, depth_b, cursor_b, down[r]);
        assert(p[k + 1] == nodes_b[down[r + 1]]);
        if r == 0 {
            assert(p[k] == fore[t]);
        } else {
            assert(p[k] == nodes_b[down[r]]);
        }
    }
    assert(joins_at(may_s, may_p, starts, ends, p, t));
}

/// Whether a path meets depends on the start nodes and on the end nodes
/// only as sets.
proof fn lemma_meets_same_ends(
    may_s: spec_fn(u64, u64) -> bool,
    may_p: spec_fn(u64, u64) -> bool,
    starts: Seq<u64>,
    ends: Seq<u64>,
    starts2: Seq<u64>,
    ends2: Seq<u64>,
    p: Seq<u64>,
)
    requires
        meets(may_s, may_p, starts, ends, p),
        forall|n: u64| starts.contains(n) <==> starts2.contains(n),
        forall|n: u64| ends.contains(n) <==> ends2.contains(n),
    ensures
        meets(may_s, may_p, starts2, ends2, p),
{
    let t = choose|t: int| joins_at(may_s, may_p, starts, ends, p, t);
    assert(joins_at(may_s, may_p, starts2, ends2, p, t));
}

/// The registry after the nodes of `listed` were registered in turn, each
/// that was not registered before going to the end.
pub open spec fn absorb(seen: Seq<u64>, listed: Seq<u64>) -> Seq<u64>
    decreases listed.len(),
{
    if listed.len() == 0 {
        seen
    } else {
        let before = absorb(seen, listed.drop_last());
        if before.contains(listed.last()) {
            before
        } else {
            before.push(listed.last())
        }
    }
}

/// All the nodes that can be reached from `start`, in breadth-first order:
/// `start` first, then its successors in the order in which `successors`
/// lists them, and so on. The nodes are produced one by one by
/// [`BfsReachable::next`]; nothing is explored before it is asked for.
pub fn bfs_reach<FN>(start: u64, successors: FN) -> (reach: BfsReachable<FN>) where
    FN: FnMut(&u64) -> Vec<u64>,

    requires
        callable(successors),
    ensures
        reach.wf(),
        reach.lister() == successors,
        reach.seen() == seq![start],
        reach.cursor() == 0,
{
    bfs_reach_with_hasher(start, successors, fx_build_hasher())
}

/// [`bfs_reach`] with the hashing strategy of the node registry given by the
/// caller.
pub fn bfs_reach_with_hasher<FN>(start: u64, successors: FN, hasher: NodeHasher) -> (reach:
    BfsReachable<FN>) where FN: FnMut(&u64) -> Vec<u64>
    requires
        callable(successors),
    ensures
        reach.wf(),
        reach.lister() == successors,
        reach.seen() == seq![start],
        reach.cursor() == 0,
{
    let mut seen = index_with_hasher(hasher);
    index_insert(&mut seen, start);
    let ghost nodes = node_order(seen);
    let ghost link = seq![usize::MAX];
    let ghost depth = seq![0nat];
    proof {
        assert(nodes =~= seq![start]);
        assert(nodes[0] == start);
        lemma_seeded(may_step(successors), must_step(successors), nodes, nodes, link, depth);
    }
    BfsReachable { i: 0, seen, successors, link: Ghost(link), depth: Ghost(depth) }
}

/// The state of a breadth-first enumeration: the nodes discovered so far,
/// and how many of them have been produced.
pub struct BfsReachable<FN> {
    i: usize,
    seen: NodeIndex,
    successors: FN,
    link: Ghost<Seq<usize>>,
    depth: Ghost<Seq<nat>>,
}

impl<FN: FnMut(&u64) -> Vec<u64>> BfsReachable<FN> {
    /// The nodes discovered so far, in the order of their discovery. The
    /// first is the start node.
    pub closed spec fn seen(&self) -> Seq<u64> {
        node_order(self.seen)
    }

    /// The number of nodes produced so far: they are the first `cursor()`
    /// nodes of `seen()`.
    pub closed spec fn cursor(&self) -> nat {
        self.i as nat
    }

    /// The successor function that the enumeration explores with.
    pub closed spec fn lister(&self) -> FN {
        self.successors
    }

    /// The start node.
    pub open spec fn origin(&self) -> Seq<u64> {
        seq![self.seen()[0]]
    }

    /// The enumeration is in a state that it can have got into: what it
    /// holds are breadth-first layers around the start node, explored up to
    /// the cursor.
    pub closed spec fn wf(&self) -> bool {
        &&& callable(self.successors)
        &&& self.seen().len() >= 1
        &&& layered(
            may_step(self.successors),
            must_step(self.successors),
            self.origin(),
            self.seen(),
            self.link@,
            self.depth@,
            self.i as int,
        )
    }

    /// A lower bound on the number of nodes that are still to come: those
    /// that are discovered and not yet produced. More may be discovered as
    /// the enumeration goes on.
    pub fn remaining_nodes_low_bound(&self) -> (n: usize)
        requires
            self.wf(),
        ensures
            n == self.seen().len() - self.cursor(),
    {
        proof {
            lemma_layered_shape(
                may_step(self.successors),
                must_step(self.successors),
                self.origin(),
                self.seen(),
                self.link@,
                self.depth@,
                self.i as int,
            );
        }
        index_len(&self.seen) - self.i
    }

    /// The next node in breadth-first order, or `None` when every discovered
    /// node has been produced. Producing a node registers those of its
    /// successors that were not discovered before, in the order in which
    /// they are listed.
    pub fn next(&mut self) -> (node: Option<u64>)
        requires
            old(self).wf(),
        ensures
            final(self).wf(),
            final(self).lister() == old(self).lister(),
            old(self).cursor() >= old(self).seen().len() ==> {
                &&& node.is_none()
                &&& final(self).seen() == old(self).seen()
                &&& final(self).cursor() == old(self).cursor()
            },
            old(self).cursor() < old(self).seen().len() ==> {
                &&& node == Some(old(self).seen()[old(self).cursor() as int])
                &&& final(self).cursor() == old(self).cursor() + 1
                &&& exists|listed: Vec<u64>|
                    #[trigger] call_ensures(old(self).lister(), (&old(self).seen()[old(self).cursor() as int],), listed)
                        && final(self).seen() == absorb(old(self).seen(), listed@)
            },
    {
        let ghost may = may_step(self.successors);
        let ghost must = must_step(self.successors);
        let ghost starts = self.origin();
        let ghost seen0 = self.seen();
        proof {
            lemma_layered_shape(may, must, starts, seen0, self.link@, self.depth@, self.i as int);
        }
        let n = match index_get(&self.seen, self.i) {
            Some(n) => n,
            None => {
                return None;
            },
        };
        let listed = (self.successors)(&n);
        let mut k: usize = 0;
        while k < listed.len()
            invariant
                callable(self.successors),
                self.successors == old(self).successors,
                may == may_step(self.successors),
                must == must_step(self.successors),
                self.i == old(self).i,
                starts == seq![seen0[0]],
                seen0.len() >= 1,
                seen0 == old(self).seen(),
                self.seen().len() >= seen0.len(),
                self.seen()[0] == seen0[0],
                layered(may, must, starts, self.seen(), self.link@, self.depth@, self.i as int),
                self.i < seen0.len(),
                n == self.seen()[self.i as int],
                n == seen0[self.i as int],
                call_ensures(self.successors, (&n,), listed),
                k <= listed.len(),
                self.seen() == absorb(seen0, listed@.take(k as int)),
                forall|t: int| 0 <= t < k ==> self.seen().contains(#[trigger] listed@[t]),
            decreases listed.len() - k,
        {
            let s = listed[k];
            let ghost nodes = self.seen();
            let ghost link = self.link@;
            let ghost depth = self.depth@;
            let at = index_insert(&mut self.seen, s);
            proof {
                assert(listed@.contains(s));
                assert(may(n, s));
                lemma_layered_shape(may, must, starts, nodes, link, depth, self.i as int);
                assert(listed@.take(k + 1).drop_last() =~= listed@.take(k as int));
                assert(listed@.take(k + 1).last() == s);
                let after = self.seen();
                if at.1 {
                    assert(after.len() == nodes.len() + 1);
                    lemma_discover(may, must, starts, nodes, link, depth, self.i as int, s);
                    self.link = Ghost(link.push(self.i));
                    self.depth = Ghost(depth.push(depth[self.i as int] + 1));
                }
                assert(after[at.0 as int] == s);
                assert forall|t: int| 0 <= t < k implies after.contains(#[trigger] listed@[t]) by {
                    let j = choose|j: int| 0 <= j < nodes.len() && nodes[j] == listed@[t];
                    assert(after[j] == listed@[t]);
                }
            }
            k += 1;
        }
        proof {
            let nodes = self.seen();
            assert(listed@.take(k as int) =~= listed@);
            assert forall|b: u64| #[trigger] must(nodes[self.i as int], b)
                implies nodes.contains(b) by {
                assert(listed@.contains(b));
                let t = choose|t: int| 0 <= t < listed@.len() && listed@[t] == b;
                assert(nodes.contains(listed@[t]));
            }
            lemma_advance(may, must, starts, nodes, self.link@, self.depth@, self.i as int);
            lemma_layered_shape(may, must, starts, nodes, self.link@, self.depth@, self.i as int);
            assert(call_ensures(old(self).lister(), (&seen0[self.i as int],), listed));
            assert(nodes == absorb(seen0, listed@));
        }
        self.i += 1;
        Some(n)
    }

    /// No node is produced twice.
    pub proof fn lemma_no_repeat(&self)
        requires
            self.wf(),
        ensures
            self.seen().no_duplicates(),
    {
        lemma_layered_shape(
            may_step(self.successors),
            must_step(self.successors),
            self.origin(),
            self.seen(),
            self.link@,
            self.depth@,
            self.i as int,
        );
    }

    /// The nodes come in the order of their distance from the start node: a
    /// node that was discovered no later than another is reached from the
    /// start node by a walk of listed steps that is no longer than any walk
    /// to the other.
    pub proof fn lemma_breadth_first_order(&self, j: int, k: int, q: Seq<u64>) -> (p: Seq<u64>)
        requires
            self.wf(),
            0 <= j <= k < self.seen().len(),
            walk_from(must_step(self.lister()), self.origin(), q),
            q.last() == self.seen()[k],
        ensures
            walk_from(may_step(self.lister()), self.origin(), p),
            p.last() == self.seen()[j],
            p.len() <= q.len(),
    {
        lemma_earlier_is_nearer(
            may_step(self.successors),
            must_step(self.successors),
            self.origin(),
            self.seen(),
            self.link@,
            self.depth@,
            self.i as int,
            j,
            k,
            q,
        )
    }

    /// Once the enumeration has ended, it has produced every node that can
    /// be reached from the start node.
    pub proof fn lemma_exhausted_is_complete(&self, q: Seq<u64>)
        requires
            self.wf(),
            self.cursor() >= self.seen().len(),
            walk_from(must_step(self.lister()), self.origin(), q),
        ensures
            self.seen().contains(q.last()),
    {
        lemma_layered_shape(
            may_step(self.successors),
            must_step(self.successors),
            self.origin(),
            self.seen(),
            self.link@,
            self.depth@,
            self.i as int,
        );
        lemma_exhausted_holds_all(
            may_step(self.successors),
            must_step(self.successors),
            self.origin(),
            self.seen(),
            self.link@,
            self.depth@,
            q,
        );
    }

    /// Each node that the enumeration has discovered can be reached from the
    /// start node by a walk of listed steps.
    pub proof fn lemma_seen_is_reachable(&self, j: int) -> (p: Seq<u64>)
        requires
            self.wf(),
            0 <= j < self.seen().len(),
        ensures
            walk_from(may_step(self.lister()), self.origin(), p),
            p.last() == self.seen()[j],
    {
        let may = may_step(self.successors);
        let must = must_step(self.successors);
        let trail = lemma_trail_exists(may, must, self.origin(), self.seen(), self.link@, self.depth@, self.i as int, j);
        lemma_trail_walk(may, must, self.origin(), self.seen(), self.link@, self.depth@, self.i as int, trail, j);
        nodes_at(self.seen(), trail)
    }
}

} // verus!
