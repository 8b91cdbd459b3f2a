//! Searches on directed graphs, and the reconstruction of a path from the
//! parent positions that a search has recorded.

use crate::layers::{hangs_at, is_trail, nodes_at};
use crate::registry::Registry;
use vstd::prelude::*;

pub mod astar;
pub mod bfs;

verus! {

/// The order by which parent chains descend: by the first number, then by
/// the second.
pub open spec fn lex_below(a: (nat, nat), b: (nat, nat)) -> bool {
    a.0 < b.0 || (a.0 == b.0 && a.1 < b.1)
}

/// The position after `k` in `climbed` is the parent of the position at
/// `k`.
pub open spec fn climbs_at(link: Seq<usize>, climbed: Seq<int>, k: int) -> bool {
    link[climbed[k]] == climbed[k + 1]
}

/// The path that leads to the entry at `start`: the nodes met when walking
/// from `start` along the parent positions until a position outside the
/// registry is reached, in reverse, so that the path runs from a root down
/// to `start`.
///
/// `parent` reads the parent position out of an entry's record; `link` is
/// what it reads for each entry. The walk ends because every parent stands
/// below its child in `rank`.
pub(crate) fn reverse_path<V, F>(
    parents: &Registry<V>,
    mut parent: F,
    start: usize,
    Ghost(link): Ghost<Seq<usize>>,
    Ghost(rank): Ghost<Seq<(nat, nat)>>,
) -> (found: (Vec<u64>, Ghost<Seq<int>>)) where F: FnMut(&V) -> usize
    requires
        parents.wf(),
        start < parents.nodes().len(),
        link.len() == parents.nodes().len(),
        rank.len() == link.len(),
        forall|v: &V| #[trigger] call_requires(parent, (v,)),
        forall|j: int, p: usize|
            0 <= j < link.len() && #[trigger] call_ensures(parent, (&parents.values()[j],), p) ==> p
                == link[j],
        forall|j: int|
            0 <= j < link.len() && link[j] < link.len() ==> lex_below(
                #[trigger] rank[link[j] as int],
                rank[j],
            ),
    ensures
        is_trail(link, found.1@, start as int),
        found.0@ == nodes_at(parents.nodes(), found.1@),
{
    let ghost nodes = parents.nodes();
    let mut i = start;
    let mut climbed: Vec<u64> = Vec::new();
    let ghost mut seen: Seq<int> = Seq::empty();
    loop
        invariant
            parents.wf(),
            nodes == parents.nodes(),
            link.len() == nodes.len(),
            rank.len() == link.len(),
            forall|v: &V| #[trigger] call_requires(parent, (v,)),
            forall|j: int, p: usize|
                0 <= j < link.len() && #[trigger] call_ensures(parent, (&parents.values()[j],), p)
                    ==> p == link[j],
            forall|j: int|
                0 <= j < link.len() && link[j] < link.len() ==> lex_below(
                    #[trigger] rank[link[j] as int],
                    rank[j],
                ),
            seen.len() == climbed.len(),
            forall|k: int|
                0 <= k < seen.len() ==> 0 <= #[trigger] seen[k] < nodes.len() && climbed[k] == nodes[seen[k]],
            seen.len() == 0 ==> i == start && start < nodes.len(),
            seen.len() > 0 ==> seen[0] == start && link[seen.last()] == i,
            forall|k: int| 0 <= k < seen.len() - 1 ==> #[trigger] climbs_at(link, seen, k),
        ensures
            i >= nodes.len(),
            seen.len() > 0,
        decreases
                (if i < link.len() {
                    rank[i as int].0 + 1
                } else {
                    0
                }),
                (if i < link.len() {
                    rank[i as int].1
                } else {
                    0
                }),
    {
        match parents.get_index(i) {
            None => {
                break ;
            },
            Some((node, value)) => {
                climbed.push(node);
                let ghost below = i as int;
                let ghost before = seen;
                proof {
                    seen = seen.push(below);
                    assert forall|k: int| 0 <= k < seen.len() - 1
                        implies #[trigger] climbs_at(link, seen, k) by {
                        if k < before.len() - 1 {
                            assert(climbs_at(link, before, k));
                        }
                    }
                }
                i = parent(value);
                assert(i == link[below]);
            },
        }
    }
    let n = climbed.len();
    let mut path: Vec<u64> = Vec::new();
    let mut k = n;
    while k > 0
        invariant
            n == climbed.len(),
            k <= n,
            path.len() == n - k,
            forall|t: int| 0 <= t < path.len() ==> #[trigger] path[t] == climbed[n - 1 - t],
        decreases k,
    {
        k -= 1;
        path.push(climbed[k]);
    }
    let ghost trail = Seq::new(seen.len(), |t: int| seen[seen.len() - 1 - t]);
    proof {
        assert(trail.last() == seen[0]);
        assert forall|t: int| 1 <= t < trail.len() implies #[trigger] hangs_at(link, trail, t) by {
            let s = seen.len() - 1 - t;
            assert(climbs_at(link, seen, s));
        }
        assert(path@ =~= nodes_at(nodes, trail));
    }
    (path, Ghost(trail))
}

} // verus!
